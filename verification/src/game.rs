//! The state of a game, its model, and how objects move and attack in it.

use vstd::prelude::*;
use crate::map::{
    blocks_at, has_size, is_blocked, occupied, tile, Tile, MAP_HEIGHT, MAP_WIDTH,
};
use crate::message::{Line, Messages};
use crate::object::{
    lemma_damage_conserves, lemma_views_update, views, DeathCallback, Fighter, Object,
    ObjectView,
};

verus! {

/// The player is always the first object.
pub const PLAYER: usize = 0;

pub const CAMERA_WIDTH: i32 = 80;

pub const CAMERA_HEIGHT: i32 = 43;

/// How far the player's torch lights the dungeon.
pub const TORCH_RADIUS: i32 = 10;

/// The number of lines that the message log keeps.
pub const MSG_HEIGHT: usize = 6;

/// What is known of the mouse: the console cell it points at and the buttons that were
/// pressed since the last frame.
#[derive(Clone, Copy, Debug, PartialEq, Eq, Structural)]
pub struct Mouse {
    pub cx: i32,
    pub cy: i32,
    pub lbutton_pressed: bool,
    pub rbutton_pressed: bool,
}

/// The whole state of a game. The objects, the map, the log, the inventory and the
/// dungeon level make up a saved game; the rest is rebuilt after loading.
pub struct GameState {
    pub objects: Vec<Object>,
    pub map: Vec<Vec<Tile>>,
    pub messages: Messages,
    pub inventory: Vec<Object>,
    pub dungeon_level: u32,
    /// For each tile of the map, whether the player sees it.
    pub fov: Vec<Vec<bool>>,
    pub camera_pos: (i32, i32),
    pub previous_player_pos: (i32, i32),
    pub mouse: Mouse,
    pub disable_fov: bool,
}

/// The state of a game as a mathematical value.
pub struct GameView {
    pub objects: Seq<ObjectView>,
    pub map: Seq<Vec<Tile>>,
    pub log: Seq<Line>,
    pub log_limit: nat,
    pub inventory: Seq<ObjectView>,
    pub dungeon_level: u32,
    pub fov: Seq<Vec<bool>>,
    pub camera_pos: (i32, i32),
    pub previous_player_pos: (i32, i32),
    pub mouse: Mouse,
    pub disable_fov: bool,
}

impl View for GameState {
    type V = GameView;

    open spec fn view(&self) -> GameView {
        GameView {
            objects: views(self.objects@),
            map: self.map@,
            log: self.messages@,
            log_limit: self.messages.limit(),
            inventory: views(self.inventory@),
            dungeon_level: self.dungeon_level,
            fov: self.fov@,
            camera_pos: self.camera_pos,
            previous_player_pos: self.previous_player_pos,
            mouse: self.mouse,
            disable_fov: self.disable_fov,
        }
    }
}

/// Whether `(x, y)` names a tile of the map.
pub open spec fn on_map(x: int, y: int) -> bool {
    0 <= x < MAP_WIDTH && 0 <= y < MAP_HEIGHT
}

/// Whether the combat values are sound: hit points between nothing and the maximum, and
/// no negative power, defense or experience.
pub open spec fn fighter_ok(fighter: Fighter) -> bool {
    &&& 0 <= fighter.hp <= fighter.max_hp
    &&& 0 <= fighter.power
    &&& 0 <= fighter.defense
    &&& 0 <= fighter.xp
}

/// Whether the object stands on the map and its combat values, if it has any, are sound.
pub open spec fn object_ok(object: ObjectView) -> bool {
    &&& on_map(object.x, object.y)
    &&& object.fighter matches Some(f) ==> fighter_ok(f)
}

/// The sign of a number: -1, 0 or 1.
pub open spec fn sign(v: int) -> int {
    if v < 0 {
        -1
    } else if v > 0 {
        1
    } else {
        0
    }
}

/// One coordinate of the step toward a target that lies `d` away along this axis and
/// `other` away along the other: the coordinate of the unit vector toward the target,
/// rounded to the nearest whole number. It is the sign of `d` where `d` makes up at least
/// half of the distance, and 0 elsewhere.
pub open spec fn unit_step(d: int, other: int) -> int {
    if 4 * (d * d) >= d * d + other * other {
        sign(d)
    } else {
        0
    }
}

/// The first position from `start` on at which `wanted` holds of the object and its
/// position, or the length of the list if there is none.
pub open spec fn first_from(
    objects: Seq<ObjectView>,
    wanted: spec_fn(int, ObjectView) -> bool,
    start: int,
) -> int
    decreases objects.len() - start,
{
    if start >= objects.len() {
        objects.len() as int
    } else if wanted(start, objects[start]) {
        start
    } else {
        first_from(objects, wanted, start + 1)
    }
}

/// The first position at which `wanted` holds, if there is one.
pub open spec fn first_index(objects: Seq<ObjectView>, wanted: spec_fn(int, ObjectView) -> bool) -> Option<
    int,
> {
    if first_from(objects, wanted, 0) < objects.len() {
        Some(first_from(objects, wanted, 0))
    } else {
        None
    }
}

/// `first_from` finds a position at which `wanted` holds and before which, from `start`
/// on, it does not; it finds none only if there is none.
pub proof fn lemma_first_from(
    objects: Seq<ObjectView>,
    wanted: spec_fn(int, ObjectView) -> bool,
    start: int,
)
    requires
        0 <= start <= objects.len(),
    ensures
        start <= first_from(objects, wanted, start) <= objects.len(),
        first_from(objects, wanted, start) < objects.len() ==> wanted(
            first_from(objects, wanted, start),
            objects[first_from(objects, wanted, start)],
        ),
        forall|j: int| start <= j < first_from(objects, wanted, start) ==> !wanted(j, #[trigger] objects[j]),
    decreases objects.len() - start,
{
    if start < objects.len() && !wanted(start, objects[start]) {
        lemma_first_from(objects, wanted, start + 1);
    }
}

/// The sum of the experience of all the objects that have a combat facet.
pub open spec fn xp_total(objects: Seq<ObjectView>) -> int
    decreases objects.len(),
{
    if objects.len() == 0 {
        0
    } else {
        xp_total(objects.drop_last()) + (match objects.last().fighter {
            Some(f) => f.xp as int,
            None => 0,
        })
    }
}

/// Where no experience is negative, the experience of any two objects together is no
/// more than the total.
pub proof fn lemma_xp_pair(objects: Seq<ObjectView>, i: int, j: int)
    requires
        forall|k: int| 0 <= k < objects.len() ==> object_ok(#[trigger] objects[k]),
        0 <= i < objects.len(),
        0 <= j < objects.len(),
        i != j,
    ensures
        xp_total(objects) >= 0,
        (objects[i].fighter matches Some(f) ==> f.xp <= xp_total(objects)),
        (objects[i].fighter matches Some(f) ==> (objects[j].fighter matches Some(g) ==> f.xp + g.xp
            <= xp_total(objects))),
    decreases objects.len(),
{
    let rest = objects.drop_last();
    let n = objects.len() - 1;
    assert forall|k: int| 0 <= k < rest.len() implies object_ok(#[trigger] rest[k]) by {
        assert(rest[k] == objects[k]);
    }
    assert(object_ok(objects[n]));
    lemma_xp_nonnegative(rest);
    if i < n && j < n {
        lemma_xp_pair(rest, i, j);
        assert(rest[i] == objects[i] && rest[j] == objects[j]);
    } else if i < n {
        lemma_xp_single(rest, i);
        assert(rest[i] == objects[i]);
    } else {
        lemma_xp_single(rest, j);
        assert(rest[j] == objects[j]);
    }
}

/// Where no experience is negative, the total is not negative.
pub proof fn lemma_xp_nonnegative(objects: Seq<ObjectView>)
    requires
        forall|k: int| 0 <= k < objects.len() ==> object_ok(#[trigger] objects[k]),
    ensures
        xp_total(objects) >= 0,
    decreases objects.len(),
{
    if objects.len() > 0 {
        let rest = objects.drop_last();
        assert forall|k: int| 0 <= k < rest.len() implies object_ok(#[trigger] rest[k]) by {
            assert(rest[k] == objects[k]);
        }
        assert(object_ok(objects[objects.len() - 1]));
        lemma_xp_nonnegative(rest);
    }
}

/// Where no experience is negative, the experience of one object is no more than the total.
pub proof fn lemma_xp_single(objects: Seq<ObjectView>, i: int)
    requires
        forall|k: int| 0 <= k < objects.len() ==> object_ok(#[trigger] objects[k]),
        0 <= i < objects.len(),
    ensures
        objects[i].fighter matches Some(f) ==> f.xp <= xp_total(objects),
    decreases objects.len(),
{
    let rest = objects.drop_last();
    let n = objects.len() - 1;
    assert forall|k: int| 0 <= k < rest.len() implies object_ok(#[trigger] rest[k]) by {
        assert(rest[k] == objects[k]);
    }
    assert(object_ok(objects[n]));
    lemma_xp_nonnegative(rest);
    if i < n {
        lemma_xp_single(rest, i);
        assert(rest[i] == objects[i]);
    }
}

/// Mutably borrows two separate elements of the slice.
pub fn mut_two<T>(first_index: usize, second_index: usize, items: &mut [T]) -> (pair: (&mut T, &mut T))
    requires
        first_index != second_index,
        first_index < old(items)@.len(),
        second_index < old(items)@.len(),
    ensures
        *pair.0 == old(items)@[first_index as int],
        *pair.1 == old(items)@[second_index as int],
        final(items)@ == old(items)@.update(first_index as int, *final(pair.0)).update(
            second_index as int,
            *final(pair.1),
        ),
{
    let split_at_index = if first_index < second_index {
        second_index
    } else {
        first_index
    };
    let (first_slice, second_slice) = items.split_at_mut(split_at_index);
    if first_index < second_index {
        (&mut first_slice[first_index], &mut second_slice[0])
    } else {
        (&mut second_slice[0], &mut first_slice[second_index])
    }
}

impl GameView {
    /// Whether the state is sound: map and field of view have the size of the map, the
    /// player exists, every object on the map is sound, the combat values of what lies in
    /// the inventory are sound, the log has room, and the camera shows nothing but the map.
    pub open spec fn wf(self) -> bool {
        &&& has_size(self.map, MAP_WIDTH as int, MAP_HEIGHT as int)
        &&& self.fov.len() == MAP_WIDTH
        &&& forall|x: int| 0 <= x < MAP_WIDTH ==> (#[trigger] self.fov[x]).len() == MAP_HEIGHT
        &&& self.objects.len() >= 1
        &&& forall|i: int| 0 <= i < self.objects.len() ==> object_ok(#[trigger] self.objects[i])
        &&& forall|i: int|
            0 <= i < self.inventory.len() ==> ((#[trigger] self.inventory[i]).fighter matches Some(f)
                ==> fighter_ok(f))
        &&& 0 < self.log_limit
        &&& self.log.len() <= self.log_limit
        &&& 0 <= self.camera_pos.0 <= MAP_WIDTH - CAMERA_WIDTH
        &&& 0 <= self.camera_pos.1 <= MAP_HEIGHT - CAMERA_HEIGHT
    }

    /// Whether the tile `(x, y)` cannot be entered: it lies off the map, it is rock, or a
    /// blocking object stands on it.
    pub open spec fn blocked(self, x: int, y: int) -> bool {
        !on_map(x, y) || tile(self.map, x, y).blocked || occupied(self.objects, x, y)
    }

    /// Whether the player sees the tile `(x, y)`.
    pub open spec fn in_fov(self, x: int, y: int) -> bool {
        on_map(x, y) && self.fov[x][y]
    }

    /// The state with object `id` replaced.
    pub open spec fn with_object(self, id: int, object: ObjectView) -> GameView {
        GameView { objects: self.objects.update(id, object), ..self }
    }

    /// The state after object `id` tries to move by `(dx, dy)`: it moves unless the tile
    /// it would enter is blocked.
    pub open spec fn moved_by(self, id: int, dx: int, dy: int) -> GameView {
        let object = self.objects[id];
        if self.blocked(object.x + dx, object.y + dy) {
            self
        } else {
            self.with_object(id, ObjectView { x: object.x + dx, y: object.y + dy, ..object })
        }
    }

    /// Whether the experience of all objects together fits the number that holds the
    /// experience of one.
    pub open spec fn xp_fits(self) -> bool {
        xp_total(self.objects) <= i32::MAX
    }

    /// Whether an attack of object `attacker` on object `target` earns the attacker
    /// experience: the attack does damage and kills.
    pub open spec fn attack_rewards(self, attacker: int, target: int) -> bool {
        self.objects[attacker].attack_reward(self.objects[target]) is Some
    }

    /// Whether a step of the player by `(dx, dy)` earns the player experience: a fighter
    /// stands where the step leads, and the player's attack kills it.
    pub open spec fn step_rewards(self, dx: int, dy: int) -> bool {
        self.fighter_at(self.objects[0].x + dx, self.objects[0].y + dy) matches Some(target)
            && self.attack_rewards(0, target)
    }

    /// The state after object `attacker` attacks object `target`.
    pub open spec fn attacked(self, attacker: int, target: int) -> GameView {
        let a = self.objects[attacker];
        let t = self.objects[target];
        GameView {
            objects: self.objects.update(attacker, a.after_attacking(t)).update(target, t.after_attack_of(a)),
            log: a.attack_logged(t, self.log, self.log_limit),
            ..self
        }
    }

    /// The first object with a combat facet on the tile `(x, y)`, if there is one.
    pub open spec fn fighter_at(self, x: int, y: int) -> Option<int> {
        first_index(self.objects, |i: int, o: ObjectView| o.fighter is Some && o.x == x && o.y == y)
    }

    /// The state after the player steps by `(dx, dy)`: where a fighter stands on the tile
    /// that the step leads to, the player attacks it; elsewhere the player moves, unless
    /// the tile is blocked.
    pub open spec fn player_moved(self, dx: int, dy: int) -> GameView {
        let x = self.objects[0].x + dx;
        let y = self.objects[0].y + dy;
        match self.fighter_at(x, y) {
            Some(target) => self.attacked(0, target),
            None => self.moved_by(0, dx, dy),
        }
    }

    /// The state after object `id` tries to take one step straight toward `(x, y)`.
    pub open spec fn moved_towards(self, id: int, x: int, y: int) -> GameView {
        let dx = x - self.objects[id].x;
        let dy = y - self.objects[id].y;
        self.moved_by(id, unit_step(dx, dy), unit_step(dy, dx))
    }
}

impl GameState {
    /// Whether the state is sound.
    pub open spec fn wf(&self) -> bool {
        self@.wf()
    }

    /// Whether the tile `(x, y)` cannot be entered: it lies off the map, it is rock, or a
    /// blocking object stands on it.
    pub fn is_blocked(&self, x: i32, y: i32) -> (blocked: bool)
        requires
            self.wf(),
        ensures
            blocked == self@.blocked(x as int, y as int),
    {
        if x < 0 || x >= MAP_WIDTH || y < 0 || y >= MAP_HEIGHT {
            return true;
        }
        assert(self.map@[x as int].len() == MAP_HEIGHT);
        is_blocked(x, y, &self.map, self.objects.as_slice())
    }

    /// Moves an object by the given amount, if the destination is not blocked.
    pub fn move_object_by(&mut self, id: usize, dx: i32, dy: i32)
        requires
            old(self).wf(),
            id < old(self).objects@.len(),
        ensures
            final(self).wf(),
            final(self)@ == old(self)@.moved_by(id as int, dx as int, dy as int),
    {
        let (x, y) = self.objects[id].pos();
        assert(object_ok(self@.objects[id as int]));
        let to_x: i64 = x as i64 + dx as i64;
        let to_y: i64 = y as i64 + dy as i64;
        if to_x < 0 || to_x >= MAP_WIDTH as i64 || to_y < 0 || to_y >= MAP_HEIGHT as i64 {
            return ;
        }
        if !self.is_blocked(to_x as i32, to_y as i32) {
            self.objects[id].set_pos(to_x as i32, to_y as i32);
            proof {
                lemma_views_update(old(self).objects@, id as int, self.objects@[id as int]);
                assert(self.objects@ =~= old(self).objects@.update(id as int, self.objects@[id as int]));
                assert forall|i: int| 0 <= i < self@.objects.len() implies object_ok(
                    #[trigger] self@.objects[i],
                ) by {
                    if i != id {
                        assert(self@.objects[i] == old(self)@.objects[i]);
                    } else {
                        assert(object_ok(old(self)@.objects[i]));
                    }
                }
            }
        }
    }

    /// Moves an object one step straight toward `(target_x, target_y)`, if the tile in
    /// that direction is not blocked.
    pub fn move_towards(&mut self, id: usize, target_x: i32, target_y: i32)
        requires
            old(self).wf(),
            id < old(self).objects@.len(),
        ensures
            final(self).wf(),
            final(self)@ == old(self)@.moved_towards(id as int, target_x as int, target_y as int),
    {
        assert(object_ok(self@.objects[id as int]));
        let dx: i128 = target_x as i128 - self.objects[id].x as i128;
        let dy: i128 = target_y as i128 - self.objects[id].y as i128;
        assert(0 <= dx * dx <= 0x1_0000_0000_0000_0000 && 0 <= dy * dy <= 0x1_0000_0000_0000_0000)
            by (nonlinear_arith)
            requires
                -0x1_0000_0000 <= dx <= 0x1_0000_0000,
                -0x1_0000_0000 <= dy <= 0x1_0000_0000,
        ;
        let dx2: i128 = dx * dx;
        let dy2: i128 = dy * dy;
        let step_x: i32 = if 4 * dx2 >= dx2 + dy2 {
            if dx < 0 {
                -1
            } else if dx > 0 {
                1
            } else {
                0
            }
        } else {
            0
        };
        let step_y: i32 = if 4 * dy2 >= dy2 + dx2 {
            if dy < 0 {
                -1
            } else if dy > 0 {
                1
            } else {
                0
            }
        } else {
            0
        };
        self.move_object_by(id, step_x, step_y);
    }

    /// Lets object `attacker` attack object `target`. Where the attack earns experience,
    /// the experience has to fit.
    pub fn attack(&mut self, attacker: usize, target: usize)
        requires
            old(self).wf(),
            old(self)@.attack_rewards(attacker as int, target as int) ==> old(self)@.xp_fits(),
            attacker != target,
            attacker < old(self).objects@.len(),
            target < old(self).objects@.len(),
        ensures
            final(self).wf(),
            final(self)@ == old(self)@.attacked(attacker as int, target as int),
    {
        let ghost before = self.objects@;
        proof {
            lemma_xp_pair(self@.objects, attacker as int, target as int);
            assert(object_ok(self@.objects[attacker as int]));
            assert(object_ok(self@.objects[target as int]));
        }
        let (first, second) = mut_two(attacker, target, self.objects.as_mut_slice());
        first.attack(second, &mut self.messages);
        proof {
            let a = before[attacker as int];
            let t = before[target as int];
            let a2 = self.objects@[attacker as int];
            let t2 = self.objects@[target as int];
            assert(self.objects@ =~= before.update(attacker as int, a2).update(target as int, t2));
            lemma_views_update(before, attacker as int, a2);
            lemma_views_update(before.update(attacker as int, a2), target as int, t2);
            lemma_damage_conserves(t@, a@.damage_to(t@));
            assert forall|i: int| 0 <= i < self@.objects.len() implies object_ok(
                #[trigger] self@.objects[i],
            ) by {
                assert(object_ok(old(self)@.objects[i]));
            }
        }
    }

    /// The first object with a combat facet on the tile `(x, y)`, if there is one.
    pub fn fighter_at(&self, x: i32, y: i32) -> (found: Option<usize>)
        ensures
            match found {
                Some(id) => self@.fighter_at(x as int, y as int) == Some(id as int),
                None => self@.fighter_at(x as int, y as int) is None,
            },
    {
        let ghost wanted = |i: int, o: ObjectView| o.fighter is Some && o.x == x as int && o.y == y as int;
        let mut id: usize = 0;
        while id < self.objects.len()
            invariant
                id <= self.objects@.len(),
                wanted == (|i: int, o: ObjectView| o.fighter is Some && o.x == x as int && o.y == y as int),
                first_from(self@.objects, wanted, 0) == first_from(self@.objects, wanted, id as int),
            decreases self.objects@.len() - id,
        {
            if self.objects[id].fighter.is_some() && self.objects[id].x == x && self.objects[id].y == y {
                assert(wanted(id as int, self@.objects[id as int]));
                return Some(id);
            }
            assert(!wanted(id as int, self@.objects[id as int]));
            id = id + 1;
        }
        None
    }

    /// The player steps by `(dx, dy)`: an attack on the fighter that stands there, or
    /// else a move, if the tile is free. A step on the spot would have the player attack
    /// itself and is ruled out.
    pub fn player_move_or_attack(&mut self, dx: i32, dy: i32)
        requires
            old(self).wf(),
            old(self)@.step_rewards(dx as int, dy as int) ==> old(self)@.xp_fits(),
            !(dx == 0 && dy == 0 && old(self)@.objects[0].fighter is Some),
        ensures
            final(self).wf(),
            final(self)@ == old(self)@.player_moved(dx as int, dy as int),
            final(self)@.map == old(self)@.map,
            final(self)@.inventory == old(self)@.inventory,
            final(self)@.objects.len() == old(self)@.objects.len(),
    {
        assert(object_ok(self@.objects[0]));
        let x: i64 = self.objects[PLAYER].x as i64 + dx as i64;
        let y: i64 = self.objects[PLAYER].y as i64 + dy as i64;
        let target_id = if x < 0 || x >= MAP_WIDTH as i64 || y < 0 || y >= MAP_HEIGHT as i64 {
            proof {
                let wanted = |i: int, o: ObjectView| o.fighter is Some && o.x == x as int && o.y == y as int;
                lemma_first_from(self@.objects, wanted, 0);
                if first_from(self@.objects, wanted, 0) < self@.objects.len() {
                    assert(object_ok(self@.objects[first_from(self@.objects, wanted, 0)]));
                }
            }
            None
        } else {
            self.fighter_at(x as i32, y as i32)
        };
        match target_id {
            Some(target_id) => {
                proof {
                    let wanted = |i: int, o: ObjectView| o.fighter is Some && o.x == x as int && o.y == y as int;
                    lemma_first_from(self@.objects, wanted, 0);
                }
                self.attack(PLAYER, target_id);
            },
            None => {
                self.move_object_by(PLAYER, dx, dy);
            },
        }
    }

    /// Whether the state is sound, which every other function of the game relies on. A
    /// state that was built by hand or read from a file is to be checked before it is used.
    pub fn is_sound(&self) -> (sound: bool)
        ensures
            sound == self.wf(),
    {
        if self.map.len() != MAP_WIDTH as usize || self.fov.len() != MAP_WIDTH as usize {
            return false;
        }
        let mut x: usize = 0;
        while x < MAP_WIDTH as usize
            invariant
                x <= MAP_WIDTH,
                self.map@.len() == MAP_WIDTH,
                self.fov@.len() == MAP_WIDTH,
                forall|cx: int| 0 <= cx < x ==> (#[trigger] self.map@[cx]).len() == MAP_HEIGHT,
                forall|cx: int| 0 <= cx < x ==> (#[trigger] self.fov@[cx]).len() == MAP_HEIGHT,
            decreases MAP_WIDTH - x,
        {
            if self.map[x].len() != MAP_HEIGHT as usize || self.fov[x].len() != MAP_HEIGHT as usize {
                return false;
            }
            x = x + 1;
        }
        if self.objects.len() < 1 {
            return false;
        }
        let mut i: usize = 0;
        while i < self.objects.len()
            invariant
                i <= self.objects@.len(),
                forall|k: int| 0 <= k < i ==> object_ok(#[trigger] self@.objects[k]),
            decreases self.objects@.len() - i,
        {
            let object = &self.objects[i];
            let fighter_sound = match object.fighter {
                Some(f) => 0 <= f.hp && f.hp <= f.max_hp && 0 <= f.power && 0 <= f.defense && 0 <= f.xp,
                None => true,
            };
            if !(0 <= object.x && object.x < MAP_WIDTH && 0 <= object.y && object.y < MAP_HEIGHT
                && fighter_sound) {
                assert(!object_ok(self@.objects[i as int]));
                return false;
            }
            i = i + 1;
        }
        let mut i: usize = 0;
        while i < self.inventory.len()
            invariant
                i <= self.inventory@.len(),
                forall|k: int|
                    0 <= k < i ==> ((#[trigger] self@.inventory[k]).fighter matches Some(f) ==> fighter_ok(f)),
            decreases self.inventory@.len() - i,
        {
            let fighter_sound = match self.inventory[i].fighter {
                Some(f) => 0 <= f.hp && f.hp <= f.max_hp && 0 <= f.power && 0 <= f.defense && 0 <= f.xp,
                None => true,
            };
            if !fighter_sound {
                assert(!(self@.inventory[i as int].fighter matches Some(f) ==> fighter_ok(f)));
                return false;
            }
            i = i + 1;
        }
        0 < self.messages.capacity() && self.messages.len() <= self.messages.capacity() && 0
            <= self.camera_pos.0 && self.camera_pos.0 <= MAP_WIDTH - CAMERA_WIDTH && 0 <= self.camera_pos.1
            && self.camera_pos.1 <= MAP_HEIGHT - CAMERA_HEIGHT
    }

    /// Whether the experience of all objects together fits the number that holds the
    /// experience of one, which the functions that hand out experience rely on.
    pub fn xp_fits(&self) -> (fits: bool)
        requires
            self.wf(),
        ensures
            fits == self@.xp_fits(),
    {
        let mut total: i64 = 0;
        let mut i: usize = 0;
        assert(self@.objects.subrange(0, 0) =~= Seq::<ObjectView>::empty());
        while i < self.objects.len()
            invariant
                self.wf(),
                i <= self.objects@.len(),
                total == xp_total(self@.objects.subrange(0, i as int)),
                0 <= total <= i32::MAX,
            decreases self.objects@.len() - i,
        {
            proof {
                let part = self@.objects.subrange(0, i + 1);
                assert(part.drop_last() =~= self@.objects.subrange(0, i as int));
                assert(part.last() == self@.objects[i as int]);
                assert(object_ok(self@.objects[i as int]));
                lemma_xp_grows(self@.objects, i + 1);
            }
            match self.objects[i].fighter {
                Some(f) => {
                    total = total + f.xp as i64;
                },
                None => {},
            }
            if total > i32::MAX as i64 {
                return false;
            }
            i = i + 1;
        }
        assert(self@.objects.subrange(0, i as int) =~= self@.objects);
        true
    }
}

/// What an attack does to the two that fight and to no one else. The attacker stays
/// where it is and keeps its hit points. The defender keeps everything if the attacker's
/// power does not exceed its defense; else its hit points fall by the difference, but not
/// below zero, and with no hit points left it is dead. Nothing but the two objects and
/// the log changes.
pub proof fn lemma_attack_resolved(state: GameView, attacker: int, target: int)
    requires
        0 <= attacker < state.objects.len(),
        0 <= target < state.objects.len(),
        attacker != target,
        state.objects[target].fighter matches Some(f) && f.hp > 0,
    ensures
        state.attacked(attacker, target).objects.len() == state.objects.len(),
        forall|i: int|
            0 <= i < state.objects.len() && i != attacker && i != target ==> #[trigger] state.attacked(
                attacker,
                target,
            ).objects[i] == state.objects[i],
        state.attacked(attacker, target).map == state.map,
        state.attacked(attacker, target).inventory == state.inventory,
        attacker_kept(state.objects[attacker], state.attacked(attacker, target).objects[attacker]),
        defender_hit(
            state.objects[target],
            state.objects[attacker].damage_to(state.objects[target]),
            state.attacked(attacker, target).objects[target],
        ),
        state.attacked(attacker, target).objects[attacker] == (if state.objects[target].killed_by(
            state.objects[attacker].damage_to(state.objects[target]),
        ) && state.objects[attacker].damage_to(state.objects[target]) > 0 {
            state.objects[attacker].rewarded(state.objects[target].fighter->0.xp as int)
        } else {
            state.objects[attacker]
        }),
{
    let after = state.attacked(attacker, target);
    assert(after.objects[attacker] == state.objects[attacker].after_attacking(state.objects[target]));
    assert(after.objects[target] == state.objects[target].after_attack_of(state.objects[attacker]));
}

/// Whether `after` is the attacker `before` after an attack: it stands where it stood,
/// is as alive as it was, and has its hit points, power and defense.
pub open spec fn attacker_kept(before: ObjectView, after: ObjectView) -> bool {
    &&& after.x == before.x && after.y == before.y
    &&& after.alive == before.alive
    &&& after.blocks == before.blocks
    &&& after.ai == before.ai
    &&& before.fighter is None ==> after.fighter is None
    &&& before.fighter matches Some(f) ==> (after.fighter matches Some(g) && g.hp == f.hp && g.max_hp
        == f.max_hp && g.power == f.power && g.defense == f.defense)
}

/// Whether `after` is the defender `before`, who had hit points left, after an attack
/// that does `damage`. Damage that is not positive changes nothing. Else the hit points
/// fall by the damage; a defender with hit points left is otherwise as before, and one
/// with none left is its corpse, dead. Hit points are never negative and never rise, and
/// a defender with no hit points is dead.
pub open spec fn defender_hit(before: ObjectView, damage: int, after: ObjectView) -> bool {
    let f = before.fighter->0;
    &&& after.x == before.x && after.y == before.y
    &&& damage <= 0 ==> after == before
    &&& damage > 0 && f.hp - damage > 0 ==> after == (ObjectView {
        fighter: Some(Fighter { hp: (f.hp - damage) as i32, ..f }),
        ..before
    })
    &&& damage > 0 && f.hp - damage <= 0 ==> after == before.corpse() && !after.alive
    &&& after.fighter matches Some(g) ==> {
        &&& 0 <= g.hp <= f.hp
        &&& g.hp == 0 ==> !after.alive
        &&& g.hp == (if damage <= 0 {
            f.hp as int
        } else if f.hp - damage < 0 {
            0
        } else {
            f.hp - damage
        })
        &&& g.max_hp == f.max_hp && g.defense == f.defense && g.power == f.power && g.xp == f.xp
    }
    &&& before.alive && !after.alive ==> damage > 0 && f.hp - damage <= 0
}

/// A step of the player onto a tile on which a fighter stands is an attack on the first
/// such fighter and no move: the player stays where it is, and what the attack does is
/// what `lemma_attack_resolved` says.
pub proof fn lemma_step_onto_fighter(state: GameView, dx: int, dy: int, target: int)
    requires
        state.objects.len() >= 1,
        state.fighter_at(state.objects[0].x + dx, state.objects[0].y + dy) == Some(target),
    ensures
        0 <= target < state.objects.len(),
        state.objects[target].fighter is Some,
        state.objects[target].x == state.objects[0].x + dx,
        state.objects[target].y == state.objects[0].y + dy,
        forall|i: int|
            0 <= i < target ==> !((#[trigger] state.objects[i]).fighter is Some && state.objects[i].x
                == state.objects[0].x + dx && state.objects[i].y == state.objects[0].y + dy),
        state.player_moved(dx, dy) == state.attacked(0, target),
        target != 0 ==> state.player_moved(dx, dy).objects[0].x == state.objects[0].x && state.player_moved(
            dx,
            dy,
        ).objects[0].y == state.objects[0].y,
{
    let x = state.objects[0].x + dx;
    let y = state.objects[0].y + dy;
    let wanted = |i: int, o: ObjectView| o.fighter is Some && o.x == x && o.y == y;
    lemma_first_from(state.objects, wanted, 0);
    assert forall|i: int| 0 <= i < target implies !((#[trigger] state.objects[i]).fighter is Some
        && state.objects[i].x == x && state.objects[i].y == y) by {
        assert(!wanted(i, state.objects[i]));
    }
}

/// A step of the player onto a free tile on which no fighter stands moves the player
/// there and changes nothing else. An object without a combat facet, such as the corpse
/// of a monster, is never attacked, whatever the step.
pub proof fn lemma_step_onto_free(state: GameView, dx: int, dy: int)
    requires
        state.objects.len() >= 1,
        state.fighter_at(state.objects[0].x + dx, state.objects[0].y + dy) is None,
    ensures
        !state.blocked(state.objects[0].x + dx, state.objects[0].y + dy) ==> state.player_moved(dx, dy) == (
        GameView {
            objects: state.objects.update(
                0,
                ObjectView { x: state.objects[0].x + dx, y: state.objects[0].y + dy, ..state.objects[0] },
            ),
            ..state
        }),
        state.blocked(state.objects[0].x + dx, state.objects[0].y + dy) ==> state.player_moved(dx, dy)
            == state,
        forall|i: int|
            0 < i < state.objects.len() ==> #[trigger] state.player_moved(dx, dy).objects[i] == state.objects[i],
        state.player_moved(dx, dy).log == state.log,
{
}

/// Whatever the step of the player, an object without a combat facet is left as it is:
/// a monster that died is not killed again, and its reward is not paid again.
pub proof fn lemma_step_spares_corpses(state: GameView, dx: int, dy: int, k: int)
    requires
        0 < k < state.objects.len(),
        state.objects[k].fighter is None,
    ensures
        state.player_moved(dx, dy).objects.len() == state.objects.len(),
        state.player_moved(dx, dy).objects[k] == state.objects[k],
        state.fighter_at(state.objects[0].x + dx, state.objects[0].y + dy) != Some(k),
{
    let x = state.objects[0].x + dx;
    let y = state.objects[0].y + dy;
    let wanted = |i: int, o: ObjectView| o.fighter is Some && o.x == x && o.y == y;
    lemma_first_from(state.objects, wanted, 0);
}

/// The corpse of a monster does not fight, does not act, does not block and is dead.
pub proof fn lemma_corpse_is_done(monster: ObjectView)
    requires
        monster.fighter matches Some(f) && f.on_death == DeathCallback::Monster,
    ensures
        monster.corpse().fighter is None,
        monster.corpse().ai is None,
        !monster.corpse().blocks,
        !monster.corpse().alive,
        monster.corpse().x == monster.x && monster.corpse().y == monster.y,
{
}

/// Whether no two blocking objects stand on the same tile.
pub open spec fn apart(objects: Seq<ObjectView>) -> bool {
    forall|i: int, j: int|
        0 <= i < j < objects.len() && objects[i].blocks && objects[j].blocks ==> !(objects[i].x
            == objects[j].x && objects[i].y == objects[j].y)
}

/// A move never puts a blocking object on the tile of another: the tile is looked at
/// before the object moves.
pub proof fn lemma_move_keeps_apart(state: GameView, id: int, dx: int, dy: int)
    requires
        apart(state.objects),
        0 <= id < state.objects.len(),
    ensures
        apart(state.moved_by(id, dx, dy).objects),
{
    let moved = state.moved_by(id, dx, dy).objects;
    let x = state.objects[id].x + dx;
    let y = state.objects[id].y + dy;
    assert forall|i: int, j: int| 0 <= i < j < moved.len() && moved[i].blocks && moved[j].blocks implies !(
    moved[i].x == moved[j].x && moved[i].y == moved[j].y) by {
        if !state.blocked(x, y) {
            if i == id {
                assert(!blocks_at(state.objects[j], x, y));
            } else if j == id {
                assert(!blocks_at(state.objects[i], x, y));
            }
        }
    }
}

/// Where no experience is negative, the experience of the first objects is no more than
/// the experience of all.
pub proof fn lemma_xp_grows(objects: Seq<ObjectView>, upto: int)
    requires
        forall|k: int| 0 <= k < objects.len() ==> object_ok(#[trigger] objects[k]),
        0 <= upto <= objects.len(),
    ensures
        xp_total(objects.subrange(0, upto)) <= xp_total(objects),
    decreases objects.len() - upto,
{
    if upto == objects.len() {
        assert(objects.subrange(0, upto) =~= objects);
    } else {
        lemma_xp_grows(objects, upto + 1);
        let part = objects.subrange(0, upto + 1);
        assert(part.drop_last() =~= objects.subrange(0, upto));
        assert(part.last() == objects[upto]);
        assert(object_ok(objects[upto]));
    }
}

} // verus!
