//! New games and the way down to the next level.

use vstd::prelude::*;
use crate::color::{red, violet, white};
use crate::game::{
    apart, fighter_ok, object_ok, on_map, xp_total, GameState, GameView, Mouse, MSG_HEIGHT,
    PLAYER,
};
use crate::generator::{lemma_center_inside, room_fits};
use crate::map::{
    blocks_at, generate, generated, is_spawn, item_count_table, lemma_filled_by_room, lemma_marks_bounded,
    lemma_table_value_bounded, max_items, max_monsters, monster_count_table, Rect, Tile,
    MAP_HEIGHT, MAP_WIDTH,
};
use crate::message::{Line, Messages};
use crate::object::{
    lemma_views_update, views, DeathCallback, Fighter, Object, ObjectView,
};

verus! {

/// The log line that greets a new player.
pub open spec fn welcome_line() -> Line {
    ("Welcome stranger! Prepare to perish in the Tombs of the Ancient Kings."@, red())
}

/// The log line written when the player rests on the stairs.
pub open spec fn rest_line() -> Line {
    ("You take a moment to rest, and recover your strength."@, violet())
}

/// The log line written when the player goes down the stairs.
pub open spec fn descend_line() -> Line {
    ("After a rare moment of peace, you descend deeper into the heart of the dungeon..."@, red())
}

/// The player as a new game begins, before a place on the map is found for it.
pub open spec fn new_player() -> ObjectView {
    ObjectView {
        x: 0,
        y: 0,
        glyph: '@',
        color: white(),
        name: "player"@,
        blocks: true,
        alive: true,
        always_visible: false,
        level: 1,
        fighter: Some(
            Fighter { max_hp: 30, hp: 30, defense: 2, power: 5, xp: 0, on_death: DeathCallback::Player },
        ),
        ai: None,
        item: None,
        equippable: None,
    }
}

/// The state after the player has rested on the stairs, which restores half of its
/// greatest hit points, and has set out for the next level.
pub open spec fn rested(before: GameView) -> GameView {
    before.noted(rest_line()).with_object(
        0,
        before.objects[0].healed(
            match before.objects[0].fighter {
                Some(f) => f.max_hp as int / 2,
                None => 0,
            },
        ),
    ).noted(descend_line())
}

/// Whether `after` is a state that `before` leads to when the player goes down the
/// stairs: the player has rested, which restores half of its greatest hit points, the
/// dungeon level is one higher, and the map and the objects are a level generated at
/// that depth for the player. What the player carries and what the screen shows are
/// as before.
pub open spec fn descended(before: GameView, after: GameView) -> bool {
    &&& after == (GameView {
        objects: after.objects,
        map: after.map,
        dungeon_level: (before.dungeon_level + 1) as u32,
        ..rested(before)
    })
    &&& exists|rooms: Seq<Rect>, turns: Seq<bool>, marks: Seq<int>, middles: Seq<int>| #[trigger]
        generated(
            after.map,
            rooms,
            turns,
            marks,
            middles,
            rested(before).objects,
            after.objects,
            after.dungeon_level,
        )
}

/// The objects of a level that was generated for a sound player are sound.
pub proof fn lemma_generated_sound(
    map: Seq<Vec<Tile>>,
    rooms: Seq<Rect>,
    turns: Seq<bool>,
    marks: Seq<int>,
    middles: Seq<int>,
    before: Seq<ObjectView>,
    after: Seq<ObjectView>,
    level: u32,
)
    requires
        generated(map, rooms, turns, marks, middles, before, after, level),
        before[0].fighter matches Some(f) ==> fighter_ok(f),
    ensures
        forall|i: int| 0 <= i < after.len() ==> object_ok(#[trigger] after[i]),
{
    assert forall|i: int| 0 <= i < after.len() implies object_ok(#[trigger] after[i]) by {
        if i == 0 {
            assert(room_fits(rooms[0]));
            lemma_center_inside(rooms[0]);
        } else if i == after.len() - 1 {
            assert(room_fits(rooms[rooms.len() - 1]));
            lemma_center_inside(rooms[rooms.len() - 1]);
            assert(after[i] == after.last());
        } else {
            let r = lemma_filled_by_room(after, marks, middles, rooms, map, level, i);
            assert(room_fits(rooms[r]));
            assert(is_spawn(after[i], level));
        }
    }
}

/// In a level that was generated no two blocking objects stand on the same tile.
pub proof fn lemma_generated_apart(
    map: Seq<Vec<Tile>>,
    rooms: Seq<Rect>,
    turns: Seq<bool>,
    marks: Seq<int>,
    middles: Seq<int>,
    before: Seq<ObjectView>,
    after: Seq<ObjectView>,
    level: u32,
)
    requires
        generated(map, rooms, turns, marks, middles, before, after, level),
    ensures
        apart(after),
{
    assert forall|i: int, j: int| 0 <= i < j < after.len() && after[i].blocks && after[j].blocks implies !(
    after[i].x == after[j].x && after[i].y == after[j].y) by {
        if j == after.len() - 1 {
            assert(after[j] == after.last());
        } else {
            let r = lemma_filled_by_room(after, marks, middles, rooms, map, level, j);
            if after[i].x == after[j].x && after[i].y == after[j].y {
                assert(after.subrange(0, j)[i] == after[i]);
                assert(blocks_at(after.subrange(0, j)[i], after[j].x, after[j].y));
            }
        }
    }
}

impl GameState {
    /// A field of view in which nothing is seen.
    fn dark() -> (fov: Vec<Vec<bool>>)
        ensures
            fov@.len() == MAP_WIDTH,
            forall|x: int| 0 <= x < MAP_WIDTH ==> (#[trigger] fov@[x]).len() == MAP_HEIGHT,
            forall|x: int, y: int| on_map(x, y) ==> !(#[trigger] fov@[x][y]),
    {
        let mut fov: Vec<Vec<bool>> = Vec::new();
        let mut x: i32 = 0;
        while x < MAP_WIDTH
            invariant
                0 <= x <= MAP_WIDTH,
                fov@.len() == x,
                forall|cx: int| 0 <= cx < x ==> (#[trigger] fov@[cx]).len() == MAP_HEIGHT,
                forall|cx: int, cy: int| 0 <= cx < x && 0 <= cy < MAP_HEIGHT ==> !(#[trigger] fov@[cx][cy]),
            decreases MAP_WIDTH - x,
        {
            let mut column: Vec<bool> = Vec::new();
            let mut y: i32 = 0;
            while y < MAP_HEIGHT
                invariant
                    0 <= y <= MAP_HEIGHT,
                    column@.len() == y,
                    forall|cy: int| 0 <= cy < y ==> !(#[trigger] column@[cy]),
                decreases MAP_HEIGHT - y,
            {
                column.push(false);
                y = y + 1;
            }
            fov.push(column);
            x = x + 1;
        }
        fov
    }

    /// A new game: a player with 30 hit points on the first level of a dungeon that
    /// was generated for it, an empty inventory, and a greeting in the log. Nothing is
    /// seen before the field of view is computed.
    pub fn new() -> (state: GameState)
        ensures
            state.wf(),
            state@.xp_fits(),
            exists|rooms: Seq<Rect>, turns: Seq<bool>, marks: Seq<int>, middles: Seq<int>| #[trigger]
                generated(state@.map, rooms, turns, marks, middles, seq![new_player()], state@.objects, 1),
            apart(state@.objects),
            state@.log == seq![welcome_line()],
            state@.log_limit == MSG_HEIGHT,
            state@.inventory.len() == 0,
            state@.dungeon_level == 1,
            forall|x: int, y: int| !state@.in_fov(x, y),
            state@.camera_pos == (0i32, 0i32),
            state@.previous_player_pos == (-1i32, -1i32),
            state@.mouse == (Mouse { cx: 0, cy: 0, lbutton_pressed: false, rbutton_pressed: false }),
            !state@.disable_fov,
    {
        let mut player = Object::new(0, 0, '@', "player", white(), true);
        player.alive = true;
        player.fighter = Some(
            Fighter { max_hp: 30, hp: 30, defense: 2, power: 5, xp: 0, on_death: DeathCallback::Player },
        );
        let mut objects = vec![player];
        assert(views(objects@) =~= seq![new_player()]);
        let layout = generate(&mut objects, 1);
        let mut messages = Messages::new(MSG_HEIGHT);
        messages.message(
            String::from_str("Welcome stranger! Prepare to perish in the Tombs of the Ancient Kings."),
            red(),
        );
        let state = GameState {
            objects,
            map: layout.map,
            messages,
            inventory: Vec::new(),
            dungeon_level: 1,
            fov: GameState::dark(),
            camera_pos: (0, 0),
            previous_player_pos: (-1, -1),
            mouse: Mouse { cx: 0, cy: 0, lbutton_pressed: false, rbutton_pressed: false },
            disable_fov: false,
        };
        proof {
            let (marks, middles) = choose|marks: Seq<int>, middles: Seq<int>| #[trigger]
                generated(
                    layout.map@,
                    layout.rooms@,
                    layout.turns@,
                    marks,
                    middles,
                    seq![new_player()],
                    state@.objects,
                    1,
                );
            lemma_generated_sound(
                layout.map@,
                layout.rooms@,
                layout.turns@,
                marks,
                middles,
                seq![new_player()],
                state@.objects,
                1,
            );
            lemma_generated_apart(
                layout.map@,
                layout.rooms@,
                layout.turns@,
                marks,
                middles,
                seq![new_player()],
                state@.objects,
                1,
            );
            assert(state@.log =~= seq![welcome_line()]);
            assert(state@.inventory.len() == 0);
            lemma_new_level_xp(
                state@.map,
                layout.rooms@,
                layout.turns@,
                marks,
                middles,
                seq![new_player()],
                state@.objects,
                1,
            );
        }
        state
    }

    /// Advances to the next level: the player rests, which restores half of its
    /// greatest hit points, and goes down into a level generated one level deeper.
    pub fn next_level(&mut self)
        requires
            old(self).wf(),
            old(self).dungeon_level < u32::MAX,
        ensures
            final(self).wf(),
            descended(old(self)@, final(self)@),
    {
        assert(object_ok(self@.objects[0]));
        self.note("You take a moment to rest, and recover your strength.", violet());
        let heal_hp = match self.objects[PLAYER].fighter {
            Some(f) => f.max_hp / 2,
            None => 0,
        };
        let ghost before = self.objects@;
        self.objects[PLAYER].heal(heal_hp);
        proof {
            assert(self.objects@ =~= before.update(0, self.objects@[0]));
            lemma_views_update(before, 0, self.objects@[0]);
            assert forall|i: int| 0 <= i < self@.objects.len() implies object_ok(#[trigger] self@.objects[i]) by {
                assert(object_ok(old(self)@.objects[i]));
            }
        }
        self.note(
            "After a rare moment of peace, you descend deeper into the heart of the dungeon...",
            red(),
        );
        let ghost at_rest = self@;
        assert(at_rest == rested(old(self)@));
        self.dungeon_level = self.dungeon_level + 1;
        let layout = generate(&mut self.objects, self.dungeon_level);
        self.map = layout.map;
        proof {
            assert(object_ok(at_rest.objects[0]));
            let (marks, middles) = choose|marks: Seq<int>, middles: Seq<int>| #[trigger]
                generated(
                    layout.map@,
                    layout.rooms@,
                    layout.turns@,
                    marks,
                    middles,
                    at_rest.objects,
                    self@.objects,
                    self.dungeon_level,
                );
            lemma_generated_sound(
                layout.map@,
                layout.rooms@,
                layout.turns@,
                marks,
                middles,
                at_rest.objects,
                self@.objects,
                self.dungeon_level,
            );
            assert(generated(
                self@.map,
                layout.rooms@,
                layout.turns@,
                marks,
                middles,
                rested(old(self)@).objects,
                self@.objects,
                self@.dungeon_level,
            ));
        }
    }
}

/// The experience of the objects of a new level fits the number that holds
/// experience: no object of a new level is worth more than 100.
proof fn lemma_new_level_xp(
    map: Seq<Vec<Tile>>,
    rooms: Seq<Rect>,
    turns: Seq<bool>,
    marks: Seq<int>,
    middles: Seq<int>,
    before: Seq<ObjectView>,
    after: Seq<ObjectView>,
    level: u32,
)
    requires
        generated(map, rooms, turns, marks, middles, before, after, level),
        before[0] == new_player(),
    ensures
        xp_total(after) <= i32::MAX,
{
    lemma_table_value_bounded(monster_count_table(), level, 5);
    lemma_table_value_bounded(item_count_table(), level, 2);
    lemma_marks_bounded(after, marks, middles, rooms, map, level, rooms.len() as int - 1);
    assert(after.len() <= 2 + 29 * 7) by (nonlinear_arith)
        requires
            after.len() - 1 <= 1 + (rooms.len() - 1) * (max_monsters(level) + max_items(level)),
            1 <= rooms.len() <= 30,
            0 <= max_monsters(level) + max_items(level) <= 7,
    ;
    assert forall|i: int| 0 <= i < after.len() implies ((#[trigger] after[i]).fighter matches Some(f) ==> f.xp
        <= 100) by {
        if i == 0 {
        } else if i == after.len() - 1 {
            assert(after[i] == after.last());
        } else {
            let r = lemma_filled_by_room(after, marks, middles, rooms, map, level, i);
            assert(is_spawn(after[i], level));
        }
    }
    lemma_xp_at_most(after, after.len() as int);
    assert(after.subrange(0, after.len() as int) =~= after);
}

/// Where no object is worth more than 100 experience, the first `upto` objects are
/// together worth 100 times their number at most.
proof fn lemma_xp_at_most(after: Seq<ObjectView>, upto: int)
    requires
        0 <= upto <= after.len(),
        forall|i: int| 0 <= i < after.len() ==> ((#[trigger] after[i]).fighter matches Some(f) ==> f.xp <= 100),
    ensures
        xp_total(after.subrange(0, upto)) <= 100 * upto,
    decreases upto,
{
    if upto > 0 {
        lemma_xp_at_most(after, upto - 1);
        let part = after.subrange(0, upto);
        assert(part.drop_last() =~= after.subrange(0, upto - 1));
        assert(part.last() == after[upto - 1]);
    }
}

} // verus!
