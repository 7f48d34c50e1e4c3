//! The effects of potions and scrolls, and the choice of their targets.

use vstd::prelude::*;
use crate::color::{light_blue, light_cyan, light_green, light_violet, orange, red, Color};
use crate::game::{
    first_from, first_index, lemma_xp_grows, lemma_xp_pair, object_ok, xp_total, GameState,
    GameView, PLAYER,
};
use crate::map::{MAP_HEIGHT, MAP_WIDTH};
use crate::message::{logged, Line};
use crate::object::{
    distance_squared, lemma_damage_conserves, lemma_views_update, views, Ai, Fighter,
    ObjectView,
};
use crate::text::{decimal, decimal_text};

verus! {

pub const HEAL_AMOUNT: i32 = 4;

pub const LIGHTNING_DAMAGE: i32 = 20;

pub const LIGHTNING_RANGE: i32 = 5;

pub const CONFUSE_RANGE: i32 = 8;

pub const CONFUSE_NUM_TURNS: i32 = 10;

pub const FIREBALL_RADIUS: i32 = 3;

pub const FIREBALL_DAMAGE: i32 = 12;

/// What became of an item that was used.
#[derive(Clone, Copy, Debug, PartialEq, Eq, Structural)]
pub enum UseResult {
    /// The item did its work and is spent.
    UsedUp,
    /// Nothing happened and the item is kept.
    Cancelled,
}

/// What a look at the mouse says about the target that the player is choosing.
#[derive(Clone, Copy, Debug, PartialEq, Eq, Structural)]
pub enum Targeted {
    /// The player clicked the tile `(x, y)`.
    Chosen(i32, i32),
    /// The player gave up.
    Cancelled,
    /// Nothing was decided yet.
    Pending,
}

/// The log line written to a player who drinks a potion in full health.
pub open spec fn full_health_line() -> Line {
    ("You are already at full health."@, red())
}

/// The log line written when a potion heals.
pub open spec fn healing_line() -> Line {
    ("Your wounds start to feel better!"@, light_violet())
}

/// The log line written when lightning strikes the monster called `name`.
pub open spec fn lightning_line(name: Seq<char>) -> Line {
    (
        "A lightning bolt strikes the "@ + name + " with a loud thunder! The damage is "@ + decimal(
            LIGHTNING_DAMAGE as int,
        ) + " hit points."@,
        light_blue(),
    )
}

/// The log line written when lightning finds nothing to strike.
pub open spec fn no_enemy_line() -> Line {
    ("No enemy is close enough to strike."@, red())
}

/// The log line that asks the player to choose a monster to confuse.
pub open spec fn confuse_prompt_line() -> Line {
    ("Left-click an enemy to confuse it, or right-click to cancel."@, light_cyan())
}

/// The log line written when the monster called `name` is confused.
pub open spec fn confused_line(name: Seq<char>) -> Line {
    ("The eyes of "@ + name + " look vacant, as it starts to stumble around!"@, light_green())
}

/// The log line that asks the player to choose a tile for the fireball.
pub open spec fn fireball_prompt_line() -> Line {
    ("Left-click a target tile for the fireball, or right-click to cancel."@, light_cyan())
}

/// The log line written when the fireball goes off.
pub open spec fn explosion_line() -> Line {
    (
        "The fireball explodes, burning everything within "@ + decimal(FIREBALL_RADIUS as int)
            + " tiles!"@,
        orange(),
    )
}

/// The log line written when the fireball burns the object called `name`.
pub open spec fn burn_line(name: Seq<char>) -> Line {
    ("The "@ + name + " gets burned for "@ + decimal(FIREBALL_DAMAGE as int) + " hit points."@, orange())
}

/// Whether a distance whose square is `squared` is no more than `range`.
pub open spec fn within(squared: int, range: int) -> bool {
    range >= 0 && squared <= range * range
}

impl GameView {
    /// The state with one more line in the log.
    pub open spec fn noted(self, line: Line) -> GameView {
        GameView { log: logged(self.log, self.log_limit, line), ..self }
    }

    /// The state in which the player has `xp` more experience, if the player has a
    /// combat facet.
    pub open spec fn player_rewarded(self, xp: int) -> GameView {
        self.with_object(0, self.objects[0].rewarded(xp))
    }

    /// The state after object `id` takes `damage` that the player dealt: the player
    /// earns the experience of an object that dies of it.
    pub open spec fn struck(self, id: int, damage: int) -> GameView {
        let target = self.objects[id];
        let hit = GameView {
            objects: self.objects.update(id, target.after_damage(damage)),
            log: target.damage_logged(damage, self.log, self.log_limit),
            ..self
        };
        match target.reward_for(damage) {
            Some(xp) => hit.player_rewarded(xp),
            None => hit,
        }
    }

    /// Whether object `id` is an enemy that the player sees: it is not the player, it
    /// fights, it acts by itself, and it stands on a tile in the player's field of view.
    pub open spec fn visible_enemy(self, id: int) -> bool {
        &&& 0 < id < self.objects.len()
        &&& self.objects[id].fighter is Some
        &&& self.objects[id].ai is Some
        &&& self.in_fov(self.objects[id].x, self.objects[id].y)
    }

    /// Whether object `id` is a visible enemy no further than `max_range` from the player.
    pub open spec fn enemy_in_range(self, id: int, max_range: int) -> bool {
        &&& self.visible_enemy(id)
        &&& within(self.distance_squared(0, id), max_range)
    }

    /// Whether object `id` is the enemy in range that is closest to the player; of those
    /// that are equally close, it is the first.
    pub open spec fn is_closest(self, id: int, max_range: int) -> bool {
        &&& self.enemy_in_range(id, max_range)
        &&& forall|other: int| #[trigger]
            self.enemy_in_range(other, max_range) ==> {
                ||| self.distance_squared(0, id) < self.distance_squared(0, other)
                ||| self.distance_squared(0, id) == self.distance_squared(0, other) && id <= other
            }
    }

    /// The closest enemy in range, if there is an enemy in range.
    pub open spec fn closest_monster(self, max_range: int) -> Option<int> {
        if exists|id: int| self.is_closest(id, max_range) {
            Some(choose|id: int| self.is_closest(id, max_range))
        } else {
            None
        }
    }

    /// What a healing potion does for the player: nothing for a player without hit
    /// points to speak of or in full health; else it restores `HEAL_AMOUNT` hit points.
    pub open spec fn heal_cast(self) -> (GameView, UseResult) {
        match self.objects[0].fighter {
            None => (self, UseResult::Cancelled),
            Some(f) => if f.hp == f.max_hp {
                (self.noted(full_health_line()), UseResult::Cancelled)
            } else {
                (
                    self.noted(healing_line()).with_object(0, self.objects[0].healed(HEAL_AMOUNT as int)),
                    UseResult::UsedUp,
                )
            },
        }
    }

    /// Whether a scroll of lightning earns the player experience: an enemy is in range,
    /// and the bolt kills the closest.
    pub open spec fn lightning_rewards(self) -> bool {
        self.closest_monster(LIGHTNING_RANGE as int) matches Some(id) && self.objects[id].reward_for(
            LIGHTNING_DAMAGE as int,
        ) is Some
    }

    /// What a scroll of lightning does: it strikes the closest enemy in range for
    /// `LIGHTNING_DAMAGE`; with no enemy in range it only leaves a line in the log.
    pub open spec fn lightning_cast(self) -> (GameView, UseResult) {
        match self.closest_monster(LIGHTNING_RANGE as int) {
            Some(id) => (
                self.noted(lightning_line(self.objects[id].name)).struck(id, LIGHTNING_DAMAGE as int),
                UseResult::UsedUp,
            ),
            None => (self.noted(no_enemy_line()), UseResult::Cancelled),
        }
    }

    /// What a scroll of confusion does to the object that the player chose: the object
    /// is confused for `CONFUSE_NUM_TURNS` turns and remembers what it was before, which
    /// is a basic actor if it did not act by itself. With no object chosen, or one that
    /// does not exist, nothing happens.
    pub open spec fn confuse_cast(self, target: Option<usize>) -> (GameView, UseResult) {
        match target {
            Some(id) => if id < self.objects.len() {
                let monster = self.objects[id as int];
                let old_ai = match monster.ai {
                    Some(ai) => ai,
                    None => Ai::Basic,
                };
                (
                    self.with_object(
                        id as int,
                        ObjectView {
                            ai: Some(Ai::Confused { previous_ai: Box::new(old_ai), num_turns: CONFUSE_NUM_TURNS }),
                            ..monster
                        },
                    ).noted(confused_line(monster.name)),
                    UseResult::UsedUp,
                )
            } else {
                (self, UseResult::Cancelled)
            },
            None => (self, UseResult::Cancelled),
        }
    }

    /// Whether a fireball that goes off at `(x, y)` burns object `id`: the object fights
    /// and is no further than `FIREBALL_RADIUS` from the tile.
    pub open spec fn burns(self, id: int, x: int, y: int) -> bool {
        &&& self.objects[id].fighter is Some
        &&& within(distance_squared(self.objects[id].x, self.objects[id].y, x, y), FIREBALL_RADIUS as int)
    }

    /// The log after a fireball at `(x, y)` has reached the first `upto` objects: for
    /// each object that burns, a line that says so and, if it dies, the line of its death.
    pub open spec fn fire_log(self, x: int, y: int, upto: int) -> Seq<Line>
        decreases upto,
    {
        if upto <= 0 {
            self.log
        } else {
            let log = self.fire_log(x, y, upto - 1);
            let object = self.objects[upto - 1];
            if self.burns(upto - 1, x, y) {
                object.damage_logged(
                    FIREBALL_DAMAGE as int,
                    logged(log, self.log_limit, burn_line(object.name)),
                    self.log_limit,
                )
            } else {
                log
            }
        }
    }

    /// The experience that the player earns from those of the first `upto` objects that
    /// die in a fireball at `(x, y)`. The player earns nothing for burning itself.
    pub open spec fn fire_reward(self, x: int, y: int, upto: int) -> int
        decreases upto,
    {
        if upto <= 0 {
            0
        } else {
            self.fire_reward(x, y, upto - 1) + (if upto - 1 != 0 && self.burns(upto - 1, x, y) {
                match self.objects[upto - 1].reward_for(FIREBALL_DAMAGE as int) {
                    Some(xp) => xp,
                    None => 0,
                }
            } else {
                0
            })
        }
    }

    /// The state after a fireball at `(x, y)` has reached the first `upto` objects: each
    /// of them that burns has taken `FIREBALL_DAMAGE`.
    pub open spec fn scorched(self, x: int, y: int, upto: int) -> GameView {
        GameView {
            objects: Seq::new(
                self.objects.len(),
                |i: int|
                    if i < upto && self.burns(i, x, y) {
                        self.objects[i].after_damage(FIREBALL_DAMAGE as int)
                    } else {
                        self.objects[i]
                    },
            ),
            log: self.fire_log(x, y, upto),
            ..self
        }
    }

    /// What a scroll of fireball does at the tile that the player chose: every object
    /// that fights within `FIREBALL_RADIUS` of the tile, the player included, takes
    /// `FIREBALL_DAMAGE`, and the player earns the experience of the others that die.
    /// With no tile chosen nothing happens.
    pub open spec fn fireball_cast(self, target: Option<(i32, i32)>) -> (GameView, UseResult) {
        match target {
            None => (self, UseResult::Cancelled),
            Some((x, y)) => {
                let lit = self.noted(explosion_line());
                let n = self.objects.len() as int;
                (
                    lit.scorched(x as int, y as int, n).player_rewarded(lit.fire_reward(x as int, y as int, n)),
                    UseResult::UsedUp,
                )
            },
        }
    }

    /// The first object other than the player that fights and stands on `(x, y)`.
    pub open spec fn monster_at(self, x: int, y: int) -> Option<int> {
        first_index(self.objects, |i: int, o: ObjectView| o.x == x && o.y == y && o.fighter is Some && i != 0)
    }

    /// The tile of the map that the mouse points at.
    pub open spec fn mouse_tile(self) -> (int, int) {
        (self.mouse.cx + self.camera_pos.0, self.mouse.cy + self.camera_pos.1)
    }

    /// What the mouse says about the tile that the player is choosing, no further than
    /// `max_range` from the player if a range is given. A left click on a tile in view
    /// and in range chooses it; failing that, a right click or the escape key gives up.
    pub open spec fn tile_targeted(self, max_range: Option<i32>, escape: bool) -> Targeted {
        let (x, y) = self.mouse_tile();
        let in_range = match max_range {
            Some(range) => within(distance_squared(self.objects[0].x, self.objects[0].y, x, y), range as int),
            None => true,
        };
        if self.mouse.lbutton_pressed && self.in_fov(x, y) && in_range {
            Targeted::Chosen(x as i32, y as i32)
        } else if self.mouse.rbutton_pressed || escape {
            Targeted::Cancelled
        } else {
            Targeted::Pending
        }
    }
}

/// The experience that a fireball earns the player, together with the player's own, is
/// no more than the experience of the objects that it has reached.
pub proof fn lemma_fire_reward_bounded(state: GameView, x: int, y: int, upto: int)
    requires
        forall|k: int| 0 <= k < state.objects.len() ==> object_ok(#[trigger] state.objects[k]),
        0 <= upto <= state.objects.len(),
    ensures
        0 <= state.fire_reward(x, y, upto),
        state.fire_reward(x, y, upto) + (if upto > 0 {
            match state.objects[0].fighter {
                Some(f) => f.xp as int,
                None => 0,
            }
        } else {
            0
        }) <= xp_total(state.objects.subrange(0, upto)),
    decreases upto,
{
    if upto > 0 {
        lemma_fire_reward_bounded(state, x, y, upto - 1);
        let part = state.objects.subrange(0, upto);
        assert(part.drop_last() =~= state.objects.subrange(0, upto - 1));
        assert(part.last() == state.objects[upto - 1]);
        assert(object_ok(state.objects[upto - 1]));
    }
}

/// At most one object is the closest enemy in range.
pub proof fn lemma_closest_unique(state: GameView, a: int, b: int, max_range: int)
    requires
        state.is_closest(a, max_range),
        state.is_closest(b, max_range),
    ensures
        a == b,
{
    assert(state.enemy_in_range(a, max_range));
    assert(state.enemy_in_range(b, max_range));
}

impl GameState {
    /// Writes a line to the log.
    pub fn note(&mut self, text: &str, color: Color)
        requires
            old(self).wf(),
        ensures
            final(self).wf(),
            final(self)@ == old(self)@.noted((text@, color)),
    {
        self.messages.message(String::from_str(text), color);
    }

    /// Gives the player `xp` more experience, if the player has a combat facet.
    pub fn reward_player(&mut self, xp: i32)
        requires
            old(self).wf(),
            xp >= 0,
            old(self)@.objects[0].fighter matches Some(f) ==> f.xp + xp <= i32::MAX,
        ensures
            final(self).wf(),
            final(self)@ == old(self)@.player_rewarded(xp as int),
    {
        assert(object_ok(self@.objects[0]));
        match self.objects[PLAYER].fighter {
            Some(f) => {
                self.objects[PLAYER].fighter = Some(Fighter { xp: f.xp + xp, ..f });
            },
            None => {},
        }
        proof {
            assert(self.objects@ =~= old(self).objects@.update(0, self.objects@[0]));
            lemma_views_update(old(self).objects@, 0, self.objects@[0]);
            assert(self@.objects =~= old(self)@.player_rewarded(xp as int).objects);
            assert forall|i: int| 0 <= i < self@.objects.len() implies object_ok(#[trigger] self@.objects[i]) by {
                assert(object_ok(old(self)@.objects[i]));
            }
        }
    }

    /// Deals `damage` from the player's hand to object `id`, which is not the player.
    /// The player earns the experience of an object that dies of it.
    pub fn strike(&mut self, id: usize, damage: i32)
        requires
            old(self).wf(),
            old(self)@.objects[id as int].reward_for(damage as int) is Some ==> old(self)@.xp_fits(),
            0 < id < old(self).objects@.len(),
        ensures
            final(self).wf(),
            final(self)@ == old(self)@.struck(id as int, damage as int),
    {
        let ghost before = self.objects@;
        proof {
            lemma_xp_pair(self@.objects, 0, id as int);
            assert(object_ok(self@.objects[id as int]));
            assert(object_ok(self@.objects[0]));
            lemma_damage_conserves(self@.objects[id as int], damage as int);
        }
        let reward = self.objects[id].take_damage(damage, &mut self.messages);
        proof {
            assert(self.objects@ =~= before.update(id as int, self.objects@[id as int]));
            lemma_views_update(before, id as int, self.objects@[id as int]);
            assert forall|i: int| 0 <= i < self@.objects.len() implies object_ok(#[trigger] self@.objects[i]) by {
                assert(object_ok(old(self)@.objects[i]));
            }
        }
        match reward {
            Some(xp) => {
                self.reward_player(xp);
            },
            None => {},
        }
    }

    /// Finds the closest enemy in the player's field of view that is no further than
    /// `max_range` from the player.
    pub fn closest_monster(&self, max_range: i32) -> (found: Option<usize>)
        requires
            self.wf(),
        ensures
            match found {
                Some(id) => self@.closest_monster(max_range as int) == Some(id as int),
                None => self@.closest_monster(max_range as int) is None,
            },
            found matches Some(id) ==> 0 < id < self.objects@.len(),
    {
        if max_range < 0 {
            assert forall|c: int| !self@.is_closest(c, max_range as int) by {
                if self@.is_closest(c, max_range as int) {
                    assert(self@.enemy_in_range(c, max_range as int));
                }
            }
            return None;
        }
        let range: i128 = max_range as i128;
        assert(0 <= range * range <= 0x1_0000_0000_0000_0000) by (nonlinear_arith)
            requires
                0 <= range <= 0x1_0000_0000,
        ;
        let bound: i128 = range * range;
        let mut closest_enemy: Option<usize> = None;
        let mut closest_dist: i128 = bound;
        let mut id: usize = 0;
        while id < self.objects.len()
            invariant
                self.wf(),
                id <= self.objects@.len(),
                max_range >= 0,
                bound == max_range * max_range,
                closest_enemy is None ==> closest_dist == bound && forall|other: int|
                    0 <= other < id ==> !#[trigger] self@.enemy_in_range(other, max_range as int),
                closest_enemy matches Some(best) ==> {
                    &&& best < id
                    &&& self@.enemy_in_range(best as int, max_range as int)
                    &&& closest_dist == self@.distance_squared(0, best as int)
                    &&& forall|other: int|
                        0 <= other < id && #[trigger] self@.enemy_in_range(other, max_range as int) ==> {
                            ||| closest_dist < self@.distance_squared(0, other)
                            ||| closest_dist == self@.distance_squared(0, other) && best <= other
                        }
                },
            decreases self.objects@.len() - id,
        {
            let object = &self.objects[id];
            assert(object_ok(self@.objects[id as int]));
            if id != PLAYER && object.fighter.is_some() && object.ai.is_some() && self.is_in_fov(
                object.x,
                object.y,
            ) {
                let dist = self.objects[PLAYER].distance_squared_to(object);
                let closer = match closest_enemy {
                    Some(_) => dist < closest_dist,
                    None => dist <= bound,
                };
                if closer {
                    closest_enemy = Some(id);
                    closest_dist = dist;
                }
            }
            id = id + 1;
        }
        proof {
            match closest_enemy {
                Some(best) => {
                    assert(self@.is_closest(best as int, max_range as int));
                    let chosen = choose|c: int| self@.is_closest(c, max_range as int);
                    lemma_closest_unique(self@, best as int, chosen, max_range as int);
                },
                None => {
                    assert forall|c: int| !self@.is_closest(c, max_range as int) by {
                        if self@.is_closest(c, max_range as int) {
                            assert(self@.enemy_in_range(c, max_range as int));
                        }
                    }
                },
            }
        }
        closest_enemy
    }

    /// Drinks a healing potion.
    pub fn cast_heal(&mut self) -> (result: UseResult)
        requires
            old(self).wf(),
        ensures
            final(self).wf(),
            final(self)@ == old(self)@.heal_cast().0,
            result == old(self)@.heal_cast().1,
    {
        assert(object_ok(self@.objects[0]));
        match self.objects[PLAYER].fighter {
            Some(fighter) => {
                if fighter.hp == fighter.max_hp {
                    self.note("You are already at full health.", red());
                    return UseResult::Cancelled;
                }
                self.note("Your wounds start to feel better!", light_violet());
                let ghost before = self.objects@;
                self.objects[PLAYER].heal(HEAL_AMOUNT);
                proof {
                    assert(self.objects@ =~= before.update(0, self.objects@[0]));
                    lemma_views_update(before, 0, self.objects@[0]);
                    assert forall|i: int| 0 <= i < self@.objects.len() implies object_ok(
                        #[trigger] self@.objects[i],
                    ) by {
                        assert(object_ok(old(self)@.objects[i]));
                    }
                }
                UseResult::UsedUp
            },
            None => UseResult::Cancelled,
        }
    }

    /// Reads a scroll of lightning: finds the closest enemy inside the range and damages it.
    pub fn cast_lightning(&mut self) -> (result: UseResult)
        requires
            old(self).wf(),
            old(self)@.lightning_rewards() ==> old(self)@.xp_fits(),
        ensures
            final(self).wf(),
            final(self)@ == old(self)@.lightning_cast().0,
            result == old(self)@.lightning_cast().1,
    {
        match self.closest_monster(LIGHTNING_RANGE) {
            Some(monster_id) => {
                let mut text = String::from_str("A lightning bolt strikes the ");
                text.append(self.objects[monster_id].name.as_str());
                text.append(" with a loud thunder! The damage is ");
                let damage_text = decimal_text(LIGHTNING_DAMAGE);
                text.append(damage_text.as_str());
                text.append(" hit points.");
                self.messages.message(text, light_blue());
                self.strike(monster_id, LIGHTNING_DAMAGE);
                UseResult::UsedUp
            },
            None => {
                self.note("No enemy is close enough to strike.", red());
                UseResult::Cancelled
            },
        }
    }

    /// Reads a scroll of confusion at the object that the player chose, if any.
    pub fn cast_confuse(&mut self, target: Option<usize>) -> (result: UseResult)
        requires
            old(self).wf(),
        ensures
            final(self).wf(),
            final(self)@ == old(self)@.confuse_cast(target).0,
            result == old(self)@.confuse_cast(target).1,
    {
        match target {
            Some(monster_id) => {
                if monster_id >= self.objects.len() {
                    return UseResult::Cancelled;
                }
                let ghost before = self.objects@;
                let old_ai = match self.objects[monster_id].ai.take() {
                    Some(ai) => ai,
                    None => Ai::Basic,
                };
                self.objects[monster_id].ai = Some(
                    Ai::Confused { previous_ai: Box::new(old_ai), num_turns: CONFUSE_NUM_TURNS },
                );
                proof {
                    assert(self.objects@ =~= before.update(monster_id as int, self.objects@[monster_id as int]));
                    lemma_views_update(before, monster_id as int, self.objects@[monster_id as int]);
                    assert forall|i: int| 0 <= i < self@.objects.len() implies object_ok(
                        #[trigger] self@.objects[i],
                    ) by {
                        assert(object_ok(old(self)@.objects[i]));
                    }
                }
                let mut text = String::from_str("The eyes of ");
                text.append(self.objects[monster_id].name.as_str());
                text.append(" look vacant, as it starts to stumble around!");
                self.messages.message(text, light_green());
                UseResult::UsedUp
            },
            None => UseResult::Cancelled,
        }
    }

    /// The first monster on the tile `(x, y)`: an object that fights and is not the player.
    pub fn target_monster(&self, x: i32, y: i32) -> (found: Option<usize>)
        ensures
            match found {
                Some(id) => self@.monster_at(x as int, y as int) == Some(id as int),
                None => self@.monster_at(x as int, y as int) is None,
            },
            found matches Some(id) ==> 0 < id < self.objects@.len(),
    {
        let ghost wanted = |i: int, o: ObjectView| o.x == x as int && o.y == y as int && o.fighter is Some && i != 0;
        let mut id: usize = 0;
        while id < self.objects.len()
            invariant
                id <= self.objects@.len(),
                wanted == (|i: int, o: ObjectView|
                    o.x == x as int && o.y == y as int && o.fighter is Some && i != 0),
                first_from(self@.objects, wanted, 0) == first_from(self@.objects, wanted, id as int),
            decreases self.objects@.len() - id,
        {
            if self.objects[id].x == x && self.objects[id].y == y && self.objects[id].fighter.is_some() && id
                != PLAYER {
                assert(wanted(id as int, self@.objects[id as int]));
                return Some(id);
            }
            assert(!wanted(id as int, self@.objects[id as int]));
            id = id + 1;
        }
        None
    }

    /// Looks at the mouse while the player chooses a tile: a left click on a tile in the
    /// field of view, and in range of the player if a range is given, chooses that tile;
    /// failing that, a right click or the escape key gives up.
    pub fn target_tile(&self, max_range: Option<i32>, escape: bool) -> (targeted: Targeted)
        requires
            self.wf(),
        ensures
            targeted == self@.tile_targeted(max_range, escape),
    {
        assert(object_ok(self@.objects[0]));
        let x: i64 = self.mouse.cx as i64 + self.camera_pos.0 as i64;
        let y: i64 = self.mouse.cy as i64 + self.camera_pos.1 as i64;
        if self.mouse.lbutton_pressed && 0 <= x && x < MAP_WIDTH as i64 && 0 <= y && y < MAP_HEIGHT as i64 {
            let tile_x = x as i32;
            let tile_y = y as i32;
            let in_range = match max_range {
                Some(range) => {
                    let r: i128 = range as i128;
                    assert(r * r <= 0x1_0000_0000_0000_0000) by (nonlinear_arith)
                        requires
                            -0x1_0000_0000 <= r <= 0x1_0000_0000,
                    ;
                    range >= 0 && self.objects[PLAYER].distance_squared(tile_x, tile_y) <= r * r
                },
                None => true,
            };
            if self.is_in_fov(tile_x, tile_y) && in_range {
                return Targeted::Chosen(tile_x, tile_y);
            }
        }
        if self.mouse.rbutton_pressed || escape {
            Targeted::Cancelled
        } else {
            Targeted::Pending
        }
    }

    /// Reads a scroll of fireball at the tile that the player chose, if any.
    pub fn cast_fireball(&mut self, target: Option<(i32, i32)>) -> (result: UseResult)
        requires
            old(self).wf(),
            target is Some ==> old(self)@.xp_fits(),
        ensures
            final(self).wf(),
            final(self)@ == old(self)@.fireball_cast(target).0,
            result == old(self)@.fireball_cast(target).1,
    {
        let (x, y) = match target {
            Some(tile_pos) => tile_pos,
            None => {
                return UseResult::Cancelled;
            },
        };
        let mut text = String::from_str("The fireball explodes, burning everything within ");
        let radius_text = decimal_text(FIREBALL_RADIUS);
        text.append(radius_text.as_str());
        text.append(" tiles!");
        self.messages.message(text, orange());
        let ghost lit = self@;
        let ghost start = self.objects@;
        let mut xp_to_gain: i32 = 0;
        let mut id: usize = 0;
        assert(self@.objects =~= lit.scorched(x as int, y as int, 0).objects);
        while id < self.objects.len()
            invariant
                lit.wf(),
                lit.xp_fits(),
                lit.objects == views(start),
                self.objects@.len() == start.len(),
                forall|k: int| id <= k < start.len() ==> self.objects@[k] == start[k],
                id <= start.len(),
                self@ == lit.scorched(x as int, y as int, id as int),
                self.messages.wf(),
                xp_to_gain == lit.fire_reward(x as int, y as int, id as int),
            decreases start.len() - id,
        {
            proof {
                lemma_fire_reward_bounded(lit, x as int, y as int, id as int);
                lemma_fire_reward_bounded(lit, x as int, y as int, id as int + 1);
                lemma_xp_grows(lit.objects, id as int + 1);
                assert(object_ok(lit.objects[id as int]));
                assert(lit.objects[id as int] == start[id as int]@);
            }
            let ghost before = self.objects@;
            let ghost log_before = self.messages@;
            let r: i128 = FIREBALL_RADIUS as i128;
            if self.objects[id].distance_squared(x, y) <= r * r && self.objects[id].fighter.is_some() {
                let mut text = String::from_str("The ");
                text.append(self.objects[id].name.as_str());
                text.append(" gets burned for ");
                let damage_text = decimal_text(FIREBALL_DAMAGE);
                text.append(damage_text.as_str());
                text.append(" hit points.");
                self.messages.message(text, orange());
                match self.objects[id].take_damage(FIREBALL_DAMAGE, &mut self.messages) {
                    Some(xp) => {
                        if id != PLAYER {
                            xp_to_gain = xp_to_gain + xp;
                        }
                    },
                    None => {},
                }
                assert(lit.burns(id as int, x as int, y as int));
            } else {
                assert(!lit.burns(id as int, x as int, y as int));
            }
            proof {
                assert(self.objects@ =~= before.update(id as int, self.objects@[id as int]));
                lemma_views_update(before, id as int, self.objects@[id as int]);
                assert(self@.objects =~= lit.scorched(x as int, y as int, id as int + 1).objects);
                assert(self@.log == lit.fire_log(x as int, y as int, id as int + 1));
            }
            id = id + 1;
        }
        proof {
            lemma_fire_reward_bounded(lit, x as int, y as int, start.len() as int);
            assert(lit.objects.subrange(0, start.len() as int) =~= lit.objects);
            assert(object_ok(lit.objects[0]));
            assert forall|i: int| 0 <= i < self@.objects.len() implies object_ok(#[trigger] self@.objects[i]) by {
                assert(object_ok(lit.objects[i]));
                lemma_damage_conserves(lit.objects[i], FIREBALL_DAMAGE as int);
            }
        }
        self.reward_player(xp_to_gain);
        UseResult::UsedUp
    }
}

} // verus!
