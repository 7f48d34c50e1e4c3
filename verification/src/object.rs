//! Objects and their facets, and the arithmetic of combat.

use vstd::prelude::*;
use crate::color::{dark_red, orange, red, white, Color};
use crate::equipment::Equippable;
use crate::message::{logged, Line, Messages};
use crate::text::{decimal, decimal_text};

verus! {

/// What happens to an actor whose hit points are spent.
#[derive(Clone, Copy, Debug, PartialEq, Eq, Structural)]
pub enum DeathCallback {
    Player,
    Monster,
}

/// The combat facet of an actor.
#[derive(Clone, Copy, Debug, PartialEq, Eq, Structural)]
pub struct Fighter {
    pub max_hp: i32,
    pub hp: i32,
    pub defense: i32,
    pub power: i32,
    pub xp: i32,
    pub on_death: DeathCallback,
}

/// The decision state of an actor that acts by itself.
#[derive(Debug, PartialEq)]
pub enum Ai {
    Basic,
    Confused { previous_ai: Box<Ai>, num_turns: i32 },
}

impl Clone for Ai {
    fn clone(&self) -> (copy: Ai)
        ensures
            copy == *self,
        decreases self,
    {
        match self {
            Ai::Basic => Ai::Basic,
            Ai::Confused { previous_ai, num_turns } => {
                let inner: Ai = (**previous_ai).clone();
                Ai::Confused { previous_ai: Box::new(inner), num_turns: *num_turns }
            },
        }
    }
}

/// The effect that using an item invokes.
#[derive(Clone, Copy, Debug, PartialEq, Eq, Structural)]
pub enum Item {
    Heal,
    Lightning,
    Confuse,
    Fireball,
    Equipment,
}

/// Anything that stands on the map: the player, a monster, an item, the stairs.
#[derive(Debug)]
pub struct Object {
    pub x: i32,
    pub y: i32,
    pub glyph: char,
    pub color: Color,
    pub name: String,
    pub blocks: bool,
    pub alive: bool,
    pub always_visible: bool,
    pub level: i32,
    pub fighter: Option<Fighter>,
    pub ai: Option<Ai>,
    pub item: Option<Item>,
    pub equippable: Option<Equippable>,
}

/// An object as a mathematical value: its name is a sequence of characters and its
/// coordinates are integers.
pub struct ObjectView {
    pub x: int,
    pub y: int,
    pub glyph: char,
    pub color: Color,
    pub name: Seq<char>,
    pub blocks: bool,
    pub alive: bool,
    pub always_visible: bool,
    pub level: int,
    pub fighter: Option<Fighter>,
    pub ai: Option<Ai>,
    pub item: Option<Item>,
    pub equippable: Option<Equippable>,
}

impl View for Object {
    type V = ObjectView;

    open spec fn view(&self) -> ObjectView {
        ObjectView {
            x: self.x as int,
            y: self.y as int,
            glyph: self.glyph,
            color: self.color,
            name: self.name@,
            blocks: self.blocks,
            alive: self.alive,
            always_visible: self.always_visible,
            level: self.level as int,
            fighter: self.fighter,
            ai: self.ai,
            item: self.item,
            equippable: self.equippable,
        }
    }
}

/// The views of a sequence of objects, in order.
pub open spec fn views(objects: Seq<Object>) -> Seq<ObjectView> {
    Seq::new(objects.len(), |i: int| objects[i]@)
}

/// The views of a list with one more object are the views of the list with the view of
/// that object.
pub proof fn lemma_views_push(objects: Seq<Object>, object: Object)
    ensures
        views(objects.push(object)) == views(objects).push(object@),
{
    assert(views(objects.push(object)) =~= views(objects).push(object@));
}

/// The views of a part of a list are that part of the views of the list.
pub proof fn lemma_views_subrange(objects: Seq<Object>, from: int, to: int)
    requires
        0 <= from <= to <= objects.len(),
    ensures
        views(objects.subrange(from, to)) == views(objects).subrange(from, to),
{
    assert(views(objects.subrange(from, to)) =~= views(objects).subrange(from, to));
}

/// The views of a list in which one object was replaced are the views of the list with
/// the view of that object replaced.
pub proof fn lemma_views_update(objects: Seq<Object>, index: int, object: Object)
    requires
        0 <= index < objects.len(),
    ensures
        views(objects.update(index, object)) == views(objects).update(index, object@),
{
    assert(views(objects.update(index, object)) =~= views(objects).update(index, object@));
}

/// The squared Euclidean distance between two grid positions.
pub open spec fn distance_squared(x1: int, y1: int, x2: int, y2: int) -> int {
    (x2 - x1) * (x2 - x1) + (y2 - y1) * (y2 - y1)
}

/// The log line written when a player dies.
pub open spec fn player_death_line() -> Line {
    ("You died!"@, red())
}

/// The log line written when the monster called `name`, worth `xp`, dies.
pub open spec fn monster_death_line(name: Seq<char>, xp: int) -> Line {
    (name + " is dead! You gain "@ + decimal(xp) + " experience points."@, orange())
}

/// The name a monster's corpse goes by.
pub open spec fn corpse_name(name: Seq<char>) -> Seq<char> {
    "remains of "@ + name
}

/// The log line written when an attack lands.
pub open spec fn hit_line(attacker: Seq<char>, target: Seq<char>, damage: int) -> Line {
    (attacker + " attacks "@ + target + " for "@ + decimal(damage) + " hit points."@, white())
}

/// The log line written when an attack does no damage.
pub open spec fn miss_line(attacker: Seq<char>, target: Seq<char>) -> Line {
    (attacker + " attacks "@ + target + " but it has no effect!"@, white())
}

impl Fighter {
    /// The hit points left after `damage` is dealt: damage that is not positive changes
    /// nothing, and hit points never fall below zero through damage.
    pub open spec fn hp_after(self, damage: int) -> int {
        if damage <= 0 {
            self.hp as int
        } else if self.hp - damage < 0 {
            0
        } else {
            self.hp - damage
        }
    }

    /// The hit points after healing by `amount`, never more than the maximum.
    pub open spec fn hp_healed(self, amount: int) -> int {
        if self.hp + amount > self.max_hp {
            self.max_hp as int
        } else {
            self.hp + amount
        }
    }
}

impl ObjectView {
    /// Whether `damage` spends the last hit points of this object.
    pub open spec fn killed_by(self, damage: int) -> bool {
        self.fighter matches Some(f) && f.hp_after(damage) <= 0
    }

    /// The corpse this object becomes when it dies.
    pub open spec fn corpse(self) -> ObjectView
        recommends
            self.fighter is Some,
    {
        match self.fighter->0.on_death {
            DeathCallback::Player => ObjectView {
                alive: false,
                glyph: '%',
                color: dark_red(),
                fighter: Some(Fighter { hp: 0, ..self.fighter->0 }),
                ..self
            },
            DeathCallback::Monster => ObjectView {
                alive: false,
                glyph: '%',
                color: dark_red(),
                blocks: false,
                fighter: None,
                ai: None,
                name: corpse_name(self.name),
                ..self
            },
        }
    }

    /// The log line that announces this object's death.
    pub open spec fn death_line(self) -> Line
        recommends
            self.fighter is Some,
    {
        match self.fighter->0.on_death {
            DeathCallback::Player => player_death_line(),
            DeathCallback::Monster => monster_death_line(self.name, self.fighter->0.xp as int),
        }
    }

    /// This object after it takes `damage`.
    pub open spec fn after_damage(self, damage: int) -> ObjectView {
        match self.fighter {
            None => self,
            Some(f) => if self.killed_by(damage) {
                self.corpse()
            } else {
                ObjectView { fighter: Some(Fighter { hp: f.hp_after(damage) as i32, ..f }), ..self }
            },
        }
    }

    /// The experience that whoever deals `damage` to this object earns: the object's
    /// experience value if the damage kills it, nothing otherwise.
    pub open spec fn reward_for(self, damage: int) -> Option<int> {
        if self.killed_by(damage) {
            Some(self.fighter->0.xp as int)
        } else {
            None
        }
    }

    /// The log after this object takes `damage`.
    pub open spec fn damage_logged(self, damage: int, log: Seq<Line>, limit: nat) -> Seq<Line> {
        if self.killed_by(damage) {
            logged(log, limit, self.death_line())
        } else {
            log
        }
    }

    /// The damage an attack of this object does to `target`: the attacker's power less
    /// the target's defense, each taken as zero where the combat facet is missing.
    pub open spec fn damage_to(self, target: ObjectView) -> int {
        let power = match self.fighter {
            Some(f) => f.power as int,
            None => 0,
        };
        let defense = match target.fighter {
            Some(f) => f.defense as int,
            None => 0,
        };
        power - defense
    }

    /// This object with `xp` more experience, if it has a combat facet.
    pub open spec fn rewarded(self, xp: int) -> ObjectView {
        match self.fighter {
            Some(f) => ObjectView { fighter: Some(Fighter { xp: (f.xp + xp) as i32, ..f }), ..self },
            None => self,
        }
    }

    /// The experience this object earns by attacking `target`: the target's experience
    /// value if the attack does damage and kills.
    pub open spec fn attack_reward(self, target: ObjectView) -> Option<int> {
        if self.damage_to(target) > 0 {
            target.reward_for(self.damage_to(target))
        } else {
            None
        }
    }

    /// The target after this object attacks it.
    pub open spec fn after_attack_of(self, attacker: ObjectView) -> ObjectView {
        if attacker.damage_to(self) > 0 {
            self.after_damage(attacker.damage_to(self))
        } else {
            self
        }
    }

    /// The attacker after it attacks `target`.
    pub open spec fn after_attacking(self, target: ObjectView) -> ObjectView {
        match self.attack_reward(target) {
            Some(xp) => self.rewarded(xp),
            None => self,
        }
    }

    /// The log after this object attacks `target`.
    pub open spec fn attack_logged(self, target: ObjectView, log: Seq<Line>, limit: nat) -> Seq<Line> {
        let damage = self.damage_to(target);
        if damage > 0 {
            target.damage_logged(damage, logged(log, limit, hit_line(self.name, target.name, damage)), limit)
        } else {
            logged(log, limit, miss_line(self.name, target.name))
        }
    }

    /// This object after it is healed by `amount`.
    pub open spec fn healed(self, amount: int) -> ObjectView {
        match self.fighter {
            Some(f) => ObjectView { fighter: Some(Fighter { hp: f.hp_healed(amount) as i32, ..f }), ..self },
            None => self,
        }
    }
}

/// Taking damage leaves hit points at zero or above, leaves an object with no hit points
/// dead, and never raises hit points or brings the dead back.
pub proof fn lemma_damage_conserves(target: ObjectView, damage: int)
    ensures
        target.after_damage(damage).fighter matches Some(after) ==> {
            &&& after.hp >= 0
            &&& after.hp == 0 ==> !target.after_damage(damage).alive
            &&& target.fighter matches Some(before) && (before.hp >= 0 ==> after.hp <= before.hp)
        },
        !target.alive ==> !target.after_damage(damage).alive,
        target.alive && !target.after_damage(damage).alive ==> target.killed_by(damage),
{
}

/// An attack never drives the defender's hit points below zero. A defender whose hit
/// points are zero after the attack is dead, and the dead stay dead.
pub proof fn lemma_attack_conserves(attacker: ObjectView, target: ObjectView)
    requires
        target.fighter matches Some(before) ==> before.hp >= 0 && (before.hp == 0 ==> !target.alive),
    ensures
        target.after_attack_of(attacker).fighter matches Some(after) ==> {
            &&& after.hp >= 0
            &&& after.hp == 0 ==> !target.after_attack_of(attacker).alive
        },
        !target.alive ==> !target.after_attack_of(attacker).alive,
        target.alive && !target.after_attack_of(attacker).alive ==> {
            &&& attacker.attack_reward(target) is Some
            &&& target.killed_by(attacker.damage_to(target))
        },
{
    lemma_damage_conserves(target, attacker.damage_to(target));
}

impl Clone for Object {
    fn clone(&self) -> (copy: Object)
        ensures
            copy@ == self@,
    {
        Object {
            x: self.x,
            y: self.y,
            glyph: self.glyph,
            color: self.color,
            name: self.name.clone(),
            blocks: self.blocks,
            alive: self.alive,
            always_visible: self.always_visible,
            level: self.level,
            fighter: self.fighter,
            ai: match &self.ai {
                Some(ai) => Some(ai.clone()),
                None => None,
            },
            item: self.item,
            equippable: self.equippable,
        }
    }
}

impl Object {
    /// A new object with no facets: not alive, level 1, seen only while in view.
    pub fn new(x: i32, y: i32, glyph: char, name: &str, color: Color, blocks: bool) -> (object: Object)
        ensures
            object@ == (ObjectView {
                x: x as int,
                y: y as int,
                glyph,
                color,
                name: name@,
                blocks,
                alive: false,
                always_visible: false,
                level: 1,
                fighter: None,
                ai: None,
                item: None,
                equippable: None,
            }),
    {
        Object {
            x,
            y,
            glyph,
            color,
            name: String::from_str(name),
            blocks,
            alive: false,
            always_visible: false,
            level: 1,
            fighter: None,
            ai: None,
            item: None,
            equippable: None,
        }
    }

    /// The position of the object.
    pub fn pos(&self) -> (p: (i32, i32))
        ensures
            p == (self.x, self.y),
    {
        (self.x, self.y)
    }

    /// Moves the object to `(x, y)`.
    pub fn set_pos(&mut self, x: i32, y: i32)
        ensures
            final(self)@ == (ObjectView { x: x as int, y: y as int, ..old(self)@ }),
    {
        self.x = x;
        self.y = y;
    }

    /// The squared distance from this object to the tile `(x, y)`.
    pub fn distance_squared(&self, x: i32, y: i32) -> (d: i128)
        ensures
            d == distance_squared(self.x as int, self.y as int, x as int, y as int),
    {
        let dx: i128 = x as i128 - self.x as i128;
        let dy: i128 = y as i128 - self.y as i128;
        assert(-0x1_0000_0000 <= dx <= 0x1_0000_0000 && -0x1_0000_0000 <= dy <= 0x1_0000_0000);
        assert(0 <= dx * dx <= 0x1_0000_0000_0000_0000_0000 && 0 <= dy * dy <= 0x1_0000_0000_0000_0000_0000)
            by (nonlinear_arith)
            requires
                -0x1_0000_0000 <= dx <= 0x1_0000_0000,
                -0x1_0000_0000 <= dy <= 0x1_0000_0000,
        ;
        dx * dx + dy * dy
    }

    /// The squared distance from this object to another.
    pub fn distance_squared_to(&self, other: &Object) -> (d: i128)
        ensures
            d == distance_squared(self.x as int, self.y as int, other.x as int, other.y as int),
    {
        self.distance_squared(other.x, other.y)
    }

    /// Restores up to `amount` hit points, never beyond the maximum.
    pub fn heal(&mut self, amount: i32)
        requires
            old(self).fighter matches Some(f) ==> f.hp + amount >= i32::MIN,
        ensures
            final(self)@ == old(self)@.healed(amount as int),
    {
        match self.fighter {
            Some(f) => {
                let hp: i64 = f.hp as i64 + amount as i64;
                let hp: i32 = if hp > f.max_hp as i64 {
                    f.max_hp
                } else {
                    hp as i32
                };
                self.fighter = Some(Fighter { hp, ..f });
            },
            None => {},
        }
    }

    /// Turns the object into its corpse and announces the death.
    fn die(&mut self, messages: &mut Messages)
        requires
            old(self).fighter is Some,
            old(messages).wf(),
            old(messages).limit() > 0,
        ensures
            final(self)@ == old(self)@.corpse(),
            final(messages).wf(),
            final(messages).limit() == old(messages).limit(),
            final(messages)@ == logged(old(messages)@, old(messages).limit(), old(self)@.death_line()),
    {
        let fighter = self.fighter.unwrap();
        self.alive = false;
        self.glyph = '%';
        self.color = dark_red();
        match fighter.on_death {
            DeathCallback::Player => {
                self.fighter = Some(Fighter { hp: 0, ..fighter });
                messages.message(String::from_str("You died!"), red());
            },
            DeathCallback::Monster => {
                let mut text = self.name.clone();
                text.append(" is dead! You gain ");
                let xp_text = decimal_text(fighter.xp);
                text.append(xp_text.as_str());
                text.append(" experience points.");
                messages.message(text, orange());
                let mut name = String::from_str("remains of ");
                name.append(self.name.as_str());
                self.name = name;
                self.blocks = false;
                self.fighter = None;
                self.ai = None;
            },
        }
    }

    /// Deals `damage` to the object. Hit points never fall below zero; an object whose
    /// hit points are spent dies, and the experience it was worth is returned.
    pub fn take_damage(&mut self, damage: i32, messages: &mut Messages) -> (reward: Option<i32>)
        requires
            old(messages).wf(),
            old(messages).limit() > 0,
        ensures
            final(self)@ == old(self)@.after_damage(damage as int),
            final(messages).wf(),
            final(messages).limit() == old(messages).limit(),
            final(messages)@ == old(self)@.damage_logged(
                damage as int,
                old(messages)@,
                old(messages).limit(),
            ),
            match reward {
                Some(xp) => old(self)@.reward_for(damage as int) == Some(xp as int),
                None => old(self)@.reward_for(damage as int) is None,
            },
    {
        match self.fighter {
            None => None,
            Some(f) => {
                let hp: i32 = if damage <= 0 {
                    f.hp
                } else if (f.hp as i64) - (damage as i64) < 0 {
                    0
                } else {
                    f.hp - damage
                };
                if hp <= 0 {
                    self.die(messages);
                    Some(f.xp)
                } else {
                    self.fighter = Some(Fighter { hp, ..f });
                    None
                }
            },
        }
    }

    /// Whether an attack of `self` on `target` stays within the range of the numbers
    /// that hold the damage and the experience.
    pub open spec fn attack_fits(&self, target: &Object) -> bool {
        let damage = self@.damage_to(target@);
        &&& i32::MIN <= damage <= i32::MAX
        &&& self.fighter matches Some(f) ==> (self@.attack_reward(target@) matches Some(xp) ==> i32::MIN
            <= f.xp + xp <= i32::MAX)
    }

    /// Attacks `target`: damage is the attacker's power less the target's defense. An
    /// attack that does no damage only leaves a line in the log. One that kills hands the
    /// target's experience to the attacker, if the attacker has a combat facet.
    pub fn attack(&mut self, target: &mut Object, messages: &mut Messages)
        requires
            old(self).attack_fits(old(target)),
            old(messages).wf(),
            old(messages).limit() > 0,
        ensures
            final(self)@ == old(self)@.after_attacking(old(target)@),
            final(target)@ == old(target)@.after_attack_of(old(self)@),
            final(messages).wf(),
            final(messages).limit() == old(messages).limit(),
            final(messages)@ == old(self)@.attack_logged(
                old(target)@,
                old(messages)@,
                old(messages).limit(),
            ),
    {
        let power: i64 = match self.fighter {
            Some(f) => f.power as i64,
            None => 0,
        };
        let defense: i64 = match target.fighter {
            Some(f) => f.defense as i64,
            None => 0,
        };
        let damage: i64 = power - defense;
        let mut text = self.name.clone();
        text.append(" attacks ");
        text.append(target.name.as_str());
        if damage > 0 {
            let damage: i32 = damage as i32;
            text.append(" for ");
            let damage_text = decimal_text(damage);
            text.append(damage_text.as_str());
            text.append(" hit points.");
            messages.message(text, white());
            match target.take_damage(damage, messages) {
                Some(xp) => {
                    match self.fighter {
                        Some(f) => {
                            self.fighter = Some(Fighter { xp: f.xp + xp, ..f });
                        },
                        None => {},
                    }
                },
                None => {},
            }
        } else {
            text.append(" but it has no effect!");
            messages.message(text, white());
        }
    }
}

} // verus!
