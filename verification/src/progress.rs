//! Experience and levels.

use vstd::prelude::*;
use crate::color::yellow;
use crate::game::{fighter_ok, object_ok, GameState, GameView, PLAYER};
use crate::message::{logged, Line};
use crate::object::{lemma_views_update, Fighter, ObjectView};
use crate::text::{decimal, decimal_text};

verus! {

pub const LEVEL_UP_BASE: i32 = 200;

pub const LEVEL_UP_FACTOR: i32 = 150;

/// The permanent boosts among which a player who gains a level chooses one.
#[derive(Clone, Copy, Debug, PartialEq, Eq, Structural)]
pub enum Boost {
    /// 20 more hit points, now and at most.
    Constitution,
    /// 1 more power.
    Strength,
    /// 1 more defense.
    Agility,
}

/// The experience that the step from `level` to the next costs.
pub open spec fn level_up_xp(level: int) -> int {
    LEVEL_UP_BASE + level * LEVEL_UP_FACTOR
}

/// The log line written when the player reaches `level`.
pub open spec fn level_line(level: int) -> Line {
    ("Your battle skills grow stronger! You reached level "@ + decimal(level) + "!"@, yellow())
}

/// The lines of the menu in which the player chooses a boost, for a player with the
/// given combat values.
pub open spec fn boost_lines(fighter: Fighter) -> Seq<Seq<char>> {
    seq![
        "Constitution (+20 HP, from "@ + decimal(fighter.max_hp as int) + ")"@,
        "Strength (+1 attack, from "@ + decimal(fighter.power as int) + ")"@,
        "Agility (+1 defense, from "@ + decimal(fighter.defense as int) + ")"@,
    ]
}

/// The boost that each line of the menu stands for.
pub fn boost_for(choice: usize) -> (boost: Option<Boost>)
    ensures
        boost == (if choice == 0 {
            Some(Boost::Constitution)
        } else if choice == 1 {
            Some(Boost::Strength)
        } else if choice == 2 {
            Some(Boost::Agility)
        } else {
            None
        }),
{
    if choice == 0 {
        Some(Boost::Constitution)
    } else if choice == 1 {
        Some(Boost::Strength)
    } else if choice == 2 {
        Some(Boost::Agility)
    } else {
        None
    }
}

impl Fighter {
    /// The combat values with the boost applied.
    pub open spec fn boosted(self, choice: Boost) -> Fighter {
        match choice {
            Boost::Constitution => Fighter {
                max_hp: (self.max_hp + 20) as i32,
                hp: (self.hp + 20) as i32,
                ..self
            },
            Boost::Strength => Fighter { power: (self.power + 1) as i32, ..self },
            Boost::Agility => Fighter { defense: (self.defense + 1) as i32, ..self },
        }
    }

    /// Whether the boosted value fits the number that holds it.
    pub open spec fn boost_fits(self, choice: Boost) -> bool {
        match choice {
            Boost::Constitution => self.max_hp + 20 <= i32::MAX,
            Boost::Strength => self.power + 1 <= i32::MAX,
            Boost::Agility => self.defense + 1 <= i32::MAX,
        }
    }
}

impl GameView {
    /// Whether the player has the experience that the next level costs.
    pub open spec fn level_up_due(self) -> bool {
        self.objects[0].fighter matches Some(f) && f.xp >= level_up_xp(self.objects[0].level)
    }

    /// The state after the player was offered a level: with enough experience the player
    /// gains the level, pays its cost in experience, keeps what is left over, and
    /// receives the boost chosen; the log announces the new level. With too little
    /// experience nothing happens.
    pub open spec fn leveled_up(self, choice: Boost) -> GameView {
        let player = self.objects[0];
        if self.level_up_due() {
            let f = player.fighter->0;
            GameView {
                objects: self.objects.update(
                    0,
                    ObjectView {
                        level: player.level + 1,
                        fighter: Some(
                            Fighter { xp: (f.xp - level_up_xp(player.level)) as i32, ..f }.boosted(choice),
                        ),
                        ..player
                    },
                ),
                log: logged(self.log, self.log_limit, level_line(player.level + 1)),
                ..self
            }
        } else {
            self
        }
    }
}

impl GameState {
    /// Whether the player has the experience that the next level costs, so that the
    /// player is to be asked for a boost.
    pub fn level_up_due(&self) -> (due: bool)
        requires
            self.wf(),
        ensures
            due == self@.level_up_due(),
    {
        match self.objects[PLAYER].fighter {
            Some(f) => {
                let level_up_xp: i64 = LEVEL_UP_BASE as i64 + self.objects[PLAYER].level as i64
                    * LEVEL_UP_FACTOR as i64;
                f.xp as i64 >= level_up_xp
            },
            None => false,
        }
    }

    /// Lets the player gain a level if the experience suffices, with the boost that the
    /// player chose. The experience beyond the cost of the level is kept.
    pub fn level_up(&mut self, choice: Boost) -> (gained: bool)
        requires
            old(self).wf(),
            old(self)@.level_up_due() ==> old(self)@.objects[0].fighter->0.boost_fits(choice)
                && old(self)@.objects[0].level >= 0,
        ensures
            final(self).wf(),
            gained == old(self)@.level_up_due(),
            final(self)@ == old(self)@.leveled_up(choice),
    {
        if !self.level_up_due() {
            return false;
        }
        assert(object_ok(self@.objects[0]));
        let fighter = self.objects[PLAYER].fighter.unwrap();
        let level = self.objects[PLAYER].level;
        let level_up_xp: i32 = LEVEL_UP_BASE + level * LEVEL_UP_FACTOR;
        let mut text = String::from_str("Your battle skills grow stronger! You reached level ");
        let level_text = decimal_text(level + 1);
        text.append(level_text.as_str());
        text.append("!");
        self.messages.message(text, yellow());
        let paid = Fighter { xp: fighter.xp - level_up_xp, ..fighter };
        let boosted = match choice {
            Boost::Constitution => Fighter { max_hp: paid.max_hp + 20, hp: paid.hp + 20, ..paid },
            Boost::Strength => Fighter { power: paid.power + 1, ..paid },
            Boost::Agility => Fighter { defense: paid.defense + 1, ..paid },
        };
        let ghost before = self.objects@;
        self.objects[PLAYER].level = level + 1;
        self.objects[PLAYER].fighter = Some(boosted);
        proof {
            assert(self.objects@ =~= before.update(0, self.objects@[0]));
            lemma_views_update(before, 0, self.objects@[0]);
            assert(fighter_ok(boosted));
            assert forall|i: int| 0 <= i < self@.objects.len() implies object_ok(#[trigger] self@.objects[i]) by {
                assert(object_ok(old(self)@.objects[i]));
            }
        }
        true
    }

    /// The lines of the menu in which the player chooses a boost: one for each boost,
    /// with the value that it would raise. A player without a combat facet has no choice.
    pub fn level_up_options(&self) -> (options: Vec<String>)
        requires
            self.wf(),
        ensures
            match self@.objects[0].fighter {
                Some(f) => options@.len() == 3 && forall|i: int|
                    0 <= i < 3 ==> (#[trigger] options@[i])@ == boost_lines(f)[i],
                None => options@.len() == 0,
            },
    {
        let mut options: Vec<String> = Vec::new();
        match self.objects[PLAYER].fighter {
            Some(fighter) => {
                let mut constitution = String::from_str("Constitution (+20 HP, from ");
                constitution.append(decimal_text(fighter.max_hp).as_str());
                constitution.append(")");
                options.push(constitution);
                let mut strength = String::from_str("Strength (+1 attack, from ");
                strength.append(decimal_text(fighter.power).as_str());
                strength.append(")");
                options.push(strength);
                let mut agility = String::from_str("Agility (+1 defense, from ");
                agility.append(decimal_text(fighter.defense).as_str());
                agility.append(")");
                options.push(agility);
            },
            None => {},
        }
        options
    }
}

} // verus!
