//! What the player carries: picking up, dropping and using items.

use vstd::prelude::*;
use crate::color::{green, light_cyan, red, white, yellow};
use crate::game::{fighter_ok, object_ok, GameState, GameView, PLAYER};
use crate::message::{logged, Line};
use crate::object::{lemma_views_push, Item, ObjectView};
use crate::spells::{confuse_prompt_line, fireball_prompt_line, UseResult};

verus! {

/// The number of items that the player can carry: one for each letter of the menu.
pub const INVENTORY_LIMIT: usize = 26;

/// What an item needs to be told before it can be used.
#[derive(Clone, Copy, Debug, PartialEq, Eq, Structural)]
pub enum Targeting {
    /// The item needs no target.
    Nothing,
    /// The player chooses a monster.
    Monster,
    /// The player chooses a tile.
    Tile,
}

/// The target that the player chose for an item.
#[derive(Clone, Copy, Debug)]
pub enum Aim {
    /// No target: none was needed, or the player gave up.
    Nothing,
    /// The object with this index.
    Monster(usize),
    /// The tile at this position.
    Tile(i32, i32),
}

/// The log line written when the player cannot carry the item called `name`.
pub open spec fn inventory_full_line(name: Seq<char>) -> Line {
    ("Your inventory is full, cannot pick up "@ + name + "."@, red())
}

/// The log line written when the player picks up the item called `name`.
pub open spec fn picked_up_line(name: Seq<char>) -> Line {
    ("You picked up a "@ + name + "!"@, green())
}

/// The log line written when the player drops the item called `name`.
pub open spec fn dropped_line(name: Seq<char>) -> Line {
    ("You dropped a "@ + name + "."@, yellow())
}

/// The log line written when an item was not used after all.
pub open spec fn cancelled_line() -> Line {
    ("Cancelled"@, white())
}

/// The log line written when the object called `name` has no use.
pub open spec fn unusable_line(name: Seq<char>) -> Line {
    ("The "@ + name + " cannot be used."@, white())
}

impl Aim {
    /// The monster that was chosen, if one was.
    pub open spec fn monster(self) -> Option<usize> {
        match self {
            Aim::Monster(id) => Some(id),
            _ => None,
        }
    }

    /// The tile that was chosen, if one was.
    pub open spec fn tile(self) -> Option<(i32, i32)> {
        match self {
            Aim::Tile(x, y) => Some((x, y)),
            _ => None,
        }
    }
}

impl GameView {
    /// The state after the player tries to pick up object `id`. With a full inventory
    /// the object stays where it is and a line in the log says why. Otherwise it leaves
    /// the map, its place in the list is taken by the last object, and it is added to the
    /// inventory.
    pub open spec fn picked_up(self, id: int) -> GameView {
        let item = self.objects[id];
        if self.inventory.len() >= INVENTORY_LIMIT {
            self.noted(inventory_full_line(item.name))
        } else {
            GameView {
                objects: self.objects.update(id, self.objects.last()).drop_last(),
                inventory: self.inventory.push(item),
                log: logged(self.log, self.log_limit, picked_up_line(item.name)),
                ..self
            }
        }
    }

    /// The state after the player drops item `id` of the inventory: the item lies where
    /// the player stands and is the last object of the map.
    pub open spec fn dropped(self, id: int) -> GameView {
        let item = ObjectView { x: self.objects[0].x, y: self.objects[0].y, ..self.inventory[id] };
        GameView {
            objects: self.objects.push(item),
            inventory: self.inventory.remove(id),
            log: logged(self.log, self.log_limit, dropped_line(item.name)),
            ..self
        }
    }

    /// What item `id` of the inventory needs before it is used, and the state after the
    /// player was asked for it.
    pub open spec fn use_begun(self, id: int) -> (GameView, Targeting) {
        match self.inventory[id].item {
            Some(Item::Confuse) => (self.noted(confuse_prompt_line()), Targeting::Monster),
            Some(Item::Fireball) => (self.noted(fireball_prompt_line()), Targeting::Tile),
            _ => (self, Targeting::Nothing),
        }
    }

    /// The state after an effect was tried for item `id` of the inventory: an item that
    /// is used up leaves the inventory; one that is not is kept, and the log says so.
    pub open spec fn use_finished(self, id: int, result: UseResult) -> GameView {
        match result {
            UseResult::UsedUp => GameView { inventory: self.inventory.remove(id), ..self },
            UseResult::Cancelled => self.noted(cancelled_line()),
        }
    }

    /// Whether the use of item `id` of the inventory on the target `aim` may earn the
    /// player experience: the item is a scroll of lightning whose bolt kills, or a scroll
    /// of fireball with a tile to go off at.
    pub open spec fn use_rewards(self, id: int, aim: Aim) -> bool {
        match self.inventory[id].item {
            Some(Item::Lightning) => self.lightning_rewards(),
            Some(Item::Fireball) => aim.tile() is Some,
            _ => false,
        }
    }

    /// The state after the player uses item `id` of the inventory on the target `aim`.
    /// Potions and scrolls have their effect; equipment and objects that are no items
    /// cannot be used, which the log says.
    pub open spec fn item_used(self, id: int, aim: Aim) -> GameView {
        match self.inventory[id].item {
            Some(Item::Heal) => self.heal_cast().0.use_finished(id, self.heal_cast().1),
            Some(Item::Lightning) => self.lightning_cast().0.use_finished(id, self.lightning_cast().1),
            Some(Item::Confuse) => self.confuse_cast(aim.monster()).0.use_finished(
                id,
                self.confuse_cast(aim.monster()).1,
            ),
            Some(Item::Fireball) => self.fireball_cast(aim.tile()).0.use_finished(
                id,
                self.fireball_cast(aim.tile()).1,
            ),
            _ => self.noted(unusable_line(self.inventory[id].name)),
        }
    }
}

impl GameState {
    /// Adds object `object_id` to the player's inventory and removes it from the map,
    /// if the inventory has room. The player itself is no item.
    pub fn pick_item_up(&mut self, object_id: usize)
        requires
            old(self).wf(),
            0 < object_id < old(self).objects@.len(),
        ensures
            final(self).wf(),
            final(self)@ == old(self)@.picked_up(object_id as int),
            old(self)@.inventory.len() >= INVENTORY_LIMIT ==> final(self)@.inventory == old(self)@.inventory
                && final(self)@.objects == old(self)@.objects,
    {
        if self.inventory.len() >= INVENTORY_LIMIT {
            let mut text = String::from_str("Your inventory is full, cannot pick up ");
            text.append(self.objects[object_id].name.as_str());
            text.append(".");
            self.messages.message(text, red());
        } else {
            let ghost before = self.objects@;
            let ghost carried = self.inventory@;
            let item = self.objects.swap_remove(object_id);
            let mut text = String::from_str("You picked up a ");
            text.append(item.name.as_str());
            text.append("!");
            self.messages.message(text, green());
            self.inventory.push(item);
            proof {
                lemma_views_push(carried, item);
                assert(self@.objects =~= old(self)@.objects.update(
                    object_id as int,
                    old(self)@.objects.last(),
                ).drop_last());
                assert forall|i: int| 0 <= i < self@.objects.len() implies object_ok(#[trigger] self@.objects[i]) by {
                    assert(object_ok(old(self)@.objects[i]));
                    assert(object_ok(old(self)@.objects[old(self)@.objects.len() - 1]));
                }
                assert(object_ok(old(self)@.objects[object_id as int]));
                assert forall|i: int| 0 <= i < self@.inventory.len() implies ((
                #[trigger] self@.inventory[i]).fighter matches Some(f) ==> fighter_ok(f)) by {
                    if i < carried.len() {
                        assert(self@.inventory[i] == old(self)@.inventory[i]);
                    }
                }
            }
        }
    }

    /// Drops item `inventory_id` of the inventory where the player stands.
    pub fn drop_item(&mut self, inventory_id: usize)
        requires
            old(self).wf(),
            inventory_id < old(self).inventory@.len(),
        ensures
            final(self).wf(),
            final(self)@ == old(self)@.dropped(inventory_id as int),
    {
        let ghost before = self.objects@;
        let ghost carried = self.inventory@;
        assert(object_ok(self@.objects[0]));
        let mut item = self.inventory.remove(inventory_id);
        let (x, y) = self.objects[PLAYER].pos();
        item.set_pos(x, y);
        let mut text = String::from_str("You dropped a ");
        text.append(item.name.as_str());
        text.append(".");
        self.messages.message(text, yellow());
        self.objects.push(item);
        proof {
            lemma_views_push(before, item);
            assert(self@.inventory =~= old(self)@.inventory.remove(inventory_id as int));
            assert(old(self)@.inventory[inventory_id as int] == carried[inventory_id as int]@);
            assert forall|i: int| 0 <= i < self@.objects.len() implies object_ok(#[trigger] self@.objects[i]) by {
                if i < before.len() {
                    assert(object_ok(old(self)@.objects[i]));
                }
            }
            assert forall|i: int| 0 <= i < self@.inventory.len() implies ((
            #[trigger] self@.inventory[i]).fighter matches Some(f) ==> fighter_ok(f)) by {
                if i < inventory_id {
                    assert(self@.inventory[i] == old(self)@.inventory[i]);
                } else {
                    assert(self@.inventory[i] == old(self)@.inventory[i + 1]);
                }
            }
        }
    }

    /// Begins the use of item `inventory_id` of the inventory: says what the item needs
    /// to be told, and asks the player for it in the log.
    pub fn begin_use(&mut self, inventory_id: usize) -> (needs: Targeting)
        requires
            old(self).wf(),
            inventory_id < old(self).inventory@.len(),
        ensures
            final(self).wf(),
            final(self)@ == old(self)@.use_begun(inventory_id as int).0,
            needs == old(self)@.use_begun(inventory_id as int).1,
    {
        match self.inventory[inventory_id].item {
            Some(Item::Confuse) => {
                self.note("Left-click an enemy to confuse it, or right-click to cancel.", light_cyan());
                Targeting::Monster
            },
            Some(Item::Fireball) => {
                self.note("Left-click a target tile for the fireball, or right-click to cancel.", light_cyan());
                Targeting::Tile
            },
            _ => Targeting::Nothing,
        }
    }

    /// Uses item `inventory_id` of the inventory on the target that the player chose.
    /// An item that was used up is destroyed; one whose use was cancelled is kept.
    pub fn use_item(&mut self, inventory_id: usize, aim: Aim)
        requires
            old(self).wf(),
            old(self)@.use_rewards(inventory_id as int, aim) ==> old(self)@.xp_fits(),
            inventory_id < old(self).inventory@.len(),
        ensures
            final(self).wf(),
            final(self)@ == old(self)@.item_used(inventory_id as int, aim),
    {
        let monster = match aim {
            Aim::Monster(id) => Some(id),
            _ => None,
        };
        let tile = match aim {
            Aim::Tile(x, y) => Some((x, y)),
            _ => None,
        };
        let result = match self.inventory[inventory_id].item {
            Some(Item::Heal) => self.cast_heal(),
            Some(Item::Lightning) => self.cast_lightning(),
            Some(Item::Confuse) => self.cast_confuse(monster),
            Some(Item::Fireball) => self.cast_fireball(tile),
            _ => {
                let mut text = String::from_str("The ");
                text.append(self.inventory[inventory_id].name.as_str());
                text.append(" cannot be used.");
                self.messages.message(text, white());
                return ;
            },
        };
        match result {
            UseResult::UsedUp => {
                let ghost carried = self@.inventory;
                self.inventory.remove(inventory_id);
                proof {
                    assert(self@.inventory =~= carried.remove(inventory_id as int));
                    assert forall|i: int| 0 <= i < self@.inventory.len() implies ((
                    #[trigger] self@.inventory[i]).fighter matches Some(f) ==> fighter_ok(f)) by {
                        if i < inventory_id {
                            assert(self@.inventory[i] == carried[i]);
                        } else {
                            assert(self@.inventory[i] == carried[i + 1]);
                        }
                    }
                }
            },
            UseResult::Cancelled => {
                self.note("Cancelled", white());
            },
        }
    }
}

} // verus!
