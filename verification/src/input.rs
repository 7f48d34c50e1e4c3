//! Keys and what they ask for, menus, and the turn of the player.

use vstd::prelude::*;
use crate::game::{first_from, first_index, object_ok, GameState, GameView, PLAYER};
use crate::level::descended;
use crate::object::{Fighter, ObjectView};
use crate::progress::{level_up_xp, LEVEL_UP_BASE, LEVEL_UP_FACTOR};
use crate::text::{decimal, decimal_text};

verus! {

/// The keys that are told apart by their code and not by the character they print.
#[derive(Clone, Copy, Debug, PartialEq, Eq, Structural)]
pub enum KeyCode {
    Left,
    Right,
    Up,
    Down,
    Escape,
    Enter,
    Number0,
    Other,
}

/// A key press as the input backend reports it.
#[derive(Clone, Copy, Debug)]
pub struct Key {
    pub code: KeyCode,
    pub printable: char,
    pub left_alt: bool,
}

/// What a key press asks the player's character to do.
#[derive(Clone, Copy, Debug, PartialEq, Eq, Structural)]
pub enum Command {
    /// Show the character's values.
    Character,
    /// Pick up the item the player stands on.
    PickUp,
    /// Choose an item of the inventory and use it.
    Inventory,
    /// Choose an item of the inventory and drop it.
    Drop,
    /// Go down the stairs the player stands on.
    Descend,
    /// Let a turn pass.
    Wait,
    /// Step one tile to the left, or attack what stands there.
    Left,
    /// Step one tile to the right, or attack what stands there.
    Right,
    /// Step one tile up, or attack what stands there.
    Up,
    /// Step one tile down, or attack what stands there.
    Down,
    /// The key means nothing.
    Nothing,
}

/// Whether the player spent its turn.
#[derive(Clone, Copy, Debug, PartialEq, Eq, Structural)]
pub enum PlayerAction {
    TookTurn,
    DidntTakeTurn,
    Exit,
}

/// What is left for the caller to do after a key was handled.
#[derive(Clone, Copy, Debug, PartialEq, Eq, Structural)]
pub enum Request {
    /// Nothing.
    Nothing,
    /// Show `character_info` in a box.
    ShowCharacter,
    /// Let the player choose an item of the inventory, and use it.
    ChooseItemToUse,
    /// Let the player choose an item of the inventory, and drop it.
    ChooseItemToDrop,
    /// The player went down the stairs: the map is a new one.
    NewLevel,
    /// Switch between the window and the full screen.
    ToggleFullscreen,
}

/// What a key asks for. The character that a key prints decides before its code does.
pub open spec fn command_of(code: KeyCode, printable: char) -> Command {
    if printable == 'c' {
        Command::Character
    } else if printable == 'g' {
        Command::PickUp
    } else if printable == 'i' {
        Command::Inventory
    } else if printable == 'd' {
        Command::Drop
    } else if printable == '<' {
        Command::Descend
    } else if printable == '.' {
        Command::Wait
    } else {
        match code {
            KeyCode::Left => Command::Left,
            KeyCode::Right => Command::Right,
            KeyCode::Up => Command::Up,
            KeyCode::Down => Command::Down,
            _ => Command::Nothing,
        }
    }
}

/// The step that a command to move stands for.
pub open spec fn step_of(command: Command) -> Option<(int, int)> {
    match command {
        Command::Left => Some((-1, 0)),
        Command::Right => Some((1, 0)),
        Command::Up => Some((0, -1)),
        Command::Down => Some((0, 1)),
        _ => None,
    }
}

/// Whether the player spends its turn on a command: on waiting and on stepping.
pub open spec fn action_of(command: Command) -> PlayerAction {
    if command == Command::Wait || step_of(command) is Some {
        PlayerAction::TookTurn
    } else {
        PlayerAction::DidntTakeTurn
    }
}

/// What a command leaves for the caller to do.
pub open spec fn request_of(command: Command) -> Request {
    match command {
        Command::Character => Request::ShowCharacter,
        Command::Inventory => Request::ChooseItemToUse,
        Command::Drop => Request::ChooseItemToDrop,
        _ => Request::Nothing,
    }
}

/// The option that a key chooses in a menu of `options` lines, which are lettered from
/// `a` on: the position of the letter, in either case, if the menu has that many lines.
pub open spec fn menu_choice_of(printable: char, options: int) -> Option<int> {
    let code = printable as int;
    if ('a' as int) <= code <= ('z' as int) && code - ('a' as int) < options {
        Some(code - ('a' as int))
    } else if ('A' as int) <= code <= ('Z' as int) && code - ('A' as int) < options {
        Some(code - ('A' as int))
    } else {
        None
    }
}

/// The text of the box that shows the character's values.
pub open spec fn character_text(level: int, fighter: Fighter) -> Seq<char> {
    "Character information\n\nLevel: "@ + decimal(level) + "\nExperience: "@ + decimal(fighter.xp as int)
        + "\nExperience to level up: "@ + decimal(level_up_xp(level)) + "\n\nMaximum HP: "@ + decimal(
        fighter.max_hp as int,
    ) + "\nAttack: "@ + decimal(fighter.power as int) + "\nDefense: "@ + decimal(fighter.defense as int)
}

impl GameView {
    /// The first object other than the player that is an item and lies where the player
    /// stands.
    pub open spec fn item_here(self) -> Option<int> {
        first_index(
            self.objects,
            |i: int, o: ObjectView| o.x == self.objects[0].x && o.y == self.objects[0].y && o.item is Some && i != 0,
        )
    }

    /// Whether the player stands on stairs.
    pub open spec fn on_stairs(self) -> bool {
        exists|i: int|
            0 <= i < self.objects.len() && (#[trigger] self.objects[i]).x == self.objects[0].x
                && self.objects[i].y == self.objects[0].y && self.objects[i].name == "stairs"@
    }

    /// Whether the command earns the player experience: a living player steps onto a
    /// fighter and kills it.
    pub open spec fn command_rewards(self, command: Command) -> bool {
        self.objects[0].alive && (step_of(command) matches Some((dx, dy)) && self.step_rewards(dx, dy))
    }

    /// Whether the command takes the player down the stairs.
    pub open spec fn descends(self, command: Command) -> bool {
        self.objects[0].alive && command == Command::Descend && self.on_stairs()
    }

    /// The state after the player's character was given a command other than one that
    /// takes it down the stairs. A dead player ignores every command. Else the place of
    /// the player is remembered, and then the player picks up, or steps, as told; the
    /// other commands change nothing by themselves.
    pub open spec fn commanded(self, command: Command) -> GameView {
        if !self.objects[0].alive {
            self
        } else {
            let noted = GameView {
                previous_player_pos: (self.objects[0].x as i32, self.objects[0].y as i32),
                ..self
            };
            match command {
                Command::PickUp => match noted.item_here() {
                    Some(id) => noted.picked_up(id),
                    None => noted,
                },
                _ => match step_of(command) {
                    Some((dx, dy)) => noted.player_moved(dx, dy),
                    None => noted,
                },
            }
        }
    }

    /// Whether the monsters act after the player did: only after a living player spent
    /// its turn.
    pub open spec fn monsters_act(self, action: PlayerAction) -> bool {
        self.objects[0].alive && action != PlayerAction::DidntTakeTurn
    }

    /// The lines of the menu that shows the inventory: the names of the items, or one
    /// line that says that there are none.
    pub open spec fn inventory_lines(self) -> Seq<Seq<char>> {
        if self.inventory.len() == 0 {
            seq!["Inventory is empty."@]
        } else {
            Seq::new(self.inventory.len(), |i: int| self.inventory[i].name)
        }
    }
}

/// Whether the key goes to the player's character: every key but escape, enter with the
/// left alt key, and `0`.
pub open spec fn for_player(key: Key) -> bool {
    key.code != KeyCode::Escape && !(key.code == KeyCode::Enter && key.left_alt) && key.code
        != KeyCode::Number0
}

/// What a key asks for.
pub fn command_for(key: Key) -> (command: Command)
    ensures
        command == command_of(key.code, key.printable),
{
    if key.printable == 'c' {
        Command::Character
    } else if key.printable == 'g' {
        Command::PickUp
    } else if key.printable == 'i' {
        Command::Inventory
    } else if key.printable == 'd' {
        Command::Drop
    } else if key.printable == '<' {
        Command::Descend
    } else if key.printable == '.' {
        Command::Wait
    } else {
        match key.code {
            KeyCode::Left => Command::Left,
            KeyCode::Right => Command::Right,
            KeyCode::Up => Command::Up,
            KeyCode::Down => Command::Down,
            _ => Command::Nothing,
        }
    }
}

/// The option that the key with the character `printable` chooses in a menu of
/// `options` lines, if it chooses one. A menu has no more lines than there are letters.
pub fn menu_choice(printable: char, options: usize) -> (choice: Option<usize>)
    requires
        options <= 26,
    ensures
        match choice {
            Some(index) => menu_choice_of(printable, options as int) == Some(index as int),
            None => menu_choice_of(printable, options as int) is None,
        },
{
    let code = printable as u32;
    let index = if 'a' as u32 <= code && code <= 'z' as u32 {
        (code - 'a' as u32) as usize
    } else if 'A' as u32 <= code && code <= 'Z' as u32 {
        (code - 'A' as u32) as usize
    } else {
        return None;
    };
    if index < options {
        Some(index)
    } else {
        None
    }
}

impl GameState {
    /// The first item that lies where the player stands.
    pub fn item_here(&self) -> (found: Option<usize>)
        requires
            self.wf(),
        ensures
            match found {
                Some(id) => self@.item_here() == Some(id as int),
                None => self@.item_here() is None,
            },
            found matches Some(id) ==> 0 < id < self.objects@.len(),
    {
        let (x, y) = self.objects[PLAYER].pos();
        let ghost wanted = |i: int, o: ObjectView|
            o.x == self@.objects[0].x && o.y == self@.objects[0].y && o.item is Some && i != 0;
        let mut id: usize = 0;
        while id < self.objects.len()
            invariant
                self.wf(),
                id <= self.objects@.len(),
                x == self@.objects[0].x,
                y == self@.objects[0].y,
                wanted == (|i: int, o: ObjectView|
                    o.x == self@.objects[0].x && o.y == self@.objects[0].y && o.item is Some && i != 0),
                first_from(self@.objects, wanted, 0) == first_from(self@.objects, wanted, id as int),
            decreases self.objects@.len() - id,
        {
            if self.objects[id].x == x && self.objects[id].y == y && self.objects[id].item.is_some() && id
                != PLAYER {
                assert(wanted(id as int, self@.objects[id as int]));
                return Some(id);
            }
            assert(!wanted(id as int, self@.objects[id as int]));
            id = id + 1;
        }
        None
    }

    /// Whether the player stands on stairs.
    pub fn on_stairs(&self) -> (on_stairs: bool)
        requires
            self.wf(),
        ensures
            on_stairs == self@.on_stairs(),
    {
        let (x, y) = self.objects[PLAYER].pos();
        let stairs = String::from_str("stairs");
        let mut id: usize = 0;
        while id < self.objects.len()
            invariant
                self.wf(),
                id <= self.objects@.len(),
                x == self@.objects[0].x,
                y == self@.objects[0].y,
                stairs@ == "stairs"@,
                forall|i: int|
                    0 <= i < id ==> !((#[trigger] self@.objects[i]).x == self@.objects[0].x
                        && self@.objects[i].y == self@.objects[0].y && self@.objects[i].name == "stairs"@),
            decreases self.objects@.len() - id,
        {
            if self.objects[id].x == x && self.objects[id].y == y && self.objects[id].name == stairs {
                assert(self@.objects[id as int].name == "stairs"@);
                return true;
            }
            id = id + 1;
        }
        false
    }

    /// Lets the player's character act on a key. A dead player does nothing. Keys that
    /// open a menu or a box leave that to the caller and say so; `g` picks up the item
    /// under the player, `<` goes down the stairs under the player, `.` waits, and the
    /// arrows step or attack.
    pub fn handle_keys(&mut self, key: Key) -> (outcome: (PlayerAction, Request))
        requires
            old(self).wf(),
            old(self)@.command_rewards(command_of(key.code, key.printable)) ==> old(self)@.xp_fits(),
            old(self)@.descends(command_of(key.code, key.printable)) ==> old(self).dungeon_level < u32::MAX,
        ensures
            final(self).wf(),
            !old(self)@.objects[0].alive ==> outcome == (PlayerAction::DidntTakeTurn, Request::Nothing),
            old(self)@.objects[0].alive ==> outcome.0 == action_of(command_of(key.code, key.printable)),
            old(self)@.objects[0].alive && !old(self)@.descends(command_of(key.code, key.printable))
                ==> outcome.1 == request_of(command_of(key.code, key.printable)),
            old(self)@.descends(command_of(key.code, key.printable)) ==> outcome.1 == Request::NewLevel
                && descended(
                (GameView {
                    previous_player_pos: (old(self)@.objects[0].x as i32, old(self)@.objects[0].y as i32),
                    ..old(self)@
                }),
                final(self)@,
            ),
            !old(self)@.descends(command_of(key.code, key.printable)) ==> final(self)@ == old(
                self,
            )@.commanded(command_of(key.code, key.printable)),
    {
        if !self.objects[PLAYER].alive {
            return (PlayerAction::DidntTakeTurn, Request::Nothing);
        }
        assert(object_ok(self@.objects[0]));
        self.previous_player_pos = self.objects[PLAYER].pos();
        let command = command_for(key);
        match command {
            Command::Character => (PlayerAction::DidntTakeTurn, Request::ShowCharacter),
            Command::PickUp => {
                match self.item_here() {
                    Some(item_id) => {
                        self.pick_item_up(item_id);
                    },
                    None => {},
                }
                (PlayerAction::DidntTakeTurn, Request::Nothing)
            },
            Command::Inventory => (PlayerAction::DidntTakeTurn, Request::ChooseItemToUse),
            Command::Drop => (PlayerAction::DidntTakeTurn, Request::ChooseItemToDrop),
            Command::Descend => {
                if self.on_stairs() {
                    self.next_level();
                    (PlayerAction::DidntTakeTurn, Request::NewLevel)
                } else {
                    (PlayerAction::DidntTakeTurn, Request::Nothing)
                }
            },
            Command::Wait => (PlayerAction::TookTurn, Request::Nothing),
            Command::Left => {
                self.player_move_or_attack(-1, 0);
                (PlayerAction::TookTurn, Request::Nothing)
            },
            Command::Right => {
                self.player_move_or_attack(1, 0);
                (PlayerAction::TookTurn, Request::Nothing)
            },
            Command::Up => {
                self.player_move_or_attack(0, -1);
                (PlayerAction::TookTurn, Request::Nothing)
            },
            Command::Down => {
                self.player_move_or_attack(0, 1);
                (PlayerAction::TookTurn, Request::Nothing)
            },
            Command::Nothing => (PlayerAction::DidntTakeTurn, Request::Nothing),
        }
    }

    /// Acts on a key of the game: escape ends the game, enter with the left alt key
    /// switches to the full screen and back, `0` switches the fog of war off and on,
    /// and every other key goes to the player's character.
    pub fn play_key(&mut self, key: Key) -> (outcome: (PlayerAction, Request))
        requires
            old(self).wf(),
            for_player(key) && old(self)@.command_rewards(command_of(key.code, key.printable)) ==> old(
                self,
            )@.xp_fits(),
            for_player(key) && old(self)@.descends(command_of(key.code, key.printable)) ==> old(
                self,
            ).dungeon_level < u32::MAX,
        ensures
            final(self).wf(),
            key.code == KeyCode::Escape ==> outcome == (PlayerAction::Exit, Request::Nothing) && final(self)@
                == old(self)@,
            key.code == KeyCode::Enter && key.left_alt ==> outcome == (
                PlayerAction::DidntTakeTurn,
                Request::ToggleFullscreen,
            ) && final(self)@ == old(self)@,
            key.code == KeyCode::Number0 ==> outcome == (PlayerAction::DidntTakeTurn, Request::Nothing)
                && final(self)@ == (GameView { disable_fov: !old(self)@.disable_fov, ..old(self)@ }),
            for_player(key) ==> {
                let command = command_of(key.code, key.printable);
                &&& !old(self)@.objects[0].alive ==> outcome == (PlayerAction::DidntTakeTurn, Request::Nothing)
                &&& old(self)@.objects[0].alive ==> outcome.0 == action_of(command)
                &&& old(self)@.objects[0].alive && !old(self)@.descends(command) ==> outcome.1 == request_of(
                    command,
                )
                &&& old(self)@.descends(command) ==> outcome.1 == Request::NewLevel && descended(
                    (GameView {
                        previous_player_pos: (old(self)@.objects[0].x as i32, old(self)@.objects[0].y as i32),
                        ..old(self)@
                    }),
                    final(self)@,
                )
                &&& !old(self)@.descends(command) ==> final(self)@ == old(self)@.commanded(command)
            },
    {
        match key.code {
            KeyCode::Escape => (PlayerAction::Exit, Request::Nothing),
            KeyCode::Enter => {
                if key.left_alt {
                    (PlayerAction::DidntTakeTurn, Request::ToggleFullscreen)
                } else {
                    self.handle_keys(key)
                }
            },
            KeyCode::Number0 => {
                self.disable_fov = !self.disable_fov;
                (PlayerAction::DidntTakeTurn, Request::Nothing)
            },
            _ => self.handle_keys(key),
        }
    }

    /// Whether the monsters act after the player did.
    pub fn monsters_act(&self, action: PlayerAction) -> (act: bool)
        requires
            self.wf(),
        ensures
            act == self@.monsters_act(action),
    {
        self.objects[PLAYER].alive && match action {
            PlayerAction::DidntTakeTurn => false,
            _ => true,
        }
    }

    /// The lines of the menu that shows the inventory.
    pub fn inventory_options(&self) -> (options: Vec<String>)
        ensures
            options@.len() == self@.inventory_lines().len(),
            forall|i: int| 0 <= i < options@.len() ==> (#[trigger] options@[i])@ == self@.inventory_lines()[i],
    {
        let mut options: Vec<String> = Vec::new();
        if self.inventory.len() == 0 {
            options.push(String::from_str("Inventory is empty."));
            return options;
        }
        let mut i: usize = 0;
        while i < self.inventory.len()
            invariant
                i <= self.inventory@.len(),
                self.inventory@.len() > 0,
                options@.len() == i,
                forall|k: int| 0 <= k < i ==> (#[trigger] options@[k])@ == self@.inventory[k].name,
            decreases self.inventory@.len() - i,
        {
            options.push(self.inventory[i].name.clone());
            i = i + 1;
        }
        options
    }

    /// The item that the player chose in the menu of the inventory: the line chosen,
    /// unless the inventory is empty and the line only said so.
    pub fn inventory_choice(&self, choice: Option<usize>) -> (item: Option<usize>)
        ensures
            item == (if self@.inventory.len() > 0 {
                choice
            } else {
                None
            }),
    {
        if self.inventory.len() > 0 {
            choice
        } else {
            None
        }
    }

    /// The text of the box that shows the character's values, if the player has a
    /// combat facet.
    pub fn character_info(&self) -> (info: Option<String>)
        requires
            self.wf(),
            i32::MIN <= level_up_xp(self@.objects[0].level) <= i32::MAX,
        ensures
            match info {
                Some(text) => self@.objects[0].fighter matches Some(f) && text@ == character_text(
                    self@.objects[0].level,
                    f,
                ),
                None => self@.objects[0].fighter is None,
            },
    {
        let player = &self.objects[PLAYER];
        match player.fighter {
            Some(fighter) => {
                let level = player.level;
                let level_up_xp: i64 = LEVEL_UP_BASE as i64 + level as i64 * LEVEL_UP_FACTOR as i64;
                let mut text = String::from_str("Character information\n\nLevel: ");
                text.append(decimal_text(level).as_str());
                text.append("\nExperience: ");
                text.append(decimal_text(fighter.xp).as_str());
                text.append("\nExperience to level up: ");
                text.append(decimal_text(level_up_xp as i32).as_str());
                text.append("\n\nMaximum HP: ");
                text.append(decimal_text(fighter.max_hp).as_str());
                text.append("\nAttack: ");
                text.append(decimal_text(fighter.power).as_str());
                text.append("\nDefense: ");
                text.append(decimal_text(fighter.defense).as_str());
                Some(text)
            },
            None => None,
        }
    }
}

} // verus!
