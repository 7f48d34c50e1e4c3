//! Monster decisions: the basic and the confused actor, and what the search for a path
//! is given and what is done with its answer.

use vstd::prelude::*;
use crate::color::red;
use crate::game::{object_ok, on_map, GameState, GameView, PLAYER};
use crate::map::{blocks_at, occupied, tile, Tile, MAP_HEIGHT, MAP_WIDTH};
use crate::message::{logged, Line};
use crate::object::{distance_squared, lemma_views_update, Ai, Object, ObjectView};
use crate::rng::pick;
use rand::ThreadRng;

verus! {

/// What an actor asks for at the end of its turn.
#[derive(Clone, Copy, Debug, PartialEq, Eq, Structural)]
pub enum Turn {
    /// The turn is over.
    Done,
    /// The actor wants to walk toward the player: the caller searches a path over
    /// `path_cells` and hands it to `move_astar`.
    Chase,
}

/// A path at or above this length is not worth walking: the actor heads straight for its
/// target instead.
pub const PATH_LIMIT: i32 = 25;

/// One tile as the field-of-view casting and the path search see it.
#[derive(Clone, Copy, Debug, PartialEq, Eq, Structural)]
pub struct Cell {
    pub transparent: bool,
    pub walkable: bool,
}

/// What a search for the shortest path found: whether the path is empty, how many steps
/// it has, and its first step.
#[derive(Clone, Copy, Debug)]
pub struct Path {
    pub empty: bool,
    pub len: i32,
    pub next: Option<(i32, i32)>,
}

/// The cell that stands for a tile: one sees through what does not block sight and walks
/// over what is not blocked.
pub open spec fn sight_cell(t: Tile) -> Cell {
    Cell { transparent: !t.block_sight, walkable: !t.blocked }
}

/// The cell at `(x, y)`.
pub open spec fn cell(cells: Seq<Vec<Cell>>, x: int, y: int) -> Cell {
    cells[x][y]
}

/// Whether the grid of cells has the size of the map.
pub open spec fn covers_map(cells: Seq<Vec<Cell>>) -> bool {
    &&& cells.len() == MAP_WIDTH
    &&& forall|x: int| 0 <= x < MAP_WIDTH ==> (#[trigger] cells[x]).len() == MAP_HEIGHT
}

/// The steps among which a confused actor chooses: stay, or one tile along a row or a column.
pub open spec fn directions() -> Seq<(i32, i32)> {
    seq![(0i32, 0i32), (1i32, 0i32), (-1i32, 0i32), (0i32, 1i32), (0i32, -1i32)]
}

/// The log line written when the actor called `name` comes to its senses.
pub open spec fn recovered_line(name: Seq<char>) -> Line {
    ("The "@ + name + " is no longer confused!"@, red())
}

impl Ai {
    /// The decision state after one turn: a confused actor with turns left stays
    /// confused with one turn less, one with no turn left goes back to what it was
    /// before, and a basic actor stays basic.
    pub open spec fn turned(self) -> Ai {
        match self {
            Ai::Basic => Ai::Basic,
            Ai::Confused { previous_ai, num_turns } => if num_turns >= 0 {
                Ai::Confused { previous_ai, num_turns: (num_turns - 1) as i32 }
            } else {
                *previous_ai
            },
        }
    }

    /// Whether the actor stumbles about in its turn.
    pub open spec fn stumbles(self) -> bool {
        self matches Ai::Confused { num_turns, .. } && num_turns >= 0
    }

    /// Whether the actor comes to its senses in its turn, which is announced by one line
    /// in the log.
    pub open spec fn recovers(self) -> bool {
        self matches Ai::Confused { num_turns, .. } && num_turns < 0
    }

    /// The decision state after `turns` turns.
    pub open spec fn after_turns(self, turns: nat) -> Ai
        decreases turns,
    {
        if turns == 0 {
            self
        } else {
            self.turned().after_turns((turns - 1) as nat)
        }
    }

    /// The number of lines which, in the course of `turns` turns, announce that the
    /// actor came to its senses.
    pub open spec fn recoveries(self, turns: nat) -> nat
        decreases turns,
    {
        if turns == 0 {
            0
        } else {
            (if self.recovers() {
                1nat
            } else {
                0nat
            }) + self.turned().recoveries((turns - 1) as nat)
        }
    }
}

/// An actor that is confused for `n` more turns stumbles about in each of its next
/// `n + 1` turns and no line announces anything; in the turn after those it goes back to
/// the decision state it had before, and exactly one line announces it.
pub proof fn lemma_confusion_duration(previous: Ai, n: i32, k: nat)
    requires
        n >= 0,
    ensures
        k <= n + 1 ==> (Ai::Confused { previous_ai: Box::new(previous), num_turns: n }).after_turns(k) == (
        Ai::Confused { previous_ai: Box::new(previous), num_turns: (n - k) as i32 }),
        k <= n + 1 ==> (Ai::Confused { previous_ai: Box::new(previous), num_turns: n }).recoveries(k) == 0,
        k < n + 1 ==> (Ai::Confused { previous_ai: Box::new(previous), num_turns: n }).after_turns(
            k,
        ).stumbles(),
        (Ai::Confused { previous_ai: Box::new(previous), num_turns: n }).after_turns((n + 2) as nat)
            == previous,
        (Ai::Confused { previous_ai: Box::new(previous), num_turns: n }).recoveries((n + 2) as nat) == 1,
    decreases n,
{
    let start = Ai::Confused { previous_ai: Box::new(previous), num_turns: n };
    let next = Ai::Confused { previous_ai: Box::new(previous), num_turns: (n - 1) as i32 };
    assert(start.turned() == next);
    assert(!start.recovers());
    if n == 0 {
        assert(next.turned() == previous);
        assert(next.recovers());
        assert(next.after_turns(1) == next.turned().after_turns(0));
        assert(next.recoveries(1) == 1 + next.turned().recoveries(0));
        assert(start.after_turns(2) == next.after_turns(1));
        assert(start.recoveries(2) == next.recoveries(1));
        if k == 1 {
            assert(start.after_turns(1) == next.after_turns(0));
            assert(start.recoveries(1) == next.recoveries(0));
        }
    } else {
        lemma_confusion_duration(previous, (n - 1) as i32, (n + 1) as nat);
        if k > 0 {
            lemma_confusion_duration(previous, (n - 1) as i32, (k - 1) as nat);
            assert(start.after_turns(k) == next.after_turns((k - 1) as nat));
            assert(start.recoveries(k) == next.recoveries((k - 1) as nat));
        }
        assert(start.after_turns((n + 2) as nat) == next.after_turns((n + 1) as nat));
        assert(start.recoveries((n + 2) as nat) == next.recoveries((n + 1) as nat));
    }
}

impl GameView {
    /// Whether actor `id` and the player see each other: the actor stands on a tile that
    /// the player sees.
    pub open spec fn sees_player(self, id: int) -> bool {
        self.in_fov(self.objects[id].x, self.objects[id].y)
    }

    /// The squared distance between two objects.
    pub open spec fn distance_squared(self, from: int, to: int) -> int {
        distance_squared(self.objects[from].x, self.objects[from].y, self.objects[to].x, self.objects[to].y)
    }

    /// Whether actor `id` wants to walk toward the player: it is a basic actor that sees
    /// the player and does not stand next to it.
    pub open spec fn wants_chase(self, id: int) -> bool {
        &&& self.objects[id].ai == Some(Ai::Basic)
        &&& self.sees_player(id)
        &&& self.distance_squared(id, 0) > 1
    }

    /// Whether actor `id` attacks the player: it is a basic actor that sees the player,
    /// stands next to it, and the player has hit points left.
    pub open spec fn wants_attack(self, id: int) -> bool {
        &&& self.objects[id].ai == Some(Ai::Basic)
        &&& self.sees_player(id)
        &&& self.distance_squared(id, 0) <= 1
        &&& self.objects[0].fighter matches Some(f) && f.hp > 0
    }

    /// Whether one of the first `upto` objects, other than `id` and `target`, blocks the
    /// tile `(x, y)`.
    pub open spec fn in_the_way(self, id: int, target: int, upto: int, x: int, y: int) -> bool {
        exists|i: int|
            0 <= i < upto && i != id && i != target && blocks_at(#[trigger] self.objects[i], x, y)
    }

    /// The tile `(x, y)` as the search for a path from object `id` to object `target`
    /// sees it: a tile on which another blocking object stands is a wall to walk around.
    pub open spec fn path_cell(self, id: int, target: int, x: int, y: int) -> Cell {
        if self.in_the_way(id, target, self.objects.len() as int, x, y) {
            Cell { transparent: true, walkable: false }
        } else {
            sight_cell(tile(self.map, x, y))
        }
    }

    /// The state after object `id` acts on the path found toward object `target`. It
    /// takes the first step of a path that is not empty and shorter than `PATH_LIMIT`,
    /// ignoring a step that would leave the map. With no such path it tries one step
    /// straight toward the target.
    pub open spec fn path_followed(self, id: int, target: int, path: Path) -> GameView {
        if !path.empty && path.len < PATH_LIMIT {
            match path.next {
                Some((x, y)) => if on_map(x as int, y as int) {
                    self.with_object(id, ObjectView { x: x as int, y: y as int, ..self.objects[id] })
                } else {
                    self
                },
                None => self,
            }
        } else {
            self.moved_towards(id, self.objects[target].x, self.objects[target].y)
        }
    }

    /// Whether the turn of actor `id` earns the actor experience: it attacks the player
    /// and kills.
    pub open spec fn turn_rewards(self, id: int) -> bool {
        self.wants_attack(id) && self.attack_rewards(id, 0)
    }

    /// The state after the turn of actor `id`, who stumbles by `direction` if it is
    /// confused. A basic actor attacks the player if it wants to; where it wants to walk,
    /// that is left to `move_astar`.
    pub open spec fn ai_turned(self, id: int, direction: (i32, i32)) -> GameView {
        let actor = self.objects[id];
        match actor.ai {
            None => self,
            Some(ai) => if ai.stumbles() {
                let moved = self.moved_by(id, direction.0 as int, direction.1 as int);
                moved.with_object(id, ObjectView { ai: Some(ai.turned()), ..moved.objects[id] })
            } else if ai.recovers() {
                GameView {
                    objects: self.objects.update(id, ObjectView { ai: Some(ai.turned()), ..actor }),
                    log: logged(self.log, self.log_limit, recovered_line(actor.name)),
                    ..self
                }
            } else if self.wants_attack(id) {
                self.attacked(id, 0)
            } else {
                self
            },
        }
    }
}

impl GameView {
    /// The state after actor `id` took one turn for each of the `directions`, in their
    /// order, stumbling by the direction of the turn where it was confused.
    pub open spec fn turns_taken(self, id: int, directions: Seq<(i32, i32)>) -> GameView
        decreases directions.len(),
    {
        if directions.len() == 0 {
            self
        } else {
            self.turns_taken(id, directions.drop_last()).ai_turned(id, directions.last())
        }
    }
}

/// The turn of an actor leaves the map, what was explored of it, the inventory, the
/// dungeon level and the number of objects as they were.
pub proof fn lemma_turn_keeps(state: GameView, id: int, direction: (i32, i32))
    requires
        0 <= id < state.objects.len(),
    ensures
        state.ai_turned(id, direction).map == state.map,
        state.ai_turned(id, direction).inventory == state.inventory,
        state.ai_turned(id, direction).dungeon_level == state.dungeon_level,
        state.ai_turned(id, direction).objects.len() == state.objects.len(),
        state.ai_turned(id, direction).log_limit == state.log_limit,
{
}

/// What the turn does to the decision state and to the log: the actor has the decision
/// state that follows its own. A confused actor that stumbles keeps its name and writes
/// nothing; one that recovers writes the one line that says so.
pub proof fn lemma_turn_follows(state: GameView, id: int, direction: (i32, i32))
    requires
        0 < id < state.objects.len(),
        state.objects[id].ai is Some,
    ensures
        state.ai_turned(id, direction).objects[id].ai == Some(state.objects[id].ai->0.turned()),
        state.ai_turned(id, direction).objects[id].name == state.objects[id].name,
        state.objects[id].ai->0.stumbles() ==> state.ai_turned(id, direction).log == state.log,
        state.objects[id].ai->0.recovers() ==> state.ai_turned(id, direction).log == logged(
            state.log,
            state.log_limit,
            recovered_line(state.objects[id].name),
        ),
{
    let ai = state.objects[id].ai->0;
    if !ai.stumbles() && !ai.recovers() && state.wants_attack(id) {
        assert(ai == Ai::Basic);
    }
}

/// A basic actor that wants to attack the player does so and does not move; what the
/// attack does to the two is what `lemma_attack_resolved` says. A basic actor that does
/// not want to attack changes nothing in its turn.
pub proof fn lemma_basic_turn(state: GameView, id: int, direction: (i32, i32))
    requires
        0 < id < state.objects.len(),
        state.objects[id].ai == Some(Ai::Basic),
    ensures
        state.wants_attack(id) ==> state.ai_turned(id, direction) == state.attacked(id, 0),
        !state.wants_attack(id) ==> state.ai_turned(id, direction) == state,
        state.wants_attack(id) ==> (state.objects[0].fighter matches Some(f) && f.hp > 0),
{
}

/// An actor that is confused for `n` more turns stumbles in each of its next `n + 1`
/// turns, in which the log receives no line from it. The turn after those restores the
/// decision state it had before and writes exactly one line, which says that it is no
/// longer confused.
pub proof fn lemma_confusion_wears_off(
    state: GameView,
    id: int,
    previous: Ai,
    n: i32,
    directions: Seq<(i32, i32)>,
)
    requires
        0 < id < state.objects.len(),
        state.objects[id].ai == Some(Ai::Confused { previous_ai: Box::new(previous), num_turns: n }),
        n >= 0,
        directions.len() <= n + 2,
    ensures
        state.turns_taken(id, directions).objects.len() == state.objects.len(),
        state.turns_taken(id, directions).objects[id].name == state.objects[id].name,
        state.turns_taken(id, directions).log_limit == state.log_limit,
        state.turns_taken(id, directions).map == state.map,
        directions.len() <= n + 1 ==> state.turns_taken(id, directions).objects[id].ai == Some(
            Ai::Confused { previous_ai: Box::new(previous), num_turns: (n - directions.len()) as i32 },
        ) && state.turns_taken(id, directions).log == state.log,
        directions.len() == n + 2 ==> state.turns_taken(id, directions).objects[id].ai == Some(previous)
            && state.turns_taken(id, directions).log == logged(
            state.log,
            state.log_limit,
            recovered_line(state.objects[id].name),
        ),
    decreases directions.len(),
{
    if directions.len() > 0 {
        let earlier = directions.drop_last();
        lemma_confusion_wears_off(state, id, previous, n, earlier);
        let before = state.turns_taken(id, earlier);
        lemma_turn_keeps(before, id, directions.last());
        lemma_turn_follows(before, id, directions.last());
        let ai = before.objects[id].ai->0;
        assert(ai == (Ai::Confused { previous_ai: Box::new(previous), num_turns: (n - earlier.len()) as i32 }));
        if directions.len() <= n + 1 {
            assert(ai.stumbles());
        } else {
            assert(ai.recovers());
            assert(ai.turned() == previous);
        }
    }
}

impl GameState {
    /// Whether the player sees the tile `(x, y)`.
    pub fn is_in_fov(&self, x: i32, y: i32) -> (seen: bool)
        requires
            self.wf(),
        ensures
            seen == self@.in_fov(x as int, y as int),
    {
        if x < 0 || x >= MAP_WIDTH || y < 0 || y >= MAP_HEIGHT {
            return false;
        }
        assert(self.fov@[x as int].len() == MAP_HEIGHT);
        self.fov[x as usize][y as usize]
    }

    /// The map as the field-of-view casting needs it: for each tile whether one sees
    /// through it and whether one walks over it.
    pub fn fov_cells(&self) -> (cells: Vec<Vec<Cell>>)
        requires
            self.wf(),
        ensures
            covers_map(cells@),
            forall|x: int, y: int| on_map(x, y) ==> #[trigger] cell(cells@, x, y) == sight_cell(tile(self.map@, x, y)),
    {
        let mut cells: Vec<Vec<Cell>> = Vec::new();
        let mut x: usize = 0;
        while x < MAP_WIDTH as usize
            invariant
                self.wf(),
                x <= MAP_WIDTH,
                cells@.len() == x,
                forall|cx: int| 0 <= cx < x ==> (#[trigger] cells@[cx]).len() == MAP_HEIGHT,
                forall|cx: int, cy: int|
                    0 <= cx < x && 0 <= cy < MAP_HEIGHT ==> #[trigger] cell(cells@, cx, cy) == sight_cell(
                        tile(self.map@, cx, cy),
                    ),
            decreases MAP_WIDTH - x,
        {
            let mut column: Vec<Cell> = Vec::new();
            let mut y: usize = 0;
            assert(self.map@[x as int].len() == MAP_HEIGHT);
            while y < MAP_HEIGHT as usize
                invariant
                    x < MAP_WIDTH,
                    self.map@.len() == MAP_WIDTH,
                    self.map@[x as int].len() == MAP_HEIGHT,
                    y <= MAP_HEIGHT,
                    column@.len() == y,
                    forall|cy: int| 0 <= cy < y ==> #[trigger] column@[cy] == sight_cell(tile(self.map@, x as int, cy)),
                decreases MAP_HEIGHT - y,
            {
                let t = self.map[x][y];
                column.push(Cell { transparent: !t.block_sight, walkable: !t.blocked });
                y = y + 1;
            }
            let ghost before = cells@;
            cells.push(column);
            assert forall|cx: int, cy: int| 0 <= cx < x + 1 && 0 <= cy < MAP_HEIGHT implies #[trigger] cell(
                cells@,
                cx,
                cy,
            ) == sight_cell(tile(self.map@, cx, cy)) by {
                if cx < x {
                    assert(cell(before, cx, cy) == sight_cell(tile(self.map@, cx, cy)));
                }
            }
            x = x + 1;
        }
        cells
    }

    /// The map as the search for a path from object `id` to object `target_id` needs
    /// it: the tiles as the field-of-view casting sees them, but with a wall wherever
    /// another blocking object stands, so that actors walk around each other.
    pub fn path_cells(&self, id: usize, target_id: usize) -> (cells: Vec<Vec<Cell>>)
        requires
            self.wf(),
        ensures
            covers_map(cells@),
            forall|x: int, y: int|
                on_map(x, y) ==> #[trigger] cell(cells@, x, y) == self@.path_cell(id as int, target_id as int, x, y),
    {
        let mut cells = self.fov_cells();
        let mut i: usize = 0;
        while i < self.objects.len()
            invariant
                self.wf(),
                i <= self.objects@.len(),
                covers_map(cells@),
                forall|x: int, y: int|
                    on_map(x, y) ==> #[trigger] cell(cells@, x, y) == (if self@.in_the_way(
                        id as int,
                        target_id as int,
                        i as int,
                        x,
                        y,
                    ) {
                        Cell { transparent: true, walkable: false }
                    } else {
                        sight_cell(tile(self.map@, x, y))
                    }),
            decreases self.objects@.len() - i,
        {
            let ghost before = cells@;
            let object = &self.objects[i];
            assert(object_ok(self@.objects[i as int]));
            if object.blocks && i != id && i != target_id {
                assert(cells@[object.x as int].len() == MAP_HEIGHT);
                cells[object.x as usize][object.y as usize] = Cell { transparent: true, walkable: false };
            }
            proof {
                assert(covers_map(cells@)) by {
                    assert forall|x: int| 0 <= x < MAP_WIDTH implies (#[trigger] cells@[x]).len() == MAP_HEIGHT by {
                        assert(before[x].len() == MAP_HEIGHT);
                    }
                }
                assert forall|x: int, y: int| on_map(x, y) implies #[trigger] cell(cells@, x, y) == (
                if self@.in_the_way(id as int, target_id as int, i + 1, x, y) {
                    Cell { transparent: true, walkable: false }
                } else {
                    sight_cell(tile(self.map@, x, y))
                }) by {
                    let here = i != id && i != target_id && blocks_at(self@.objects[i as int], x, y);
                    assert(cell(before, x, y) == (if self@.in_the_way(id as int, target_id as int, i as int, x, y) {
                        Cell { transparent: true, walkable: false }
                    } else {
                        sight_cell(tile(self.map@, x, y))
                    }));
                    assert(self@.in_the_way(id as int, target_id as int, i + 1, x, y) == (here || self@.in_the_way(
                        id as int,
                        target_id as int,
                        i as int,
                        x,
                        y,
                    ))) by {
                        if self@.in_the_way(id as int, target_id as int, i + 1, x, y) {
                            let k = choose|k: int|
                                0 <= k < i + 1 && k != id && k != target_id && blocks_at(
                                    #[trigger] self@.objects[k],
                                    x,
                                    y,
                                );
                            if k < i {
                                assert(self@.in_the_way(id as int, target_id as int, i as int, x, y));
                            }
                        }
                        if self@.in_the_way(id as int, target_id as int, i as int, x, y) {
                            let k = choose|k: int|
                                0 <= k < i && k != id && k != target_id && blocks_at(#[trigger] self@.objects[k], x, y);
                            assert(blocks_at(self@.objects[k], x, y));
                        }
                        if here {
                            assert(blocks_at(self@.objects[i as int], x, y));
                        }
                    }
                }
            }
            i = i + 1;
        }
        cells
    }

    /// Object `id` acts on the path that a search over `path_cells` found toward object
    /// `target_id`: it takes the first step of a path that is not empty and shorter than
    /// `PATH_LIMIT`; a step off the map is ignored. With no such path, say because a
    /// monster blocks the corridor, it tries one step straight toward the target.
    pub fn move_astar(&mut self, id: usize, target_id: usize, path: Path)
        requires
            old(self).wf(),
            id < old(self).objects@.len(),
            target_id < old(self).objects@.len(),
        ensures
            final(self).wf(),
            final(self)@ == old(self)@.path_followed(id as int, target_id as int, path),
    {
        if !path.empty && path.len < PATH_LIMIT {
            match path.next {
                Some((x, y)) => {
                    if 0 <= x && x < MAP_WIDTH && 0 <= y && y < MAP_HEIGHT {
                        self.objects[id].set_pos(x, y);
                        proof {
                            assert(self.objects@ =~= old(self).objects@.update(id as int, self.objects@[id as int]));
                            lemma_views_update(old(self).objects@, id as int, self.objects@[id as int]);
                            assert forall|i: int| 0 <= i < self@.objects.len() implies object_ok(
                                #[trigger] self@.objects[i],
                            ) by {
                                assert(object_ok(old(self)@.objects[i]));
                            }
                        }
                    }
                },
                None => {},
            }
        } else {
            let (target_x, target_y) = self.objects[target_id].pos();
            self.move_towards(id, target_x, target_y);
        }
    }

    /// A basic monster takes its turn. If the player sees it, it sees the player: it
    /// attacks a living player that stands next to it, and asks to walk toward a player
    /// who is further away.
    pub fn ai_basic(&mut self, monster_id: usize) -> (turn: Turn)
        requires
            old(self).wf(),
            old(self)@.turn_rewards(monster_id as int) ==> old(self)@.xp_fits(),
            0 < monster_id < old(self).objects@.len(),
            old(self)@.objects[monster_id as int].ai == Some(Ai::Basic),
        ensures
            final(self).wf(),
            final(self)@ == old(self)@.ai_turned(monster_id as int, (0, 0)),
            turn == (if old(self)@.wants_chase(monster_id as int) {
                Turn::Chase
            } else {
                Turn::Done
            }),
    {
        assert(object_ok(self@.objects[monster_id as int]));
        assert(object_ok(self@.objects[0]));
        let (monster_x, monster_y) = self.objects[monster_id].pos();
        if self.is_in_fov(monster_x, monster_y) {
            if self.objects[monster_id].distance_squared_to(&self.objects[PLAYER]) > 1 {
                return Turn::Chase;
            }
            let alive = match self.objects[PLAYER].fighter {
                Some(f) => f.hp > 0,
                None => false,
            };
            if alive {
                self.attack(monster_id, PLAYER);
            }
        }
        Turn::Done
    }

    /// A confused monster takes its turn. While it has turns of confusion left it
    /// stumbles by `direction`, if the tile there is free, and has one turn less. After
    /// that it goes back to what it was before, which a line in the log announces.
    pub fn ai_confused(&mut self, monster_id: usize, previous_ai: Box<Ai>, num_turns: i32, direction: (
        i32,
        i32,
    )) -> (ai: Ai)
        requires
            old(self).wf(),
            monster_id < old(self).objects@.len(),
        ensures
            final(self).wf(),
            ai == (Ai::Confused { previous_ai, num_turns }).turned(),
            num_turns >= 0 ==> final(self)@ == old(self)@.moved_by(
                monster_id as int,
                direction.0 as int,
                direction.1 as int,
            ),
            num_turns < 0 ==> final(self)@ == (GameView {
                log: logged(
                    old(self)@.log,
                    old(self)@.log_limit,
                    recovered_line(old(self)@.objects[monster_id as int].name),
                ),
                ..old(self)@
            }),
    {
        if num_turns >= 0 {
            self.move_object_by(monster_id, direction.0, direction.1);
            Ai::Confused { previous_ai, num_turns: num_turns - 1 }
        } else {
            let mut text = String::from_str("The ");
            text.append(self.objects[monster_id].name.as_str());
            text.append(" is no longer confused!");
            self.messages.message(text, red());
            *previous_ai
        }
    }

    /// The turn of actor `monster_id`, who stumbles by `direction` if it is confused.
    pub fn ai_step(&mut self, monster_id: usize, direction: (i32, i32)) -> (turn: Turn)
        requires
            old(self).wf(),
            old(self)@.turn_rewards(monster_id as int) ==> old(self)@.xp_fits(),
            0 < monster_id < old(self).objects@.len(),
        ensures
            final(self).wf(),
            final(self)@ == old(self)@.ai_turned(monster_id as int, direction),
            final(self)@.map == old(self)@.map,
            final(self)@.inventory == old(self)@.inventory,
            final(self)@.dungeon_level == old(self)@.dungeon_level,
            final(self)@.objects.len() == old(self)@.objects.len(),
            turn == (if old(self)@.wants_chase(monster_id as int) {
                Turn::Chase
            } else {
                Turn::Done
            }),
    {
        let ghost before = self.objects@;
        match self.objects[monster_id].ai.take() {
            None => {
                proof {
                    assert(self.objects@ =~= before.update(monster_id as int, self.objects@[monster_id as int]));
                    lemma_views_update(before, monster_id as int, self.objects@[monster_id as int]);
                    assert(self@.objects =~= old(self)@.objects);
                }
                Turn::Done
            },
            Some(Ai::Basic) => {
                self.objects[monster_id].ai = Some(Ai::Basic);
                proof {
                    assert(self.objects@ =~= before.update(monster_id as int, self.objects@[monster_id as int]));
                    lemma_views_update(before, monster_id as int, self.objects@[monster_id as int]);
                    assert(self@.objects =~= old(self)@.objects);
                }
                self.ai_basic(monster_id)
            },
            Some(Ai::Confused { previous_ai, num_turns }) => {
                let ghost taken = self.objects@;
                proof {
                    assert(taken =~= before.update(monster_id as int, taken[monster_id as int]));
                    lemma_views_update(before, monster_id as int, taken[monster_id as int]);
                    assert forall|i: int| 0 <= i < self@.objects.len() implies object_ok(
                        #[trigger] self@.objects[i],
                    ) by {
                        assert(object_ok(old(self)@.objects[i]));
                    }
                }
                let ghost mid = self@;
                let new_ai = self.ai_confused(monster_id, previous_ai, num_turns, direction);
                let ghost after = self.objects@;
                self.objects[monster_id].ai = Some(new_ai);
                proof {
                    assert(self.objects@ =~= after.update(monster_id as int, self.objects@[monster_id as int]));
                    lemma_views_update(after, monster_id as int, self.objects@[monster_id as int]);
                    lemma_confused_step(old(self)@, mid, monster_id as int, direction);
                    assert(self@.objects =~= old(self)@.ai_turned(monster_id as int, direction).objects);
                    assert forall|i: int| 0 <= i < self@.objects.len() implies object_ok(
                        #[trigger] self@.objects[i],
                    ) by {
                        assert(object_ok(old(self)@.objects[i]));
                    }
                }
                Turn::Done
            },
        }
    }

    /// Lets actor `monster_id` take its turn. A confused actor stumbles in a direction
    /// drawn at random; nothing else is left to chance.
    pub fn ai_take_turn(&mut self, monster_id: usize, rng: &mut ThreadRng) -> (turn: Turn)
        requires
            old(self).wf(),
            old(self)@.turn_rewards(monster_id as int) ==> old(self)@.xp_fits(),
            0 < monster_id < old(self).objects@.len(),
        ensures
            final(self).wf(),
            exists|i: int|
                0 <= i < directions().len() && final(self)@ == #[trigger] old(self)@.ai_turned(
                    monster_id as int,
                    directions()[i],
                ),
            final(self)@.map == old(self)@.map,
            final(self)@.inventory == old(self)@.inventory,
            final(self)@.dungeon_level == old(self)@.dungeon_level,
            final(self)@.objects.len() == old(self)@.objects.len(),
            turn == (if old(self)@.wants_chase(monster_id as int) {
                Turn::Chase
            } else {
                Turn::Done
            }),
    {
        let confused = match &self.objects[monster_id].ai {
            Some(Ai::Confused { num_turns, .. }) => *num_turns >= 0,
            _ => false,
        };
        let direction = if confused {
            let possible_movements = vec![(0i32, 0i32), (1i32, 0i32), (-1i32, 0i32), (0i32, 1i32), (0i32, -1i32)];
            assert(possible_movements@ =~= directions());
            match pick(rng, possible_movements.as_slice()) {
                Some(direction) => *direction,
                None => (0, 0),
            }
        } else {
            (0, 0)
        };
        assert(directions()[0] == (0i32, 0i32));
        let ghost i = choose|i: int| 0 <= i < directions().len() && directions()[i] == direction;
        let turn = self.ai_step(monster_id, direction);
        assert(self@ == old(self)@.ai_turned(monster_id as int, directions()[i]));
        turn
    }
}

/// The state in which a confused actor had its decision state taken out moves as the
/// state in which it still has it.
proof fn lemma_confused_step(before: GameView, taken: GameView, id: int, direction: (i32, i32))
    requires
        0 <= id < before.objects.len(),
        taken == before.with_object(id, ObjectView { ai: None, ..before.objects[id] }),
    ensures
        taken.moved_by(id, direction.0 as int, direction.1 as int).objects.update(
            id,
            ObjectView {
                ai: before.objects[id].ai,
                ..taken.moved_by(id, direction.0 as int, direction.1 as int).objects[id]
            },
        ) == before.moved_by(id, direction.0 as int, direction.1 as int).objects,
{
    let x = before.objects[id].x + direction.0;
    let y = before.objects[id].y + direction.1;
    assert(occupied(taken.objects, x, y) == occupied(before.objects, x, y)) by {
        if occupied(before.objects, x, y) {
            let i = choose|i: int| 0 <= i < before.objects.len() && blocks_at(before.objects[i], x, y);
            assert(blocks_at(taken.objects[i], x, y));
        }
        if occupied(taken.objects, x, y) {
            let i = choose|i: int| 0 <= i < taken.objects.len() && blocks_at(taken.objects[i], x, y);
            assert(blocks_at(before.objects[i], x, y));
        }
    }
    assert(taken.moved_by(id, direction.0 as int, direction.1 as int).objects.update(
        id,
        ObjectView {
            ai: before.objects[id].ai,
            ..taken.moved_by(id, direction.0 as int, direction.1 as int).objects[id]
        },
    ) =~= before.moved_by(id, direction.0 as int, direction.1 as int).objects);
}

} // verus!
