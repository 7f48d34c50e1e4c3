//! Tiles, rooms and tunnels, level-scaled tables, and the generation of a level with
//! its monsters and items.

use vstd::prelude::*;
use crate::color::{darker_green, desaturated_green, light_yellow, sky, violet, white, Color};
use crate::generator::{laid_out, room_fits, Layout};
use crate::reach::open_at;
use crate::equipment::{Equippable, Slot};
use crate::object::{
    lemma_views_push, lemma_views_subrange, lemma_views_update, views, Ai, DeathCallback,
    Fighter, Item, Object, ObjectView,
};
use crate::rng::{gen_bool, gen_range, total_weight, weighted_index};
use rand::thread_rng;
use rand::ThreadRng;

verus! {

pub const MAP_WIDTH: i32 = 100;

pub const MAP_HEIGHT: i32 = 100;

pub const ROOM_MAX_SIZE: i32 = 10;

pub const ROOM_MIN_SIZE: i32 = 6;

pub const MAX_ROOMS: i32 = 30;

/// How often a place is drawn for one object before the object is left out.
pub const PLACEMENT_TRIES: i32 = 100;

/// One step of a level-scaled table: from dungeon level `level` on, the table yields `value`.
#[derive(Clone, Copy, Debug)]
pub struct Transition {
    pub level: u32,
    pub value: u32,
}

/// The value a table yields at `level`: that of its last entry whose threshold does not
/// exceed `level`, or 0 if every threshold does.
pub open spec fn table_value(table: Seq<Transition>, level: u32) -> u32
    decreases table.len(),
{
    if table.len() == 0 {
        0
    } else if table.last().level <= level {
        table.last().value
    } else {
        table_value(table.drop_last(), level)
    }
}

/// Whether the thresholds of a table ascend.
pub open spec fn ascending(table: Seq<Transition>) -> bool {
    forall|i: int, j: int| 0 <= i < j < table.len() ==> table[i].level < table[j].level
}

/// In an ascending table the value at `level` belongs to the highest threshold that does
/// not exceed `level`; where no threshold applies, the value is 0.
pub proof fn lemma_table_value(table: Seq<Transition>, level: u32)
    ensures
        (forall|i: int| 0 <= i < table.len() ==> table[i].level > level) ==> table_value(table, level)
            == 0,
        forall|k: int|
            0 <= k < table.len() && table[k].level <= level && (forall|j: int|
                k < j < table.len() ==> table[j].level > level) ==> table_value(table, level)
                == table[k].value,
        ascending(table) ==> forall|k: int|
            0 <= k < table.len() && table[k].level <= level && (k + 1 < table.len() ==> table[k
                + 1].level > level) ==> table_value(table, level) == #[trigger] table[k].value,
    decreases table.len(),
{
    if table.len() > 0 {
        let rest = table.drop_last();
        lemma_table_value(rest, level);
        assert(ascending(table) ==> ascending(rest));
        assert forall|k: int|
            0 <= k < table.len() && table[k].level <= level && (forall|j: int|
                k < j < table.len() ==> table[j].level > level) implies table_value(table, level)
            == table[k].value by {
            if k < table.len() - 1 {
                assert(table[table.len() - 1].level > level);
                assert(rest[k] == table[k]);
                assert forall|j: int| k < j < rest.len() implies rest[j].level > level by {
                    assert(rest[j] == table[j]);
                }
            }
        }
        if ascending(table) {
            assert forall|k: int|
                0 <= k < table.len() && table[k].level <= level && (k + 1 < table.len() ==> table[k
                    + 1].level > level) implies table_value(table, level) == #[trigger] table[k].value by {
                if k < table.len() - 1 {
                    assert(table[k + 1].level <= table[table.len() - 1].level);
                    assert(rest[k] == table[k]);
                    if k + 1 < rest.len() {
                        assert(rest[k + 1] == table[k + 1]);
                    }
                }
            }
        }
        assert forall|i: int| 0 <= i < rest.len() implies rest[i] == table[i] by {}
    }
}

/// Returns the value that a level-scaled table yields at `level`. The table states
/// which value holds from each level on; below the first of them the value is 0.
pub fn from_dungeon_level(table: &[Transition], level: u32) -> (value: u32)
    ensures
        value == table_value(table@, level),
{
    let mut i: usize = table.len();
    assert(table@.subrange(0, i as int) =~= table@);
    while i > 0
        invariant
            i <= table.len(),
            table_value(table@, level) == table_value(table@.subrange(0, i as int), level),
        decreases i,
    {
        i = i - 1;
        let ghost prefix = table@.subrange(0, i + 1);
        assert(prefix.last() == table@[i as int]);
        assert(prefix.drop_last() =~= table@.subrange(0, i as int));
        if level >= table[i].level {
            return table[i].value;
        }
    }
    assert(table@.subrange(0, 0).len() == 0);
    0
}

/// One cell of the dungeon grid.
#[derive(Clone, Copy, Debug, PartialEq, Eq, Structural)]
pub struct Tile {
    pub blocked: bool,
    pub block_sight: bool,
    pub explored: bool,
}

impl Tile {
    /// Open floor that was not seen yet.
    #[verifier::allow_in_spec]
    pub fn empty() -> Tile
        returns
            (Tile { blocked: false, block_sight: false, explored: false }),
    {
        Tile { blocked: false, block_sight: false, explored: false }
    }

    /// Solid rock that was not seen yet.
    #[verifier::allow_in_spec]
    pub fn wall() -> Tile
        returns
            (Tile { blocked: true, block_sight: true, explored: false }),
    {
        Tile { blocked: true, block_sight: true, explored: false }
    }
}

/// Whether `(x, y)` names a tile of the grid.
pub open spec fn on_grid(map: Seq<Vec<Tile>>, x: int, y: int) -> bool {
    0 <= x < map.len() && 0 <= y < map[x].len()
}

/// Whether the grid has `width` columns of `height` tiles each.
pub open spec fn has_size(map: Seq<Vec<Tile>>, width: int, height: int) -> bool {
    &&& map.len() == width
    &&& forall|x: int| 0 <= x < width ==> (#[trigger] map[x]).len() == height
}

/// Whether two grids have the same shape.
pub open spec fn same_shape(a: Seq<Vec<Tile>>, b: Seq<Vec<Tile>>) -> bool {
    &&& a.len() == b.len()
    &&& forall|x: int| 0 <= x < a.len() ==> (#[trigger] a[x]).len() == b[x].len()
}

/// Whether some blocking object stands on `(x, y)`.
pub open spec fn occupied(objects: Seq<ObjectView>, x: int, y: int) -> bool {
    exists|i: int| 0 <= i < objects.len() && blocks_at(objects[i], x, y)
}

/// Whether `object` blocks the tile `(x, y)`.
pub open spec fn blocks_at(object: ObjectView, x: int, y: int) -> bool {
    object.blocks && object.x == x && object.y == y
}

/// Whether the tile `(x, y)` cannot be entered: it is rock, or a blocking object stands on it.
pub fn is_blocked(x: i32, y: i32, map: &Vec<Vec<Tile>>, objects: &[Object]) -> (blocked: bool)
    requires
        on_grid(map@, x as int, y as int),
    ensures
        blocked == (tile(map@, x as int, y as int).blocked || occupied(views(objects@), x as int, y as int)),
{
    if map[x as usize][y as usize].blocked {
        return true;
    }
    let mut i: usize = 0;
    while i < objects.len()
        invariant
            i <= objects.len(),
            forall|k: int| 0 <= k < i ==> !blocks_at(#[trigger] views(objects@)[k], x as int, y as int),
        decreases objects.len() - i,
    {
        if objects[i].blocks && objects[i].x == x && objects[i].y == y {
            assert(blocks_at(views(objects@)[i as int], x as int, y as int));
            return true;
        }
        i = i + 1;
    }
    false
}

/// A rectangle on the map, used for rooms. Its border tiles stay rock; the tiles
/// strictly inside it are the room.
#[derive(Clone, Copy, Debug, PartialEq, Eq, Structural)]
pub struct Rect {
    pub x1: i32,
    pub y1: i32,
    pub x2: i32,
    pub y2: i32,
}

/// Half of `sum`, rounded toward zero.
pub open spec fn half(sum: int) -> int {
    if sum >= 0 {
        sum / 2
    } else {
        -((-sum) / 2)
    }
}

impl Rect {
    /// The rectangle with corner `(x, y)` and the given extent.
    pub fn new(x: i32, y: i32, width: i32, height: i32) -> (rect: Rect)
        requires
            i32::MIN <= x + width <= i32::MAX,
            i32::MIN <= y + height <= i32::MAX,
        ensures
            rect == (Rect { x1: x, y1: y, x2: (x + width) as i32, y2: (y + height) as i32 }),
    {
        Rect { x1: x, y1: y, x2: x + width, y2: y + height }
    }

    /// The centre of the rectangle in the model.
    pub open spec fn center_spec(self) -> (int, int) {
        (half(self.x1 + self.x2), half(self.y1 + self.y2))
    }

    /// The tile at the centre of the rectangle.
    pub fn center(&self) -> (c: (i32, i32))
        ensures
            c.0 == self.center_spec().0,
            c.1 == self.center_spec().1,
    {
        let center_x = (self.x1 as i64 + self.x2 as i64) / 2;
        let center_y = (self.y1 as i64 + self.y2 as i64) / 2;
        (center_x as i32, center_y as i32)
    }

    /// Whether the two rectangles share a tile, borders included.
    pub open spec fn intersects_spec(self, other: Rect) -> bool {
        (self.x1 <= other.x2) && (self.x2 >= other.x1) && (self.y1 <= other.y2) && (self.y2
            >= other.y1)
    }

    /// Whether this rectangle and `other` share a tile, borders included.
    pub fn intersects(&self, other: &Rect) -> (overlap: bool)
        ensures
            overlap == self.intersects_spec(*other),
    {
        (self.x1 <= other.x2) && (self.x2 >= other.x1) && (self.y1 <= other.y2) && (self.y2
            >= other.y1)
    }

    /// Whether `(x, y)` lies strictly inside the rectangle.
    pub open spec fn contains(self, x: int, y: int) -> bool {
        self.x1 < x < self.x2 && self.y1 < y < self.y2
    }

    /// Whether `(x, y)` lies in the rectangle, borders included.
    pub open spec fn covers(self, x: int, y: int) -> bool {
        self.x1 <= x <= self.x2 && self.y1 <= y <= self.y2
    }
}

/// Two rectangles intersect exactly if some tile lies in both, borders included.
pub proof fn lemma_intersects_shared_tile(a: Rect, b: Rect)
    requires
        a.x1 <= a.x2,
        a.y1 <= a.y2,
        b.x1 <= b.x2,
        b.y1 <= b.y2,
    ensures
        a.intersects_spec(b) <==> exists|x: int, y: int| a.covers(x, y) && b.covers(x, y),
{
    if a.intersects_spec(b) {
        let x = if a.x1 >= b.x1 { a.x1 as int } else { b.x1 as int };
        let y = if a.y1 >= b.y1 { a.y1 as int } else { b.y1 as int };
        assert(a.covers(x, y) && b.covers(x, y));
    }
}

/// The tile at `(x, y)`.
pub open spec fn tile(map: Seq<Vec<Tile>>, x: int, y: int) -> Tile {
    map[x][y]
}

/// The smaller of two numbers.
pub open spec fn lower(a: int, b: int) -> int {
    if a <= b {
        a
    } else {
        b
    }
}

/// The greater of two numbers.
pub open spec fn upper(a: int, b: int) -> int {
    if a <= b {
        b
    } else {
        a
    }
}

/// Carves a room: every tile strictly inside `room` becomes open floor, and the border
/// of the rectangle is left as it is.
pub fn create_room(room: Rect, map: &mut Vec<Vec<Tile>>)
    requires
        room.x1 + 1 < room.x2 && room.y1 + 1 < room.y2 ==> {
            &&& 0 <= room.x1 + 1
            &&& room.x2 <= old(map)@.len()
            &&& 0 <= room.y1 + 1
            &&& forall|x: int| room.x1 < x < room.x2 ==> room.y2 <= (#[trigger] old(map)@[x]).len()
        },
    ensures
        same_shape(old(map)@, final(map)@),
        forall|x: int, y: int|
            on_grid(final(map)@, x, y) ==> #[trigger] tile(final(map)@, x, y) == (if room.contains(
                x,
                y,
            ) {
                Tile::empty()
            } else {
                tile(old(map)@, x, y)
            }),
{
    if room.x1 as i64 + 1 >= room.x2 as i64 || room.y1 as i64 + 1 >= room.y2 as i64 {
        return ;
    }
    let mut x: i32 = room.x1 + 1;
    while x < room.x2
        invariant
            room.x1 + 1 < room.x2,
            room.y1 + 1 < room.y2,
            0 <= room.x1 + 1 <= x <= room.x2 <= old(map)@.len(),
            0 <= room.y1 + 1,
            forall|cx: int| room.x1 < cx < room.x2 ==> room.y2 <= (#[trigger] old(map)@[cx]).len(),
            same_shape(old(map)@, map@),
            forall|cx: int, cy: int|
                on_grid(map@, cx, cy) ==> #[trigger] tile(map@, cx, cy) == (if room.contains(cx, cy)
                    && cx < x {
                    Tile::empty()
                } else {
                    tile(old(map)@, cx, cy)
                }),
        decreases room.x2 - x,
    {
        let mut y: i32 = room.y1 + 1;
        while y < room.y2
            invariant
                room.x1 < x < room.x2 <= old(map)@.len(),
                0 <= room.x1 + 1,
                0 <= room.y1 + 1 <= y <= room.y2 <= old(map)@[x as int].len(),
                same_shape(old(map)@, map@),
                forall|cx: int, cy: int|
                    on_grid(map@, cx, cy) ==> #[trigger] tile(map@, cx, cy) == (if room.contains(
                        cx,
                        cy,
                    ) && (cx < x || (cx == x && cy < y)) {
                        Tile::empty()
                    } else {
                        tile(old(map)@, cx, cy)
                    }),
            decreases room.y2 - y,
        {
            let ghost before = map@;
            map[x as usize][y as usize] = Tile::empty();
            assert forall|cx: int, cy: int| on_grid(map@, cx, cy) implies #[trigger] tile(
                map@,
                cx,
                cy,
            ) == (if room.contains(cx, cy) && (cx < x || (cx == x && cy < y + 1)) {
                Tile::empty()
            } else {
                tile(old(map)@, cx, cy)
            }) by {
                assert(on_grid(before, cx, cy));
                assert(tile(before, cx, cy) == before[cx][cy]);
            }
            y = y + 1;
        }
        x = x + 1;
    }
}

/// Carves a horizontal tunnel: the tiles of row `y` from column `x1` to column `x2`,
/// both included and in either order, become open floor.
pub fn create_h_tunnel(x1: i32, x2: i32, y: i32, map: &mut Vec<Vec<Tile>>)
    requires
        forall|x: int| lower(x1 as int, x2 as int) <= x <= upper(x1 as int, x2 as int) ==> on_grid(
            old(map)@,
            x,
            y as int,
        ),
    ensures
        same_shape(old(map)@, final(map)@),
        forall|cx: int, cy: int|
            on_grid(final(map)@, cx, cy) ==> #[trigger] tile(final(map)@, cx, cy) == (if cy == y
                && lower(x1 as int, x2 as int) <= cx <= upper(x1 as int, x2 as int) {
                Tile::empty()
            } else {
                tile(old(map)@, cx, cy)
            }),
{
    let start: i32 = if x1 <= x2 { x1 } else { x2 };
    let end: i32 = if x1 <= x2 { x2 } else { x1 };
    assert(on_grid(old(map)@, start as int, y as int));
    assert(on_grid(old(map)@, end as int, y as int));
    let mut x: i64 = start as i64;
    while x <= end as i64
        invariant
            start == lower(x1 as int, x2 as int),
            end == upper(x1 as int, x2 as int),
            0 <= start <= x <= end + 1,
            forall|cx: int| start <= cx <= end ==> on_grid(old(map)@, cx, y as int),
            same_shape(old(map)@, map@),
            forall|cx: int, cy: int|
                on_grid(map@, cx, cy) ==> #[trigger] tile(map@, cx, cy) == (if cy == y && start <= cx
                    < x {
                    Tile::empty()
                } else {
                    tile(old(map)@, cx, cy)
                }),
        decreases end + 1 - x,
    {
        let ghost before = map@;
        assert(on_grid(old(map)@, x as int, y as int));
        map[x as usize][y as usize] = Tile::empty();
        assert forall|cx: int, cy: int| on_grid(map@, cx, cy) implies #[trigger] tile(map@, cx, cy) == (
        if cy == y && start <= cx < x + 1 {
            Tile::empty()
        } else {
            tile(old(map)@, cx, cy)
        }) by {
            assert(on_grid(before, cx, cy));
            assert(tile(before, cx, cy) == before[cx][cy]);
        }
        x = x + 1;
    }
}

/// Carves a vertical tunnel: the tiles of column `x` from row `y1` to row `y2`, both
/// included and in either order, become open floor.
pub fn create_v_tunnel(y1: i32, y2: i32, x: i32, map: &mut Vec<Vec<Tile>>)
    requires
        forall|y: int| lower(y1 as int, y2 as int) <= y <= upper(y1 as int, y2 as int) ==> on_grid(
            old(map)@,
            x as int,
            y,
        ),
    ensures
        same_shape(old(map)@, final(map)@),
        forall|cx: int, cy: int|
            on_grid(final(map)@, cx, cy) ==> #[trigger] tile(final(map)@, cx, cy) == (if cx == x
                && lower(y1 as int, y2 as int) <= cy <= upper(y1 as int, y2 as int) {
                Tile::empty()
            } else {
                tile(old(map)@, cx, cy)
            }),
{
    let start: i32 = if y1 <= y2 { y1 } else { y2 };
    let end: i32 = if y1 <= y2 { y2 } else { y1 };
    assert(on_grid(old(map)@, x as int, start as int));
    assert(on_grid(old(map)@, x as int, end as int));
    let mut y: i64 = start as i64;
    while y <= end as i64
        invariant
            start == lower(y1 as int, y2 as int),
            end == upper(y1 as int, y2 as int),
            0 <= start <= y <= end + 1,
            forall|cy: int| start <= cy <= end ==> on_grid(old(map)@, x as int, cy),
            same_shape(old(map)@, map@),
            forall|cx: int, cy: int|
                on_grid(map@, cx, cy) ==> #[trigger] tile(map@, cx, cy) == (if cx == x && start <= cy
                    < y {
                    Tile::empty()
                } else {
                    tile(old(map)@, cx, cy)
                }),
        decreases end + 1 - y,
    {
        let ghost before = map@;
        assert(on_grid(old(map)@, x as int, y as int));
        map[x as usize][y as usize] = Tile::empty();
        assert forall|cx: int, cy: int| on_grid(map@, cx, cy) implies #[trigger] tile(map@, cx, cy) == (
        if cx == x && start <= cy < y + 1 {
            Tile::empty()
        } else {
            tile(old(map)@, cx, cy)
        }) by {
            assert(on_grid(before, cx, cy));
            assert(tile(before, cx, cy) == before[cx][cy]);
        }
        y = y + 1;
    }
}

/// The kinds of monster that live in the dungeon.
#[derive(Clone, Copy, Debug, PartialEq, Eq, Structural)]
pub enum Monster {
    Orc,
    Troll,
}

/// From which level on a room holds up to how many monsters.
pub open spec fn monster_count_table() -> Seq<Transition> {
    seq![
        Transition { level: 1, value: 2 },
        Transition { level: 4, value: 3 },
        Transition { level: 6, value: 5 },
    ]
}

/// From which level on trolls have which weight among the monsters.
pub open spec fn troll_table() -> Seq<Transition> {
    seq![
        Transition { level: 3, value: 15 },
        Transition { level: 5, value: 30 },
        Transition { level: 7, value: 60 },
    ]
}

/// From which level on a room holds up to how many items.
pub open spec fn item_count_table() -> Seq<Transition> {
    seq![Transition { level: 1, value: 1 }, Transition { level: 4, value: 2 }]
}

/// The greatest number of monsters that a room holds at `level`.
pub open spec fn max_monsters(level: u32) -> u32 {
    table_value(monster_count_table(), level)
}

/// The greatest number of items that a room holds at `level`.
pub open spec fn max_items(level: u32) -> u32 {
    table_value(item_count_table(), level)
}

/// The weight with which a monster of this kind is drawn at `level`.
pub open spec fn monster_weight(kind: Monster, level: u32) -> u32 {
    match kind {
        Monster::Orc => 80,
        Monster::Troll => table_value(troll_table(), level),
    }
}

/// The weight with which an item of this kind is drawn at `level`. Healing potions and
/// equipment turn up at every level; the scrolls from the level that their table names.
pub open spec fn item_weight(item: Item, level: u32) -> u32 {
    match item {
        Item::Heal => 35,
        Item::Equipment => 1000,
        Item::Lightning => table_value(seq![Transition { level: 4, value: 25 }], level),
        Item::Fireball => table_value(seq![Transition { level: 6, value: 25 }], level),
        Item::Confuse => table_value(seq![Transition { level: 2, value: 10 }], level),
    }
}

/// A table never yields more than the greatest of its values.
pub proof fn lemma_table_value_bounded(table: Seq<Transition>, level: u32, bound: u32)
    requires
        forall|i: int| 0 <= i < table.len() ==> (#[trigger] table[i]).value <= bound,
    ensures
        table_value(table, level) <= bound,
    decreases table.len(),
{
    if table.len() > 0 {
        assert(table.last() == table[table.len() - 1]);
        let rest = table.drop_last();
        assert forall|i: int| 0 <= i < rest.len() implies (#[trigger] rest[i]).value <= bound by {
            assert(rest[i] == table[i]);
        }
        lemma_table_value_bounded(rest, level, bound);
    }
}

/// A monster of the given kind, alive, at `(x, y)`.
pub open spec fn monster_view(kind: Monster, x: int, y: int) -> ObjectView {
    match kind {
        Monster::Orc => ObjectView {
            x,
            y,
            glyph: 'o',
            color: desaturated_green(),
            name: "orc"@,
            blocks: true,
            alive: true,
            always_visible: false,
            level: 1,
            fighter: Some(
                Fighter { max_hp: 20, hp: 20, defense: 0, power: 4, xp: 35, on_death: DeathCallback::Monster },
            ),
            ai: Some(Ai::Basic),
            item: None,
            equippable: None,
        },
        Monster::Troll => ObjectView {
            x,
            y,
            glyph: 'T',
            color: darker_green(),
            name: "troll"@,
            blocks: true,
            alive: true,
            always_visible: false,
            level: 1,
            fighter: Some(
                Fighter { max_hp: 30, hp: 30, defense: 2, power: 8, xp: 100, on_death: DeathCallback::Monster },
            ),
            ai: Some(Ai::Basic),
            item: None,
            equippable: None,
        },
    }
}

/// The glyph, name and colour under which an item of this kind lies on the floor.
pub open spec fn item_look(item: Item) -> (char, Seq<char>, Color) {
    match item {
        Item::Heal => ('!', "healing potion"@, violet()),
        Item::Lightning => ('#', "scroll of lightning bolt"@, light_yellow()),
        Item::Fireball => ('#', "scroll of fireball"@, light_yellow()),
        Item::Confuse => ('#', "scroll of confusion"@, light_yellow()),
        Item::Equipment => ('/', "sword"@, sky()),
    }
}

/// An item of the given kind lying at `(x, y)`. Equipment is a sword for the right hand.
pub open spec fn item_view(item: Item, x: int, y: int) -> ObjectView {
    ObjectView {
        x,
        y,
        glyph: item_look(item).0,
        color: item_look(item).2,
        name: item_look(item).1,
        blocks: false,
        alive: false,
        always_visible: true,
        level: 1,
        fighter: None,
        ai: None,
        item: Some(item),
        equippable: if item == Item::Equipment {
            Some(Equippable { slot: Slot::RightHand, equipped: false })
        } else {
            None
        },
    }
}

/// Makes a monster of the given kind at `(x, y)`.
pub fn spawn_monster(kind: Monster, x: i32, y: i32) -> (monster: Object)
    ensures
        monster@ == monster_view(kind, x as int, y as int),
{
    let mut monster = match kind {
        Monster::Orc => {
            let mut orc = Object::new(x, y, 'o', "orc", desaturated_green(), true);
            orc.fighter = Some(
                Fighter { max_hp: 20, hp: 20, defense: 0, power: 4, xp: 35, on_death: DeathCallback::Monster },
            );
            orc.ai = Some(Ai::Basic);
            orc
        },
        Monster::Troll => {
            let mut troll = Object::new(x, y, 'T', "troll", darker_green(), true);
            troll.fighter = Some(
                Fighter { max_hp: 30, hp: 30, defense: 2, power: 8, xp: 100, on_death: DeathCallback::Monster },
            );
            troll.ai = Some(Ai::Basic);
            troll
        },
    };
    monster.alive = true;
    monster
}

/// Makes an item of the given kind at `(x, y)`.
pub fn spawn_item(item: Item, x: i32, y: i32) -> (object: Object)
    ensures
        object@ == item_view(item, x as int, y as int),
{
    let mut object = match item {
        Item::Heal => Object::new(x, y, '!', "healing potion", violet(), false),
        Item::Lightning => Object::new(x, y, '#', "scroll of lightning bolt", light_yellow(), false),
        Item::Fireball => Object::new(x, y, '#', "scroll of fireball", light_yellow(), false),
        Item::Confuse => Object::new(x, y, '#', "scroll of confusion", light_yellow(), false),
        Item::Equipment => {
            let mut sword = Object::new(x, y, '/', "sword", sky(), false);
            sword.equippable = Some(Equippable { equipped: false, slot: Slot::RightHand });
            sword
        },
    };
    object.item = Some(item);
    object.always_visible = true;
    object
}

/// The monster that a draw among the monster weights stands for: the orc comes first.
pub fn monster_for(roll: usize) -> (kind: Monster)
    ensures
        kind == (if roll == 0 {
            Monster::Orc
        } else {
            Monster::Troll
        }),
{
    if roll == 0 {
        Monster::Orc
    } else {
        Monster::Troll
    }
}

/// The item kinds in the order of their weights.
pub open spec fn item_order() -> Seq<Item> {
    seq![Item::Heal, Item::Equipment, Item::Lightning, Item::Fireball, Item::Confuse]
}

/// The item that a draw among the item weights stands for.
pub fn item_for(roll: usize) -> (item: Item)
    ensures
        roll < 5 ==> item == item_order()[roll as int],
        roll >= 5 ==> item == Item::Confuse,
{
    if roll == 0 {
        Item::Heal
    } else if roll == 1 {
        Item::Equipment
    } else if roll == 2 {
        Item::Lightning
    } else if roll == 3 {
        Item::Fireball
    } else {
        Item::Confuse
    }
}

/// The greatest number of monsters that a room holds at `level`.
pub fn monster_limit(level: u32) -> (limit: u32)
    ensures
        limit == max_monsters(level),
        limit <= 5,
{
    let table = vec![
        Transition { level: 1, value: 2 },
        Transition { level: 4, value: 3 },
        Transition { level: 6, value: 5 },
    ];
    proof {
        assert(table@ =~= monster_count_table());
        lemma_table_value_bounded(table@, level, 5);
    }
    from_dungeon_level(table.as_slice(), level)
}

/// The greatest number of items that a room holds at `level`.
pub fn item_limit(level: u32) -> (limit: u32)
    ensures
        limit == max_items(level),
        limit <= 2,
{
    let table = vec![Transition { level: 1, value: 1 }, Transition { level: 4, value: 2 }];
    proof {
        assert(table@ =~= item_count_table());
        lemma_table_value_bounded(table@, level, 2);
    }
    from_dungeon_level(table.as_slice(), level)
}

/// The weights with which the kinds of monster are drawn at `level`: orc, then troll.
pub fn monster_weights(level: u32) -> (weights: Vec<u32>)
    ensures
        weights@ == seq![monster_weight(Monster::Orc, level), monster_weight(Monster::Troll, level)],
        0 < total_weight(weights@) <= u32::MAX,
{
    let table = vec![
        Transition { level: 3, value: 15 },
        Transition { level: 5, value: 30 },
        Transition { level: 7, value: 60 },
    ];
    proof {
        assert(table@ =~= troll_table());
        lemma_table_value_bounded(table@, level, 60);
    }
    let troll_chance = from_dungeon_level(table.as_slice(), level);
    let weights = vec![80, troll_chance];
    proof {
        lemma_total_weight(weights@);
        assert(weights@ =~= seq![80u32, troll_chance]);
    }
    weights
}

/// The weights with which the kinds of item are drawn at `level`, in the order of
/// `item_order`.
pub fn item_weights(level: u32) -> (weights: Vec<u32>)
    ensures
        weights@.len() == 5,
        forall|i: int| 0 <= i < 5 ==> #[trigger] weights@[i] == item_weight(item_order()[i], level),
        0 < total_weight(weights@) <= u32::MAX,
{
    let lightning_table = vec![Transition { level: 4, value: 25 }];
    let fireball_table = vec![Transition { level: 6, value: 25 }];
    let confuse_table = vec![Transition { level: 2, value: 10 }];
    proof {
        assert(lightning_table@ =~= seq![Transition { level: 4, value: 25 }]);
        assert(fireball_table@ =~= seq![Transition { level: 6, value: 25 }]);
        assert(confuse_table@ =~= seq![Transition { level: 2, value: 10 }]);
        lemma_table_value_bounded(lightning_table@, level, 25);
        lemma_table_value_bounded(fireball_table@, level, 25);
        lemma_table_value_bounded(confuse_table@, level, 10);
    }
    let lightning = from_dungeon_level(lightning_table.as_slice(), level);
    let fireball = from_dungeon_level(fireball_table.as_slice(), level);
    let confuse = from_dungeon_level(confuse_table.as_slice(), level);
    let weights = vec![35, 1000, lightning, fireball, confuse];
    proof {
        lemma_total_weight(weights@);
    }
    weights
}

/// The total of a list of weights lies between its last weight and the sum of the
/// greatest possible weights.
proof fn lemma_total_weight(weights: Seq<u32>)
    ensures
        0 <= total_weight(weights),
        weights.len() > 0 ==> total_weight(weights) >= weights[0],
        weights.len() == 1 ==> total_weight(weights) == weights[0],
        weights.len() == 2 ==> total_weight(weights) == weights[0] + weights[1],
        weights.len() == 5 ==> total_weight(weights) == weights[0] + weights[1] + weights[2] + weights[3]
            + weights[4],
    decreases weights.len(),
{
    if weights.len() > 0 {
        let rest = weights.drop_last();
        lemma_total_weight(rest);
        if rest.len() > 0 {
            assert(rest[0] == weights[0]);
        }
        if weights.len() == 1 {
            assert(total_weight(rest) == 0);
        }
        if weights.len() == 5 {
            let r4 = rest;
            let r3 = r4.drop_last();
            let r2 = r3.drop_last();
            lemma_total_weight(r3);
            lemma_total_weight(r2);
            assert(r2.len() == 2);
            assert(r2[0] == weights[0] && r2[1] == weights[1]);
            assert(r3.last() == weights[2]);
            assert(r4.last() == weights[3]);
        }
    }
}

/// Whether the object is a monster as the dungeon spawns them at `level`: of a kind
/// whose weight at that level is not zero, and in the state in which it is made.
pub open spec fn is_monster_spawn(object: ObjectView, level: u32) -> bool {
    exists|kind: Monster| #[trigger]
        monster_view(kind, object.x, object.y) == object && monster_weight(kind, level) > 0
}

/// Whether the object is an item as the dungeon spawns them at `level`: of a kind whose
/// weight at that level is not zero, and in the state in which it is made.
pub open spec fn is_item_spawn(object: ObjectView, level: u32) -> bool {
    exists|item: Item| #[trigger]
        item_view(item, object.x, object.y) == object && item_weight(item, level) > 0
}

/// Whether the object is a monster or an item as the dungeon spawns them at `level`.
pub open spec fn is_spawn(object: ObjectView, level: u32) -> bool {
    is_monster_spawn(object, level) || is_item_spawn(object, level)
}

/// Whether object `k` was spawned into `room`: it is a spawn of this level, it stands
/// strictly inside the room on open floor, and no blocking object that came before it
/// stands on the same tile.
pub open spec fn spawned_in(
    objects: Seq<ObjectView>,
    k: int,
    room: Rect,
    map: Seq<Vec<Tile>>,
    level: u32,
) -> bool {
    &&& is_spawn(objects[k], level)
    &&& room.contains(objects[k].x, objects[k].y)
    &&& on_grid(map, objects[k].x, objects[k].y)
    &&& !tile(map, objects[k].x, objects[k].y).blocked
    &&& !occupied(objects.subrange(0, k), objects[k].x, objects[k].y)
}

/// Whether the objects from `from` up to `to` are what fills `room` at `level`: first
/// monsters, up to `middle`, then items, of neither more than the level allows, and each
/// of them spawned into the room.
pub open spec fn room_filled(
    objects: Seq<ObjectView>,
    from: int,
    middle: int,
    to: int,
    room: Rect,
    map: Seq<Vec<Tile>>,
    level: u32,
) -> bool {
    &&& from <= middle <= to <= objects.len()
    &&& middle - from <= max_monsters(level)
    &&& to - middle <= max_items(level)
    &&& forall|k: int| from <= k < to ==> spawned_in(objects, k, room, map, level)
    &&& forall|k: int| from <= k < middle ==> is_monster_spawn(#[trigger] objects[k], level)
    &&& forall|k: int| middle <= k < to ==> is_item_spawn(#[trigger] objects[k], level)
}

/// Whether no tile strictly inside the room is blocked.
pub open spec fn all_free(room: Rect, map: Seq<Vec<Tile>>, objects: Seq<ObjectView>) -> bool {
    forall|x: int, y: int|
        room.contains(x, y) ==> !(#[trigger] tile(map, x, y)).blocked && !occupied(objects, x, y)
}

/// Draws places strictly inside the room until one is found that is not blocked. After
/// `PLACEMENT_TRIES` draws that all fell on blocked tiles the search is given up; in a
/// room without a blocked tile the first draw finds a place.
pub fn find_free_tile(room: Rect, map: &Vec<Vec<Tile>>, objects: &[Object], rng: &mut ThreadRng) -> (found:
    Option<(i32, i32)>)
    requires
        room.x1 + 1 < room.x2,
        room.y1 + 1 < room.y2,
        forall|x: int, y: int| room.contains(x, y) ==> on_grid(map@, x, y),
    ensures
        found matches Some((x, y)) ==> room.contains(x as int, y as int) && !tile(map@, x as int, y as int).blocked
            && !occupied(views(objects@), x as int, y as int),
        all_free(room, map@, views(objects@)) ==> found is Some,
{
    let mut tries: i32 = 0;
    while tries < PLACEMENT_TRIES
        invariant
            0 <= tries <= PLACEMENT_TRIES,
            room.x1 + 1 < room.x2,
            room.y1 + 1 < room.y2,
            forall|x: int, y: int| room.contains(x, y) ==> on_grid(map@, x, y),
            all_free(room, map@, views(objects@)) ==> tries == 0,
        decreases PLACEMENT_TRIES - tries,
    {
        let x = gen_range(rng, room.x1 + 1, room.x2);
        let y = gen_range(rng, room.y1 + 1, room.y2);
        assert(room.contains(x as int, y as int));
        if !is_blocked(x, y, map, objects) {
            return Some((x, y));
        }
        tries = tries + 1;
    }
    None
}

/// Fills a room with monsters and items. Their numbers are drawn at random up to the
/// limits of the level and their kinds by the weights of the level. Each is put on a tile
/// strictly inside the room that is not blocked, for which places are drawn until one is
/// free; an object for which no free place is found in `PLACEMENT_TRIES` draws is left out.
pub fn place_objects(
    room: Rect,
    map: &Vec<Vec<Tile>>,
    objects: &mut Vec<Object>,
    level: u32,
    rng: &mut ThreadRng,
)
    requires
        max_monsters(level) + max_items(level) > 0 ==> room.x1 + 1 < room.x2 && room.y1 + 1 < room.y2,
        forall|x: int, y: int| room.contains(x, y) ==> on_grid(map@, x, y),
    ensures
        final(objects)@.len() >= old(objects)@.len(),
        final(objects)@.subrange(0, old(objects)@.len() as int) == old(objects)@,
        exists|middle: int| #[trigger]
            room_filled(
                views(final(objects)@),
                old(objects)@.len() as int,
                middle,
                final(objects)@.len() as int,
                room,
                map@,
                level,
            ),
{
    let ghost start = objects@;
    let monster_cap = monster_limit(level);
    let num_monsters = gen_range(rng, 0, monster_cap as i32 + 1);
    let monster_chances = monster_weights(level);
    assert(objects@.subrange(0, start.len() as int) =~= start);
    let mut n: i32 = 0;
    while n < num_monsters
        invariant
            0 <= n <= num_monsters <= monster_cap == max_monsters(level),
            num_monsters > 0 ==> room.x1 + 1 < room.x2 && room.y1 + 1 < room.y2,
            forall|x: int, y: int| room.contains(x, y) ==> on_grid(map@, x, y),
            monster_chances@ == seq![
                monster_weight(Monster::Orc, level),
                monster_weight(Monster::Troll, level),
            ],
            0 < total_weight(monster_chances@) <= u32::MAX,
            start.len() <= objects@.len() <= start.len() + n,
            objects@.subrange(0, start.len() as int) == start,
            forall|k: int|
                start.len() <= k < objects@.len() ==> spawned_in(views(objects@), k, room, map@, level),
            forall|k: int|
                start.len() <= k < objects@.len() ==> is_monster_spawn(#[trigger] views(objects@)[k], level),
        decreases num_monsters - n,
    {
        if let Some((x, y)) = find_free_tile(room, map, objects.as_slice(), rng) {
            let roll = weighted_index(rng, &monster_chances);
            let kind = monster_for(roll);
            let monster = spawn_monster(kind, x, y);
            let ghost before = objects@;
            objects.push(monster);
            proof {
                lemma_views_push(before, monster);
                lemma_spawn_added(views(before), monster@, room, map@, level, start.len() as int);
                assert(monster_view(kind, x as int, y as int) == monster@ && monster_weight(kind, level) > 0);
                assert(is_monster_spawn(monster@, level));
                assert forall|k: int| start.len() <= k < objects@.len() implies is_monster_spawn(
                    #[trigger] views(objects@)[k],
                    level,
                ) by {
                    if k < before.len() {
                        assert(views(objects@)[k] == views(before)[k]);
                    }
                }
                assert(objects@.subrange(0, start.len() as int) =~= start);
            }
        }
        n = n + 1;
    }
    let ghost monsters_end = objects@.len();
    let item_cap = item_limit(level);
    let num_items = gen_range(rng, 0, item_cap as i32 + 1);
    let item_chances = item_weights(level);
    let mut n: i32 = 0;
    while n < num_items
        invariant
            0 <= n <= num_items <= item_cap == max_items(level),
            num_items > 0 ==> room.x1 + 1 < room.x2 && room.y1 + 1 < room.y2,
            forall|x: int, y: int| room.contains(x, y) ==> on_grid(map@, x, y),
            item_chances@.len() == 5,
            forall|i: int| 0 <= i < 5 ==> #[trigger] item_chances@[i] == item_weight(item_order()[i], level),
            0 < total_weight(item_chances@) <= u32::MAX,
            monsters_end <= start.len() + max_monsters(level),
            start.len() <= monsters_end <= objects@.len() <= monsters_end + n,
            objects@.subrange(0, start.len() as int) == start,
            forall|k: int|
                start.len() <= k < objects@.len() ==> spawned_in(views(objects@), k, room, map@, level),
            forall|k: int|
                start.len() <= k < monsters_end ==> is_monster_spawn(#[trigger] views(objects@)[k], level),
            forall|k: int|
                monsters_end <= k < objects@.len() ==> is_item_spawn(#[trigger] views(objects@)[k], level),
        decreases num_items - n,
    {
        if let Some((x, y)) = find_free_tile(room, map, objects.as_slice(), rng) {
            let roll = weighted_index(rng, &item_chances);
            let kind = item_for(roll);
            let item = spawn_item(kind, x, y);
            let ghost before = objects@;
            objects.push(item);
            proof {
                lemma_views_push(before, item);
                lemma_spawn_added(views(before), item@, room, map@, level, start.len() as int);
                assert(item_chances@[roll as int] == item_weight(item_order()[roll as int], level));
                assert(item_view(kind, x as int, y as int) == item@ && item_weight(kind, level) > 0);
                assert(is_item_spawn(item@, level));
                assert forall|k: int| start.len() <= k < monsters_end implies is_monster_spawn(
                    #[trigger] views(objects@)[k],
                    level,
                ) by {
                    assert(views(objects@)[k] == views(before)[k]);
                }
                assert forall|k: int| monsters_end <= k < objects@.len() implies is_item_spawn(
                    #[trigger] views(objects@)[k],
                    level,
                ) by {
                    if k < before.len() {
                        assert(views(objects@)[k] == views(before)[k]);
                    }
                }
                assert(objects@.subrange(0, start.len() as int) =~= start);
            }
        }
        n = n + 1;
    }
    assert(room_filled(
        views(objects@),
        start.len() as int,
        monsters_end as int,
        objects@.len() as int,
        room,
        map@,
        level,
    ));
}

/// Pushing an object keeps what held of the objects that were spawned before it.
proof fn lemma_spawn_added(
    before: Seq<ObjectView>,
    object: ObjectView,
    room: Rect,
    map: Seq<Vec<Tile>>,
    level: u32,
    start: int,
)
    requires
        0 <= start <= before.len(),
        forall|k: int| start <= k < before.len() ==> spawned_in(before, k, room, map, level),
    ensures
        forall|k: int| start <= k < before.len() ==> spawned_in(before.push(object), k, room, map, level),
        before.push(object).subrange(0, before.len() as int) == before,
{
    let after = before.push(object);
    assert(after.subrange(0, before.len() as int) =~= before);
    assert forall|k: int| start <= k < before.len() implies spawned_in(after, k, room, map, level) by {
        assert(spawned_in(before, k, room, map, level));
        assert(after[k] == before[k]);
        assert(after.subrange(0, k) =~= before.subrange(0, k));
    }
}

/// The stairs that lead down, at `(x, y)`.
pub open spec fn stairs_view(x: int, y: int) -> ObjectView {
    ObjectView {
        x,
        y,
        glyph: '>',
        color: white(),
        name: "stairs"@,
        blocks: false,
        alive: false,
        always_visible: true,
        level: 1,
        fighter: None,
        ai: None,
        item: None,
        equippable: None,
    }
}

/// Whether the extent of the room is one that is drawn for a room.
pub open spec fn room_sized(room: Rect) -> bool {
    &&& ROOM_MIN_SIZE <= room.x2 - room.x1 <= ROOM_MAX_SIZE
    &&& ROOM_MIN_SIZE <= room.y2 - room.y1 <= ROOM_MAX_SIZE
}

/// Whether the objects of room `r` begin where those of the room before it end, at
/// `marks[r - 1]`, its monsters end at `middles[r]`, and its items at `marks[r]`.
pub open spec fn filled_at(
    objects: Seq<ObjectView>,
    marks: Seq<int>,
    middles: Seq<int>,
    rooms: Seq<Rect>,
    map: Seq<Vec<Tile>>,
    level: u32,
    r: int,
) -> bool {
    room_filled(objects, marks[r - 1], middles[r], marks[r], rooms[r], map, level)
}

/// Whether the objects from the second on are what fills the rooms after the first,
/// room by room.
pub open spec fn rooms_filled(
    objects: Seq<ObjectView>,
    marks: Seq<int>,
    middles: Seq<int>,
    rooms: Seq<Rect>,
    map: Seq<Vec<Tile>>,
    level: u32,
) -> bool {
    &&& marks.len() == rooms.len()
    &&& middles.len() == rooms.len()
    &&& rooms.len() >= 1 ==> marks[0] == 1
    &&& forall|r: int|
        1 <= r < rooms.len() ==> #[trigger] filled_at(objects, marks, middles, rooms, map, level, r)
}

/// Whether `map` and `after` are a level as it is generated for the objects `before`,
/// of which the first is the player:
/// the rooms are of the sizes that are drawn and laid out on the map, the player stands
/// in the centre of the first room, the stairs stand in the centre of the last, and the
/// objects in between are what fills the other rooms, room by room.
pub open spec fn generated(
    map: Seq<Vec<Tile>>,
    rooms: Seq<Rect>,
    turns: Seq<bool>,
    marks: Seq<int>,
    middles: Seq<int>,
    before: Seq<ObjectView>,
    after: Seq<ObjectView>,
    level: u32,
) -> bool {
    &&& laid_out(map, rooms, turns)
    &&& 1 <= rooms.len() <= MAX_ROOMS
    &&& forall|i: int| 0 <= i < rooms.len() ==> room_sized(#[trigger] rooms[i])
    &&& after.len() >= 2
    &&& after[0] == (ObjectView {
        x: rooms[0].center_spec().0,
        y: rooms[0].center_spec().1,
        ..before[0]
    })
    &&& after.last() == stairs_view(rooms.last().center_spec().0, rooms.last().center_spec().1)
    &&& rooms_filled(after, marks, middles, rooms, map, level)
    &&& marks.last() == after.len() - 1
}

/// What fills a room stays what it is when tiles are opened and when objects are added
/// behind it.
proof fn lemma_filled_kept(
    objects: Seq<ObjectView>,
    later: Seq<ObjectView>,
    from: int,
    middle: int,
    to: int,
    room: Rect,
    map: Seq<Vec<Tile>>,
    wider: Seq<Vec<Tile>>,
    level: u32,
)
    requires
        room_filled(objects, from, middle, to, room, map, level),
        0 <= from,
        to <= later.len(),
        later.subrange(0, to) == objects.subrange(0, to),
        forall|x: int, y: int| open_at(map, (x, y)) ==> open_at(wider, (x, y)),
    ensures
        room_filled(later, from, middle, to, room, wider, level),
{
    assert forall|k: int| from <= k < to implies later[k] == objects[k] by {
        assert(later[k] == later.subrange(0, to)[k]);
        assert(objects[k] == objects.subrange(0, to)[k]);
    }
    assert forall|k: int| from <= k < to implies spawned_in(later, k, room, wider, level) by {
        assert(spawned_in(objects, k, room, map, level));
        assert(later.subrange(0, k) =~= later.subrange(0, to).subrange(0, k));
        assert(objects.subrange(0, k) =~= objects.subrange(0, to).subrange(0, k));
        assert(open_at(map, (objects[k].x, objects[k].y)));
        assert(open_at(wider, (objects[k].x, objects[k].y)));
    }
    assert forall|k: int| from <= k < middle implies is_monster_spawn(#[trigger] later[k], level) by {
        assert(is_monster_spawn(objects[k], level));
    }
    assert forall|k: int| middle <= k < to implies is_item_spawn(#[trigger] later[k], level) by {
        assert(is_item_spawn(objects[k], level));
    }
}

/// What fills the rooms stays what it is when tiles are opened and when objects are
/// added behind it.
proof fn lemma_rooms_filled_kept(
    objects: Seq<ObjectView>,
    later: Seq<ObjectView>,
    marks: Seq<int>,
    middles: Seq<int>,
    rooms: Seq<Rect>,
    map: Seq<Vec<Tile>>,
    wider: Seq<Vec<Tile>>,
    level: u32,
)
    requires
        rooms_filled(objects, marks, middles, rooms, map, level),
        rooms.len() >= 1,
        marks.last() <= objects.len(),
        objects.len() <= later.len(),
        rooms.len() >= 2 ==> later.subrange(0, objects.len() as int) == objects,
        forall|x: int, y: int| open_at(map, (x, y)) ==> open_at(wider, (x, y)),
    ensures
        rooms_filled(later, marks, middles, rooms, wider, level),
        forall|r: int| 0 <= r < marks.len() ==> 1 <= #[trigger] marks[r] <= marks.last(),
{
    lemma_marks_ascend(objects, marks, middles, rooms, map, level, rooms.len() as int - 1);
    assert forall|r: int| 1 <= r < rooms.len() implies #[trigger] filled_at(
        later,
        marks,
        middles,
        rooms,
        wider,
        level,
        r,
    ) by {
        assert(filled_at(objects, marks, middles, rooms, map, level, r));
        lemma_marks_ascend(objects, marks, middles, rooms, map, level, r);
        lemma_marks_ascend(objects, marks, middles, rooms, map, level, r - 1);
        assert(later.subrange(0, marks[r]) =~= later.subrange(0, objects.len() as int).subrange(0, marks[r]));
        lemma_filled_kept(objects, later, marks[r - 1], middles[r], marks[r], rooms[r], map, wider, level);
    }
    assert forall|r: int| 0 <= r < marks.len() implies 1 <= #[trigger] marks[r] <= marks.last() by {
        lemma_marks_ascend(objects, marks, middles, rooms, map, level, r);
    }
}

/// The marks between the rooms ascend from 1 to the last.
proof fn lemma_marks_ascend(
    objects: Seq<ObjectView>,
    marks: Seq<int>,
    middles: Seq<int>,
    rooms: Seq<Rect>,
    map: Seq<Vec<Tile>>,
    level: u32,
    r: int,
)
    requires
        rooms_filled(objects, marks, middles, rooms, map, level),
        0 <= r < rooms.len(),
    ensures
        1 <= marks[r] <= marks.last(),
    decreases rooms.len() - r,
{
    lemma_marks_from_one(objects, marks, middles, rooms, map, level, r);
    if r < rooms.len() - 1 {
        assert(filled_at(objects, marks, middles, rooms, map, level, r + 1));
        lemma_marks_ascend(objects, marks, middles, rooms, map, level, r + 1);
    }
}

/// No mark lies before the first, which is 1.
proof fn lemma_marks_from_one(
    objects: Seq<ObjectView>,
    marks: Seq<int>,
    middles: Seq<int>,
    rooms: Seq<Rect>,
    map: Seq<Vec<Tile>>,
    level: u32,
    r: int,
)
    requires
        rooms_filled(objects, marks, middles, rooms, map, level),
        0 <= r < rooms.len(),
    ensures
        1 <= marks[r],
    decreases r,
{
    if r > 0 {
        assert(filled_at(objects, marks, middles, rooms, map, level, r));
        lemma_marks_from_one(objects, marks, middles, rooms, map, level, r - 1);
    }
}

/// Up to the end of room `r` there are no more objects than the player and, for each
/// room after the first, as many as the level allows at most.
pub proof fn lemma_marks_bounded(
    objects: Seq<ObjectView>,
    marks: Seq<int>,
    middles: Seq<int>,
    rooms: Seq<Rect>,
    map: Seq<Vec<Tile>>,
    level: u32,
    r: int,
)
    requires
        rooms_filled(objects, marks, middles, rooms, map, level),
        0 <= r < rooms.len(),
    ensures
        marks[r] <= 1 + r * (max_monsters(level) + max_items(level)),
    decreases r,
{
    if r > 0 {
        assert(filled_at(objects, marks, middles, rooms, map, level, r));
        lemma_marks_bounded(objects, marks, middles, rooms, map, level, r - 1);
        assert(r * (max_monsters(level) + max_items(level)) == (r - 1) * (max_monsters(level) + max_items(
            level,
        )) + (max_monsters(level) + max_items(level))) by (nonlinear_arith);
    }
}

/// Each object between the player and the stairs belongs to the filling of one of the
/// rooms after the first.
pub proof fn lemma_filled_by_room(
    objects: Seq<ObjectView>,
    marks: Seq<int>,
    middles: Seq<int>,
    rooms: Seq<Rect>,
    map: Seq<Vec<Tile>>,
    level: u32,
    k: int,
) -> (r: int)
    requires
        rooms_filled(objects, marks, middles, rooms, map, level),
        rooms.len() >= 1,
        1 <= k < marks.last(),
    ensures
        1 <= r < rooms.len(),
        marks[r - 1] <= k < marks[r],
        spawned_in(objects, k, rooms[r], map, level),
{
    let r = lemma_mark_above(objects, marks, middles, rooms, map, level, k, rooms.len() as int - 1);
    assert(filled_at(objects, marks, middles, rooms, map, level, r));
    r
}

/// Below every mark that lies above `k` there is a room whose filling holds object `k`.
proof fn lemma_mark_above(
    objects: Seq<ObjectView>,
    marks: Seq<int>,
    middles: Seq<int>,
    rooms: Seq<Rect>,
    map: Seq<Vec<Tile>>,
    level: u32,
    k: int,
    top: int,
) -> (r: int)
    requires
        rooms_filled(objects, marks, middles, rooms, map, level),
        0 <= top < rooms.len(),
        1 <= k < marks[top],
    ensures
        1 <= r <= top,
        marks[r - 1] <= k < marks[r],
    decreases top,
{
    if top == 0 {
        0
    } else if marks[top - 1] <= k {
        top
    } else {
        lemma_mark_above(objects, marks, middles, rooms, map, level, k, top - 1)
    }
}

/// Whether the level is under way for the player `player`: the rooms placed so far are
/// laid out, the player stands in the centre of the first of them, and the other objects
/// are what fills the later ones.
pub open spec fn under_way(
    layout: Layout,
    objects: Seq<ObjectView>,
    marks: Seq<int>,
    middles: Seq<int>,
    player: ObjectView,
    level: u32,
) -> bool {
    &&& layout.wf()
    &&& forall|i: int| 0 <= i < layout.rooms@.len() ==> room_sized(#[trigger] layout.rooms@[i])
    &&& objects.len() >= 1
    &&& layout.rooms@.len() == 0 ==> objects.len() == 1 && objects[0] == player
    &&& layout.rooms@.len() >= 1 ==> objects[0] == (ObjectView {
        x: layout.rooms@[0].center_spec().0,
        y: layout.rooms@[0].center_spec().1,
        ..player
    }) && marks.last() == objects.len()
    &&& rooms_filled(objects, marks, middles, layout.rooms@, layout.map@, level)
}

/// Places the room if the level accepts it. The first room receives the player; each
/// later room is joined to the room before it, by a corridor that runs along the row
/// first if `horizontal_first`, and is filled with monsters and items.
pub fn place_room(
    layout: &mut Layout,
    room: Rect,
    horizontal_first: bool,
    objects: &mut Vec<Object>,
    level: u32,
    rng: &mut ThreadRng,
) -> (placed: bool)
    requires
        old(layout).wf(),
        old(objects)@.len() >= 1,
    ensures
        final(layout).wf(),
        placed == old(layout).accepts(room),
        !placed ==> final(layout).map@ == old(layout).map@ && final(layout).rooms@ == old(layout).rooms@
            && final(layout).turns@ == old(layout).turns@ && final(objects)@ == old(objects)@,
        placed ==> final(layout).rooms@ == old(layout).rooms@.push(room) && final(layout).turns@ == old(
            layout,
        ).turns@.push(horizontal_first),
        forall|x: int, y: int| open_at(old(layout).map@, (x, y)) ==> open_at(final(layout).map@, (x, y)),
        placed && old(layout).rooms@.len() == 0 ==> views(final(objects)@) == views(old(objects)@).update(
            0,
            ObjectView { x: room.center_spec().0, y: room.center_spec().1, ..old(objects)@[0]@ },
        ),
        placed && old(layout).rooms@.len() > 0 ==> {
            &&& old(objects)@.len() <= final(objects)@.len()
            &&& final(objects)@.subrange(0, old(objects)@.len() as int) == old(objects)@
            &&& exists|middle: int| #[trigger]
                room_filled(
                    views(final(objects)@),
                    old(objects)@.len() as int,
                    middle,
                    final(objects)@.len() as int,
                    room,
                    final(layout).map@,
                    level,
                )
        },
{
    let first = layout.rooms.len() == 0;
    if !layout.add_room(room, horizontal_first) {
        return false;
    }
    if first {
        let (new_x, new_y) = room.center();
        let ghost held = objects@;
        objects[0].set_pos(new_x, new_y);
        proof {
            assert(objects@ =~= held.update(0, objects@[0]));
            lemma_views_update(held, 0, objects@[0]);
        }
    } else {
        proof {
            lemma_room_on_grid(layout.map@, room);
        }
        place_objects(room, &layout.map, objects, level, rng);
    }
    true
}

/// Every tile strictly inside a room that fits is a tile of the map.
proof fn lemma_room_on_grid(map: Seq<Vec<Tile>>, room: Rect)
    requires
        has_size(map, MAP_WIDTH as int, MAP_HEIGHT as int),
        room_fits(room),
    ensures
        forall|x: int, y: int| room.contains(x, y) ==> on_grid(map, x, y),
{
}

/// Generates a level. Every object but the first, the player, is removed. Up to
/// `MAX_ROOMS` rooms of random size are tried at random places; a room that touches a
/// room placed before is dropped. The player is put in the centre of the first room,
/// every later room is joined to the room before it and filled with monsters and items,
/// and the stairs are put in the centre of the last room.
pub fn generate(objects: &mut Vec<Object>, level: u32) -> (layout: Layout)
    requires
        old(objects)@.len() >= 1,
    ensures
        exists|marks: Seq<int>, middles: Seq<int>| #[trigger]
            generated(
                layout.map@,
                layout.rooms@,
                layout.turns@,
                marks,
                middles,
                views(old(objects)@),
                views(final(objects)@),
                level,
            ),
{
    objects.truncate(1);
    let mut rng = thread_rng();
    let mut layout = Layout::new();
    let ghost player = old(objects)@[0]@;
    let ghost mut marks: Seq<int> = Seq::empty();
    let ghost mut middles: Seq<int> = Seq::empty();
    assert(objects@[0] == old(objects)@[0]);
    let mut attempt: i32 = 0;
    while attempt < MAX_ROOMS
        invariant
            0 <= attempt <= MAX_ROOMS,
            layout.rooms@.len() <= attempt,
            attempt > 0 ==> layout.rooms@.len() >= 1,
            under_way(layout, views(objects@), marks, middles, player, level),
        decreases MAX_ROOMS - attempt,
    {
        let width = gen_range(&mut rng, ROOM_MIN_SIZE, ROOM_MAX_SIZE + 1);
        let height = gen_range(&mut rng, ROOM_MIN_SIZE, ROOM_MAX_SIZE + 1);
        let x = gen_range(&mut rng, 0, MAP_WIDTH - width);
        let y = gen_range(&mut rng, 0, MAP_HEIGHT - height);
        let new_room = Rect::new(x, y, width, height);
        if !layout.overlaps(&new_room) {
            let horizontal_first = if layout.rooms.len() == 0 {
                false
            } else {
                gen_bool(&mut rng)
            };
            let ghost rooms = layout.rooms@;
            let ghost map = layout.map@;
            let ghost held = objects@;
            let placed = place_room(&mut layout, new_room, horizontal_first, objects, level, &mut rng);
            proof {
                let n = rooms.len() as int;
                assert(placed);
                assert forall|i: int| 0 <= i < layout.rooms@.len() implies room_sized(
                    #[trigger] layout.rooms@[i],
                ) by {
                    if i < n {
                        assert(layout.rooms@[i] == rooms[i]);
                        assert(room_sized(rooms[i]));
                    }
                }
                if n == 0 {
                    marks = seq![1int];
                    middles = seq![1int];
                } else {
                    let middle = choose|middle: int| #[trigger]
                        room_filled(
                            views(objects@),
                            held.len() as int,
                            middle,
                            objects@.len() as int,
                            new_room,
                            layout.map@,
                            level,
                        );
                    let old_marks = marks;
                    let old_middles = middles;
                    lemma_views_subrange(objects@, 0, held.len() as int);
                    lemma_rooms_filled_kept(
                        views(held),
                        views(objects@),
                        old_marks,
                        old_middles,
                        rooms,
                        map,
                        layout.map@,
                        level,
                    );
                    marks = old_marks.push(objects@.len() as int);
                    middles = old_middles.push(middle);
                    assert(layout.rooms@[0] == rooms[0]);
                    assert(views(objects@)[0] == views(objects@).subrange(0, held.len() as int)[0]);
                    assert forall|r: int| 1 <= r < layout.rooms@.len() implies #[trigger] filled_at(
                        views(objects@),
                        marks,
                        middles,
                        layout.rooms@,
                        layout.map@,
                        level,
                        r,
                    ) by {
                        if r < n {
                            assert(layout.rooms@[r] == rooms[r]);
                            assert(filled_at(views(objects@), old_marks, old_middles, rooms, layout.map@, level, r));
                        } else {
                            assert(marks[r - 1] == old_marks.last());
                        }
                    }
                }
            }
        }
        attempt = attempt + 1;
    }
    let (last_room_x, last_room_y) = layout.rooms[layout.rooms.len() - 1].center();
    let mut stairs = Object::new(last_room_x, last_room_y, '>', "stairs", white(), false);
    stairs.always_visible = true;
    let ghost held = objects@;
    objects.push(stairs);
    proof {
        assert(objects@.subrange(0, held.len() as int) =~= held);
        lemma_views_subrange(objects@, 0, held.len() as int);
        lemma_rooms_filled_kept(
            views(held),
            views(objects@),
            marks,
            middles,
            layout.rooms@,
            layout.map@,
            layout.map@,
            level,
        );
        assert(layout.rooms@.last() == layout.rooms@[layout.rooms@.len() - 1]);
        assert(objects@[0] == held[0]);
        assert(generated(
            layout.map@,
            layout.rooms@,
            layout.turns@,
            marks,
            middles,
            views(old(objects)@),
            views(objects@),
            level,
        ));
    }
    layout
}

/// Generates a level for the objects, of which the first is the player, and returns its
/// map: see `generate`, which hands out the rooms as well.
pub fn make_map(objects: &mut Vec<Object>, level: u32) -> (map: Vec<Vec<Tile>>)
    requires
        old(objects)@.len() >= 1,
    ensures
        exists|rooms: Seq<Rect>, turns: Seq<bool>, marks: Seq<int>, middles: Seq<int>| #[trigger]
            generated(map@, rooms, turns, marks, middles, views(old(objects)@), views(final(objects)@), level),
{
    let layout = generate(objects, level);
    layout.map
}

} // verus!
