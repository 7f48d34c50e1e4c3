//! The layout of a level: rooms that keep apart, joined by corridors, carved out of rock.

use vstd::prelude::*;
use crate::map::{
    create_h_tunnel, create_room, create_v_tunnel, has_size, lower, on_grid, same_shape, tile,
    upper, Rect, Tile, MAP_HEIGHT, MAP_WIDTH,
};
use crate::reach::{
    lemma_column_reachable, lemma_reachable_back, lemma_reachable_chain, lemma_reachable_kept,
    lemma_reachable_self, lemma_row_reachable, open_at, reachable, Point,
};

verus! {

/// Whether `(x, y)` lies on the L-shaped corridor that joins `from` to `to`: along the
/// row of `from` and then the column of `to` if `horizontal_first`, else along the column
/// of `from` and then the row of `to`.
pub open spec fn on_corridor(from: Point, to: Point, horizontal_first: bool, x: int, y: int) -> bool {
    if horizontal_first {
        ||| y == from.1 && lower(from.0, to.0) <= x <= upper(from.0, to.0)
        ||| x == to.0 && lower(from.1, to.1) <= y <= upper(from.1, to.1)
    } else {
        ||| x == from.0 && lower(from.1, to.1) <= y <= upper(from.1, to.1)
        ||| y == to.1 && lower(from.0, to.0) <= x <= upper(from.0, to.0)
    }
}

/// Whether a room lies on the map with rock all around it and at least one tile inside.
pub open spec fn room_fits(room: Rect) -> bool {
    &&& 0 <= room.x1
    &&& room.x1 + 2 <= room.x2 < MAP_WIDTH
    &&& 0 <= room.y1
    &&& room.y1 + 2 <= room.y2 < MAP_HEIGHT
}

/// Whether room `i` opens the tile `(x, y)`: the tile lies inside the room, or on the
/// corridor that joins the room to the one placed before it.
pub open spec fn carved_by(rooms: Seq<Rect>, turns: Seq<bool>, i: int, x: int, y: int) -> bool {
    ||| rooms[i].contains(x, y)
    ||| i >= 1 && on_corridor(rooms[i - 1].center_spec(), rooms[i].center_spec(), turns[i], x, y)
}

/// Whether some room opens the tile `(x, y)`.
pub open spec fn carved(rooms: Seq<Rect>, turns: Seq<bool>, x: int, y: int) -> bool {
    exists|i: int| 0 <= i < rooms.len() && #[trigger] carved_by(rooms, turns, i, x, y)
}

/// Whether no two of the rooms share a tile, borders included.
pub open spec fn rooms_apart(rooms: Seq<Rect>) -> bool {
    forall|i: int, j: int| 0 <= i < j < rooms.len() ==> !rooms[i].intersects_spec(rooms[j])
}

/// Whether the centre of each room can be reached from the centre of the first.
pub open spec fn rooms_joined(map: Seq<Vec<Tile>>, rooms: Seq<Rect>) -> bool {
    forall|i: int|
        0 <= i < rooms.len() ==> reachable(map, rooms[0].center_spec(), #[trigger] rooms[i].center_spec())
}

/// Whether `map` is the level that the rooms, placed in this order and joined by
/// corridors that turn as `turns` says, carve out of solid rock.
pub open spec fn laid_out(map: Seq<Vec<Tile>>, rooms: Seq<Rect>, turns: Seq<bool>) -> bool {
    &&& has_size(map, MAP_WIDTH as int, MAP_HEIGHT as int)
    &&& turns.len() == rooms.len()
    &&& forall|i: int| 0 <= i < rooms.len() ==> room_fits(#[trigger] rooms[i])
    &&& rooms_apart(rooms)
    &&& forall|x: int, y: int|
        on_grid(map, x, y) ==> #[trigger] tile(map, x, y) == (if carved(rooms, turns, x, y) {
            Tile::empty()
        } else {
            Tile::wall()
        })
    &&& rooms_joined(map, rooms)
}

/// The centre of a room that fits lies inside the room.
pub proof fn lemma_center_inside(room: Rect)
    requires
        room_fits(room),
    ensures
        room.contains(room.center_spec().0, room.center_spec().1),
        0 < room.center_spec().0 < MAP_WIDTH - 1,
        0 < room.center_spec().1 < MAP_HEIGHT - 1,
{
}

/// In a level that was laid out, the tiles on the rim of the map are rock.
pub proof fn lemma_rim_is_rock(map: Seq<Vec<Tile>>, rooms: Seq<Rect>, turns: Seq<bool>, x: int, y: int)
    requires
        laid_out(map, rooms, turns),
        on_grid(map, x, y),
        x == 0 || y == 0 || x == MAP_WIDTH - 1 || y == MAP_HEIGHT - 1,
    ensures
        tile(map, x, y) == Tile::wall(),
{
    if carved(rooms, turns, x, y) {
        let i = choose|i: int| 0 <= i < rooms.len() && #[trigger] carved_by(rooms, turns, i, x, y);
        assert(room_fits(rooms[i]));
        lemma_center_inside(rooms[i]);
        if i >= 1 {
            assert(room_fits(rooms[i - 1]));
            lemma_center_inside(rooms[i - 1]);
        }
    }
}

/// No two rooms of a level that was laid out share a tile, not even a tile of their borders.
pub proof fn lemma_rooms_never_overlap(
    map: Seq<Vec<Tile>>,
    rooms: Seq<Rect>,
    turns: Seq<bool>,
    i: int,
    j: int,
)
    requires
        laid_out(map, rooms, turns),
        0 <= i < rooms.len(),
        0 <= j < rooms.len(),
        i != j,
    ensures
        !rooms[i].intersects_spec(rooms[j]),
        forall|x: int, y: int| !(rooms[i].covers(x, y) && rooms[j].covers(x, y)),
{
    assert(room_fits(rooms[i]));
    assert(room_fits(rooms[j]));
    if i < j {
        assert(!rooms[i].intersects_spec(rooms[j]));
    } else {
        assert(!rooms[j].intersects_spec(rooms[i]));
    }
}

/// Where the centre of each room can be reached from the centre of the first, the centre
/// of each room can be reached from the centre of each other.
pub proof fn lemma_joined_pairwise(map: Seq<Vec<Tile>>, rooms: Seq<Rect>, i: int, j: int)
    requires
        rooms_joined(map, rooms),
        0 <= i < rooms.len(),
        0 <= j < rooms.len(),
    ensures
        reachable(map, rooms[i].center_spec(), rooms[j].center_spec()),
{
    let start = rooms[0].center_spec();
    assert(reachable(map, start, rooms[i].center_spec()));
    assert(reachable(map, start, rooms[j].center_spec()));
    lemma_reachable_back(map, start, rooms[i].center_spec());
    lemma_reachable_chain(map, rooms[i].center_spec(), start, rooms[j].center_spec());
}

/// In a level that was laid out, the centre of every room can be reached from the centre
/// of every other room over open tiles alone.
pub proof fn lemma_rooms_connected(
    map: Seq<Vec<Tile>>,
    rooms: Seq<Rect>,
    turns: Seq<bool>,
    i: int,
    j: int,
)
    requires
        laid_out(map, rooms, turns),
        0 <= i < rooms.len(),
        0 <= j < rooms.len(),
    ensures
        reachable(map, rooms[i].center_spec(), rooms[j].center_spec()),
{
    lemma_joined_pairwise(map, rooms, i, j);
}

/// A level under construction: the grid, the rooms accepted so far in the order they
/// were placed, and for each room whether the corridor that joins it to its predecessor
/// runs along the row first.
pub struct Layout {
    pub map: Vec<Vec<Tile>>,
    pub rooms: Vec<Rect>,
    pub turns: Vec<bool>,
}

impl Layout {
    /// Whether the grid is what the rooms and corridors carve out of solid rock.
    pub open spec fn wf(&self) -> bool {
        laid_out(self.map@, self.rooms@, self.turns@)
    }

    /// Solid rock with no room in it.
    pub fn new() -> (layout: Layout)
        ensures
            layout.wf(),
            layout.rooms@.len() == 0,
    {
        let mut map: Vec<Vec<Tile>> = Vec::new();
        let mut x: i32 = 0;
        while x < MAP_WIDTH
            invariant
                0 <= x <= MAP_WIDTH,
                map@.len() == x,
                forall|cx: int| 0 <= cx < x ==> (#[trigger] map@[cx]).len() == MAP_HEIGHT,
                forall|cx: int, cy: int| on_grid(map@, cx, cy) ==> #[trigger] tile(map@, cx, cy) == Tile::wall(),
            decreases MAP_WIDTH - x,
        {
            let mut column: Vec<Tile> = Vec::new();
            let mut y: i32 = 0;
            while y < MAP_HEIGHT
                invariant
                    0 <= y <= MAP_HEIGHT,
                    column@.len() == y,
                    forall|cy: int| 0 <= cy < y ==> #[trigger] column@[cy] == Tile::wall(),
                decreases MAP_HEIGHT - y,
            {
                column.push(Tile::wall());
                y = y + 1;
            }
            let ghost before = map@;
            map.push(column);
            assert forall|cx: int, cy: int| on_grid(map@, cx, cy) implies #[trigger] tile(map@, cx, cy)
                == Tile::wall() by {
                if cx < x {
                    assert(on_grid(before, cx, cy));
                    assert(tile(before, cx, cy) == Tile::wall());
                }
            }
            x = x + 1;
        }
        let layout = Layout { map, rooms: Vec::new(), turns: Vec::new() };
        assert forall|cx: int, cy: int| on_grid(layout.map@, cx, cy) implies !carved(
            layout.rooms@,
            layout.turns@,
            cx,
            cy,
        ) by {}
        layout
    }

    /// Whether `room` shares a tile with a room that was accepted.
    pub fn overlaps(&self, room: &Rect) -> (overlap: bool)
        ensures
            overlap == exists|i: int| 0 <= i < self.rooms@.len() && room.intersects_spec(#[trigger] self.rooms@[i]),
    {
        let mut i: usize = 0;
        while i < self.rooms.len()
            invariant
                i <= self.rooms@.len(),
                forall|k: int| 0 <= k < i ==> !room.intersects_spec(#[trigger] self.rooms@[k]),
            decreases self.rooms@.len() - i,
        {
            if room.intersects(&self.rooms[i]) {
                return true;
            }
            i = i + 1;
        }
        false
    }

    /// Whether `room` can be accepted: it fits the map and keeps clear of every room
    /// accepted so far.
    pub open spec fn accepts(&self, room: Rect) -> bool {
        &&& room_fits(room)
        &&& forall|i: int| 0 <= i < self.rooms@.len() ==> !room.intersects_spec(#[trigger] self.rooms@[i])
    }

    /// Tries to place `room`. A room that does not fit the map or touches a room placed
    /// before is rejected and nothing changes. Otherwise the room is carved and, unless it
    /// is the first, joined to the room placed last by an L-shaped corridor between their
    /// centres, which runs along the row first if `horizontal_first`.
    pub fn add_room(&mut self, room: Rect, horizontal_first: bool) -> (placed: bool)
        requires
            old(self).wf(),
        ensures
            final(self).wf(),
            placed == old(self).accepts(room),
            !placed ==> final(self).map@ == old(self).map@ && final(self).rooms@ == old(self).rooms@
                && final(self).turns@ == old(self).turns@,
            placed ==> final(self).rooms@ == old(self).rooms@.push(room) && final(self).turns@ == old(
                self,
            ).turns@.push(horizontal_first),
            forall|x: int, y: int| open_at(old(self).map@, (x, y)) ==> open_at(final(self).map@, (x, y)),
    {
        let fits = 0 <= room.x1 && room.x1 as i64 + 2 <= room.x2 as i64 && room.x2 < MAP_WIDTH && 0
            <= room.y1 && room.y1 as i64 + 2 <= room.y2 as i64 && room.y2 < MAP_HEIGHT;
        if !fits || self.overlaps(&room) {
            return false;
        }
        let ghost rooms = self.rooms@;
        let ghost turns = self.turns@;
        let ghost map0 = self.map@;
        create_room(room, &mut self.map);
        let ghost map1 = self.map@;
        proof {
            lemma_same_size(map0, map1);
            lemma_center_inside(room);
        }
        let (new_x, new_y) = room.center();
        if self.rooms.len() > 0 {
            let previous = self.rooms[self.rooms.len() - 1];
            let (prev_x, prev_y) = previous.center();
            proof {
                assert(room_fits(rooms[rooms.len() - 1]));
                lemma_center_inside(previous);
            }
            if horizontal_first {
                create_h_tunnel(prev_x, new_x, prev_y, &mut self.map);
                proof {
                    lemma_same_size(map1, self.map@);
                }
                create_v_tunnel(prev_y, new_y, new_x, &mut self.map);
            } else {
                create_v_tunnel(prev_y, new_y, prev_x, &mut self.map);
                proof {
                    lemma_same_size(map1, self.map@);
                }
                create_h_tunnel(prev_x, new_x, new_y, &mut self.map);
            }
            proof {
                let map2 = self.map@;
                assert forall|x: int, y: int| on_grid(map2, x, y) implies #[trigger] tile(map2, x, y) == (
                if room.contains(x, y) || on_corridor(
                    previous.center_spec(),
                    room.center_spec(),
                    horizontal_first,
                    x,
                    y,
                ) {
                    Tile::empty()
                } else {
                    tile(map0, x, y)
                }) by {
                    assert(on_grid(map1, x, y));
                    assert(on_grid(map0, x, y));
                    assert(tile(map1, x, y) == if room.contains(x, y) {
                        Tile::empty()
                    } else {
                        tile(map0, x, y)
                    });
                }
            }
        }
        proof {
            lemma_same_size(map1, self.map@);
            lemma_room_added(map0, self.map@, rooms, turns, room, horizontal_first);
        }
        self.rooms.push(room);
        self.turns.push(horizontal_first);
        true
    }
}

/// A grid of the shape of a grid of the size of the map has that size.
proof fn lemma_same_size(before: Seq<Vec<Tile>>, after: Seq<Vec<Tile>>)
    requires
        has_size(before, MAP_WIDTH as int, MAP_HEIGHT as int),
        same_shape(before, after),
    ensures
        has_size(after, MAP_WIDTH as int, MAP_HEIGHT as int),
        forall|x: int, y: int| on_grid(before, x, y) <==> on_grid(after, x, y),
{
    assert forall|x: int| 0 <= x < MAP_WIDTH implies (#[trigger] after[x]).len() == MAP_HEIGHT by {
        assert(before[x].len() == after[x].len());
    }
}

/// Whether carving `room`, and the corridor that joins it to the room before it, turns
/// the grid `before` into the grid `after`.
pub open spec fn room_carved(
    before: Seq<Vec<Tile>>,
    after: Seq<Vec<Tile>>,
    rooms: Seq<Rect>,
    room: Rect,
    horizontal_first: bool,
) -> bool {
    forall|x: int, y: int|
        on_grid(after, x, y) ==> #[trigger] tile(after, x, y) == (if room.contains(x, y) || (rooms.len()
            > 0 && on_corridor(rooms.last().center_spec(), room.center_spec(), horizontal_first, x, y)) {
            Tile::empty()
        } else {
            tile(before, x, y)
        })
}

/// With one more room, the tiles opened are those opened before and those the new room opens.
proof fn lemma_carved_more(rooms: Seq<Rect>, turns: Seq<bool>, room: Rect, turn: bool, x: int, y: int)
    requires
        rooms.len() == turns.len(),
    ensures
        carved(rooms.push(room), turns.push(turn), x, y) <==> (carved(rooms, turns, x, y) || room.contains(
            x,
            y,
        ) || (rooms.len() > 0 && on_corridor(rooms.last().center_spec(), room.center_spec(), turn, x, y))),
{
    let rooms_after = rooms.push(room);
    let turns_after = turns.push(turn);
    let n = rooms.len() as int;
    assert(rooms_after[n] == room);
    assert(turns_after[n] == turn);
    if n > 0 {
        assert(rooms_after[n - 1] == rooms.last());
    }
    if carved(rooms_after, turns_after, x, y) {
        let i = choose|i: int| 0 <= i < rooms_after.len() && #[trigger] carved_by(rooms_after, turns_after, i, x, y);
        if i < n {
            assert(rooms_after[i] == rooms[i]);
            assert(turns_after[i] == turns[i]);
            if i >= 1 {
                assert(rooms_after[i - 1] == rooms[i - 1]);
            }
            assert(carved_by(rooms, turns, i, x, y));
        }
    }
    if carved(rooms, turns, x, y) {
        let i = choose|i: int| 0 <= i < rooms.len() && #[trigger] carved_by(rooms, turns, i, x, y);
        assert(rooms_after[i] == rooms[i]);
        assert(turns_after[i] == turns[i]);
        if i >= 1 {
            assert(rooms_after[i - 1] == rooms[i - 1]);
        }
        assert(carved_by(rooms_after, turns_after, i, x, y));
    }
    if room.contains(x, y) || (rooms.len() > 0 && on_corridor(
        rooms.last().center_spec(),
        room.center_spec(),
        turn,
        x,
        y,
    )) {
        assert(carved_by(rooms_after, turns_after, n, x, y));
    }
}

/// The corridor between the centres of two rooms that fit the map stays on the map.
proof fn lemma_corridor_on_map(from: Rect, to: Rect, turn: bool, x: int, y: int)
    requires
        room_fits(from),
        room_fits(to),
        on_corridor(from.center_spec(), to.center_spec(), turn, x, y),
    ensures
        0 < x < MAP_WIDTH - 1,
        0 < y < MAP_HEIGHT - 1,
{
    lemma_center_inside(from);
    lemma_center_inside(to);
}

/// The centre of a newly carved room can be reached from the centre of the room before it.
proof fn lemma_corridor_joins(map: Seq<Vec<Tile>>, from: Rect, to: Rect, turn: bool)
    requires
        has_size(map, MAP_WIDTH as int, MAP_HEIGHT as int),
        room_fits(from),
        room_fits(to),
        forall|x: int, y: int|
            on_corridor(from.center_spec(), to.center_spec(), turn, x, y) ==> !(#[trigger] tile(map, x, y)).blocked,
    ensures
        reachable(map, from.center_spec(), to.center_spec()),
{
    let a = from.center_spec();
    let b = to.center_spec();
    lemma_center_inside(from);
    lemma_center_inside(to);
    if turn {
        assert forall|x: int| lower(a.0, b.0) <= x <= upper(a.0, b.0) implies open_at(map, (x, a.1)) by {
            assert(on_corridor(a, b, turn, x, a.1));
            assert(!tile(map, x, a.1).blocked);
        }
        lemma_row_reachable(map, a.1, a.0, b.0);
        assert forall|y: int| lower(a.1, b.1) <= y <= upper(a.1, b.1) implies open_at(map, (b.0, y)) by {
            assert(on_corridor(a, b, turn, b.0, y));
            assert(!tile(map, b.0, y).blocked);
        }
        lemma_column_reachable(map, b.0, a.1, b.1);
        lemma_reachable_chain(map, a, (b.0, a.1), b);
    } else {
        assert forall|y: int| lower(a.1, b.1) <= y <= upper(a.1, b.1) implies open_at(map, (a.0, y)) by {
            assert(on_corridor(a, b, turn, a.0, y));
            assert(!tile(map, a.0, y).blocked);
        }
        lemma_column_reachable(map, a.0, a.1, b.1);
        assert forall|x: int| lower(a.0, b.0) <= x <= upper(a.0, b.0) implies open_at(map, (x, b.1)) by {
            assert(on_corridor(a, b, turn, x, b.1));
            assert(!tile(map, x, b.1).blocked);
        }
        lemma_row_reachable(map, b.1, a.0, b.0);
        lemma_reachable_chain(map, a, (a.0, b.1), b);
    }
}

/// Carving an acceptable room into a level that was laid out, and joining it to the
/// room placed last, gives a level that is laid out with one room more.
proof fn lemma_room_added(
    before: Seq<Vec<Tile>>,
    after: Seq<Vec<Tile>>,
    rooms: Seq<Rect>,
    turns: Seq<bool>,
    room: Rect,
    turn: bool,
)
    requires
        laid_out(before, rooms, turns),
        has_size(after, MAP_WIDTH as int, MAP_HEIGHT as int),
        room_fits(room),
        forall|i: int| 0 <= i < rooms.len() ==> !room.intersects_spec(#[trigger] rooms[i]),
        room_carved(before, after, rooms, room, turn),
    ensures
        laid_out(after, rooms.push(room), turns.push(turn)),
        forall|x: int, y: int| open_at(before, (x, y)) ==> open_at(after, (x, y)),
{
    let rooms_after = rooms.push(room);
    let turns_after = turns.push(turn);
    let n = rooms.len() as int;
    assert forall|i: int| 0 <= i < rooms_after.len() implies room_fits(#[trigger] rooms_after[i]) by {
        if i < n {
            assert(rooms_after[i] == rooms[i]);
            assert(room_fits(rooms[i]));
        }
    }
    assert(rooms_apart(rooms_after)) by {
        assert forall|i: int, j: int| 0 <= i < j < rooms_after.len() implies !rooms_after[i].intersects_spec(
            rooms_after[j],
        ) by {
            assert(rooms_after[i] == rooms[i]);
            if j < n {
                assert(rooms_after[j] == rooms[j]);
                assert(!rooms[i].intersects_spec(rooms[j]));
            } else {
                assert(!room.intersects_spec(rooms[i]));
            }
        }
    }
    assert forall|x: int, y: int| on_grid(after, x, y) implies #[trigger] tile(after, x, y) == (if carved(
        rooms_after,
        turns_after,
        x,
        y,
    ) {
        Tile::empty()
    } else {
        Tile::wall()
    }) by {
        lemma_carved_more(rooms, turns, room, turn, x, y);
        assert(on_grid(before, x, y));
        assert(tile(before, x, y) == if carved(rooms, turns, x, y) {
            Tile::empty()
        } else {
            Tile::wall()
        });
    }
    assert forall|x: int, y: int| open_at(before, (x, y)) implies open_at(after, (x, y)) by {
        assert(on_grid(after, x, y));
        assert(tile(before, x, y) == Tile::empty());
        lemma_carved_more(rooms, turns, room, turn, x, y);
    }
    let center = room.center_spec();
    lemma_center_inside(room);
    assert(open_at(after, center)) by {
        assert(on_grid(after, center.0, center.1));
        lemma_carved_more(rooms, turns, room, turn, center.0, center.1);
    }
    assert(rooms_after[n] == room);
    if n == 0 {
        lemma_reachable_self(after, center);
        assert(rooms_joined(after, rooms_after));
    } else {
        let first = rooms[0].center_spec();
        let last = rooms[n - 1].center_spec();
        assert(rooms_after[0] == rooms[0]);
        assert(room_fits(rooms[n - 1]));
        assert forall|x: int, y: int| on_corridor(last, center, turn, x, y) implies !(#[trigger] tile(
            after,
            x,
            y,
        )).blocked by {
            lemma_corridor_on_map(rooms[n - 1], room, turn, x, y);
            assert(on_grid(after, x, y));
        }
        lemma_corridor_joins(after, rooms[n - 1], room, turn);
        assert(reachable(before, first, last));
        lemma_reachable_kept(before, after, first, last);
        lemma_reachable_chain(after, first, last, center);
        assert forall|i: int| 0 <= i < rooms_after.len() implies reachable(
            after,
            rooms_after[0].center_spec(),
            #[trigger] rooms_after[i].center_spec(),
        ) by {
            if i < n {
                assert(rooms_after[i] == rooms[i]);
                assert(reachable(before, first, rooms[i].center_spec()));
                lemma_reachable_kept(before, after, first, rooms[i].center_spec());
            }
        }
    }
}

} // verus!
