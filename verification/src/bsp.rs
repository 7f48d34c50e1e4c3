//! Levels by binary space partitioning: the map is split into ever smaller regions, a
//! room is carved into each region that is not split, and the rooms of the two halves of
//! each split are joined by a corridor.

use vstd::prelude::*;
use crate::generator::{
    lemma_center_inside, lemma_joined_pairwise, room_fits, rooms_apart, rooms_joined, Layout,
};
use crate::map::{
    create_h_tunnel, create_room, create_v_tunnel, has_size, lower, on_grid, same_shape, tile,
    upper, Rect, Tile, MAP_HEIGHT, MAP_WIDTH,
};
use crate::reach::{
    lemma_column_reachable, lemma_reachable_chain, lemma_reachable_self, lemma_row_reachable,
    open_at, reachable, Point,
};
use crate::rng::{gen_bool, gen_range, pick};
use rand::{thread_rng, ThreadRng};

verus! {

/// How often a region is split at most.
pub const BSP_DEPTH: u32 = 10;

/// The least width and height of a region.
pub const BSP_MIN_SIZE: i32 = 5;

/// A rectangular part of the map: the tiles from column `x` and row `y` on, `w` wide
/// and `h` high.
#[derive(Clone, Copy, Debug, PartialEq, Eq, Structural)]
pub struct Region {
    pub x: i32,
    pub y: i32,
    pub w: i32,
    pub h: i32,
}

/// The corridor between two rooms, from the centre of the one to the centre of the
/// other in three stretches. If `horizontal_first`, it runs along the row of the first
/// centre to the column `via`, along that column to the row of the second centre, and
/// along that row to the second centre. Otherwise it runs along the column of the first
/// centre to the row `via`, along that row, and along the column of the second centre.
#[derive(Clone, Copy, Debug, PartialEq, Eq, Structural)]
pub struct Corridor {
    pub horizontal_first: bool,
    pub via: i32,
}

/// A region of the partition: one that holds a room, or one that is split in two.
#[derive(Debug)]
pub enum Node {
    Leaf { region: Region, room: Rect },
    Split { region: Region, first: Box<Node>, second: Box<Node>, corridor: Corridor },
}

/// Whether the region lies on the map and is not smaller than a region may be.
pub open spec fn region_ok(r: Region) -> bool {
    &&& 0 <= r.x
    &&& 0 <= r.y
    &&& BSP_MIN_SIZE <= r.w
    &&& BSP_MIN_SIZE <= r.h
    &&& r.x + r.w <= MAP_WIDTH
    &&& r.y + r.h <= MAP_HEIGHT
}

/// Whether the room, borders included, lies in the region and has tiles inside.
pub open spec fn room_in(room: Rect, r: Region) -> bool {
    &&& r.x <= room.x1
    &&& room.x1 + 2 <= room.x2 <= r.x + r.w - 1
    &&& r.y <= room.y1
    &&& room.y1 + 2 <= room.y2 <= r.y + r.h - 1
}

/// Whether `first` and `second` are the left and the right part of `whole`.
pub open spec fn side_by_side(whole: Region, first: Region, second: Region) -> bool {
    &&& first.x == whole.x
    &&& first.y == whole.y
    &&& first.h == whole.h
    &&& second.x == whole.x + first.w
    &&& second.y == whole.y
    &&& second.h == whole.h
    &&& first.w + second.w == whole.w
}

/// Whether `first` and `second` are the upper and the lower part of `whole`.
pub open spec fn stacked(whole: Region, first: Region, second: Region) -> bool {
    &&& first.x == whole.x
    &&& first.y == whole.y
    &&& first.w == whole.w
    &&& second.x == whole.x
    &&& second.y == whole.y + first.h
    &&& second.w == whole.w
    &&& first.h + second.h == whole.h
}

/// Whether the rows inside the two rooms have a row in common.
pub open spec fn rows_overlap(a: Rect, b: Rect) -> bool {
    upper(a.y1 as int, b.y1 as int) + 1 <= lower(a.y2 as int, b.y2 as int) - 1
}

/// Whether the columns inside the two rooms have a column in common.
pub open spec fn columns_overlap(a: Rect, b: Rect) -> bool {
    upper(a.x1 as int, b.x1 as int) + 1 <= lower(a.x2 as int, b.x2 as int) - 1
}

/// Whether the corridor is one that joins the room `a` on the left to the room `b` on
/// the right: straight along a row that lies inside both rooms, if there is one, and
/// else bent twice, along a column between the rooms.
pub open spec fn joins_sideways(a: Rect, b: Rect, c: Corridor) -> bool {
    if rows_overlap(a, b) {
        !c.horizontal_first && upper(a.y1 as int, b.y1 as int) < c.via < lower(a.y2 as int, b.y2 as int)
    } else {
        c.horizontal_first && a.x2 <= c.via <= b.x1
    }
}

/// Whether the corridor is one that joins the room `a` above to the room `b` below:
/// straight along a column that lies inside both rooms, if there is one, and else bent
/// twice, along a row between the rooms.
pub open spec fn joins_downward(a: Rect, b: Rect, c: Corridor) -> bool {
    if columns_overlap(a, b) {
        c.horizontal_first && upper(a.x1 as int, b.x1 as int) < c.via < lower(a.x2 as int, b.x2 as int)
    } else {
        !c.horizontal_first && a.y2 <= c.via <= b.y1
    }
}

/// Whether `(x, y)` lies on the corridor from `from` to `to`.
pub open spec fn on_bent(from: Point, to: Point, c: Corridor, x: int, y: int) -> bool {
    if c.horizontal_first {
        ||| y == from.1 && lower(from.0, c.via as int) <= x <= upper(from.0, c.via as int)
        ||| x == c.via && lower(from.1, to.1) <= y <= upper(from.1, to.1)
        ||| y == to.1 && lower(c.via as int, to.0) <= x <= upper(c.via as int, to.0)
    } else {
        ||| x == from.0 && lower(from.1, c.via as int) <= y <= upper(from.1, c.via as int)
        ||| y == c.via && lower(from.0, to.0) <= x <= upper(from.0, to.0)
        ||| x == to.0 && lower(c.via as int, to.1) <= y <= upper(c.via as int, to.1)
    }
}

impl Node {
    /// The region of the node.
    pub open spec fn region_spec(self) -> Region {
        match self {
            Node::Leaf { region, .. } => region,
            Node::Split { region, .. } => region,
        }
    }

    /// The room that stands for the node when it is joined to its neighbour: the room of
    /// a leaf, and the room that stands for the first half of a split.
    pub open spec fn room_spec(self) -> Rect
        decreases self,
    {
        match self {
            Node::Leaf { room, .. } => room,
            Node::Split { first, .. } => first.room_spec(),
        }
    }

    /// The rooms of the node, those of the first half of a split before those of the second.
    pub open spec fn rooms_spec(self) -> Seq<Rect>
        decreases self,
    {
        match self {
            Node::Leaf { room, .. } => seq![room],
            Node::Split { first, second, .. } => first.rooms_spec() + second.rooms_spec(),
        }
    }

    /// How often the node is split along its longest branch.
    pub open spec fn depth(self) -> nat
        decreases self,
    {
        match self {
            Node::Leaf { .. } => 0,
            Node::Split { first, second, .. } => 1 + if first.depth() >= second.depth() {
                first.depth()
            } else {
                second.depth()
            },
        }
    }

    /// Whether the node is put together as it should be: regions lie on the map, each
    /// leaf holds a room, the halves of each split make up the whole, and the corridor of
    /// each split joins the rooms that stand for its halves.
    pub open spec fn wf(self) -> bool
        decreases self,
    {
        match self {
            Node::Leaf { region, room } => region_ok(region) && room_in(room, region),
            Node::Split { region, first, second, corridor } => {
                &&& region_ok(region)
                &&& first.wf()
                &&& second.wf()
                &&& {
                    ||| side_by_side(region, first.region_spec(), second.region_spec()) && joins_sideways(
                        first.room_spec(),
                        second.room_spec(),
                        corridor,
                    )
                    ||| stacked(region, first.region_spec(), second.region_spec()) && joins_downward(
                        first.room_spec(),
                        second.room_spec(),
                        corridor,
                    )
                }
            },
        }
    }

    /// Whether the node is split as far as `depth` allows: a region is split, as long as
    /// it may be, if it is wide or high enough for two regions, and both parts are split
    /// in the same way with one split less to go.
    pub open spec fn grown(self, depth: nat) -> bool
        decreases self,
    {
        match self {
            Node::Leaf { region, .. } => depth == 0 || (region.w < 2 * BSP_MIN_SIZE && region.h < 2
                * BSP_MIN_SIZE),
            Node::Split { region, first, second, .. } => {
                &&& depth > 0
                &&& first.grown((depth - 1) as nat)
                &&& second.grown((depth - 1) as nat)
            },
        }
    }

    /// Whether the node opens the tile `(x, y)`: the tile lies inside one of its rooms
    /// or on one of its corridors.
    pub open spec fn opens(self, x: int, y: int) -> bool
        decreases self,
    {
        match self {
            Node::Leaf { room, .. } => room.contains(x, y),
            Node::Split { first, second, corridor, .. } => {
                ||| first.opens(x, y)
                ||| second.opens(x, y)
                ||| on_bent(first.room_spec().center_spec(), second.room_spec().center_spec(), corridor, x, y)
            },
        }
    }

    /// The region of the node.
    pub fn region(&self) -> (region: Region)
        ensures
            region == self.region_spec(),
    {
        match self {
            Node::Leaf { region, .. } => *region,
            Node::Split { region, .. } => *region,
        }
    }

    /// The room that stands for the node when it is joined to its neighbour.
    pub fn room(&self) -> (room: Rect)
        ensures
            room == self.room_spec(),
        decreases self,
    {
        match self {
            Node::Leaf { room, .. } => *room,
            Node::Split { first, .. } => first.room(),
        }
    }

    /// Adds the rooms of the node to `rooms`, those of the first half of a split first.
    pub fn collect_rooms(&self, rooms: &mut Vec<Rect>)
        ensures
            final(rooms)@ == old(rooms)@ + self.rooms_spec(),
        decreases self,
    {
        match self {
            Node::Leaf { room, .. } => {
                rooms.push(*room);
                assert(rooms@ =~= old(rooms)@ + self.rooms_spec());
            },
            Node::Split { first, second, .. } => {
                first.collect_rooms(rooms);
                second.collect_rooms(rooms);
                assert(rooms@ =~= old(rooms)@ + self.rooms_spec());
            },
        }
    }
}

/// A node that is split as far as `depth` allows is not split more often than that
/// along any branch.
pub proof fn lemma_grown_depth(node: Node, depth: nat)
    requires
        node.grown(depth),
    ensures
        node.depth() <= depth,
    decreases node,
{
    match node {
        Node::Leaf { .. } => {},
        Node::Split { first, second, .. } => {
            lemma_grown_depth(*first, (depth - 1) as nat);
            lemma_grown_depth(*second, (depth - 1) as nat);
        },
    }
}

/// A room that lies in a region of the map fits the map.
pub proof fn lemma_room_fits(room: Rect, region: Region)
    requires
        region_ok(region),
        room_in(room, region),
    ensures
        room_fits(room),
{
}

/// The rooms of a node lie in its region, and the first of them stands for the node.
pub proof fn lemma_rooms_within(node: Node)
    requires
        node.wf(),
    ensures
        region_ok(node.region_spec()),
        node.rooms_spec().len() >= 1,
        node.rooms_spec()[0] == node.room_spec(),
        room_in(node.room_spec(), node.region_spec()),
        forall|i: int| 0 <= i < node.rooms_spec().len() ==> room_in(#[trigger] node.rooms_spec()[i], node.region_spec()),
    decreases node,
{
    match node {
        Node::Leaf { .. } => {},
        Node::Split { first, second, .. } => {
            lemma_rooms_within(*first);
            lemma_rooms_within(*second);
            let rooms = node.rooms_spec();
            assert forall|i: int| 0 <= i < rooms.len() implies room_in(#[trigger] rooms[i], node.region_spec()) by {
                if i < first.rooms_spec().len() {
                    assert(rooms[i] == first.rooms_spec()[i]);
                    assert(room_in(first.rooms_spec()[i], first.region_spec()));
                } else {
                    assert(rooms[i] == second.rooms_spec()[i - first.rooms_spec().len()]);
                    assert(room_in(second.rooms_spec()[i - first.rooms_spec().len()], second.region_spec()));
                }
            }
        },
    }
}

/// No two rooms of a node share a tile, not even a tile of their borders.
pub proof fn lemma_rooms_apart(node: Node)
    requires
        node.wf(),
    ensures
        rooms_apart(node.rooms_spec()),
    decreases node,
{
    match node {
        Node::Leaf { .. } => {},
        Node::Split { first, second, .. } => {
            lemma_rooms_apart(*first);
            lemma_rooms_apart(*second);
            lemma_rooms_within(*first);
            lemma_rooms_within(*second);
            let rooms = node.rooms_spec();
            let n = first.rooms_spec().len() as int;
            assert forall|i: int, j: int| 0 <= i < j < rooms.len() implies !rooms[i].intersects_spec(rooms[j]) by {
                if j < n {
                    assert(rooms[i] == first.rooms_spec()[i] && rooms[j] == first.rooms_spec()[j]);
                } else if i >= n {
                    assert(rooms[i] == second.rooms_spec()[i - n] && rooms[j] == second.rooms_spec()[j - n]);
                } else {
                    assert(rooms[i] == first.rooms_spec()[i]);
                    assert(rooms[j] == second.rooms_spec()[j - n]);
                    assert(room_in(first.rooms_spec()[i], first.region_spec()));
                    assert(room_in(second.rooms_spec()[j - n], second.region_spec()));
                }
            }
        },
    }
}

/// Every tile that a node opens lies on the map and off its rim.
pub proof fn lemma_opens_on_map(node: Node, x: int, y: int)
    requires
        node.wf(),
        node.opens(x, y),
    ensures
        0 < x < MAP_WIDTH - 1,
        0 < y < MAP_HEIGHT - 1,
    decreases node,
{
    lemma_rooms_within(node);
    match node {
        Node::Leaf { .. } => {},
        Node::Split { first, second, corridor, .. } => {
            lemma_rooms_within(*first);
            lemma_rooms_within(*second);
            if first.opens(x, y) {
                lemma_opens_on_map(*first, x, y);
            } else if second.opens(x, y) {
                lemma_opens_on_map(*second, x, y);
            } else {
                lemma_room_fits(first.room_spec(), first.region_spec());
                lemma_room_fits(second.room_spec(), second.region_spec());
                lemma_center_inside(first.room_spec());
                lemma_center_inside(second.room_spec());
            }
        },
    }
}

/// On a map on which every tile that a node opens is open, the centre of each room of
/// the node can be reached from the centre of its first room.
pub proof fn lemma_rooms_joined(node: Node, map: Seq<Vec<Tile>>)
    requires
        node.wf(),
        has_size(map, MAP_WIDTH as int, MAP_HEIGHT as int),
        forall|x: int, y: int| node.opens(x, y) ==> !(#[trigger] tile(map, x, y)).blocked,
    ensures
        rooms_joined(map, node.rooms_spec()),
    decreases node,
{
    lemma_rooms_within(node);
    match node {
        Node::Leaf { region, room } => {
            lemma_room_fits(room, region);
            lemma_center_inside(room);
            let c = room.center_spec();
            assert(node.opens(c.0, c.1));
            assert(!tile(map, c.0, c.1).blocked);
            lemma_reachable_self(map, c);
        },
        Node::Split { first, second, corridor, .. } => {
            assert forall|x: int, y: int| first.opens(x, y) implies !(#[trigger] tile(map, x, y)).blocked by {
                assert(node.opens(x, y));
            }
            assert forall|x: int, y: int| second.opens(x, y) implies !(#[trigger] tile(map, x, y)).blocked by {
                assert(node.opens(x, y));
            }
            lemma_rooms_joined(*first, map);
            lemma_rooms_joined(*second, map);
            lemma_rooms_within(*first);
            lemma_rooms_within(*second);
            let a = first.room_spec();
            let b = second.room_spec();
            lemma_room_fits(a, first.region_spec());
            lemma_room_fits(b, second.region_spec());
            assert forall|x: int, y: int| on_bent(a.center_spec(), b.center_spec(), corridor, x, y) implies open_at(
                map,
                (x, y),
            ) by {
                assert(node.opens(x, y));
                lemma_opens_on_map(node, x, y);
                assert(!tile(map, x, y).blocked);
            }
            lemma_bent_joins(map, a.center_spec(), b.center_spec(), corridor);
            let rooms = node.rooms_spec();
            let n = first.rooms_spec().len() as int;
            assert(rooms[0] == first.rooms_spec()[0]);
            assert(reachable(map, a.center_spec(), second.rooms_spec()[0].center_spec()));
            assert forall|i: int| 0 <= i < rooms.len() implies reachable(
                map,
                rooms[0].center_spec(),
                #[trigger] rooms[i].center_spec(),
            ) by {
                if i < n {
                    assert(rooms[i] == first.rooms_spec()[i]);
                    assert(reachable(map, first.rooms_spec()[0].center_spec(), first.rooms_spec()[i].center_spec()));
                } else {
                    assert(rooms[i] == second.rooms_spec()[i - n]);
                    assert(reachable(
                        map,
                        second.rooms_spec()[0].center_spec(),
                        second.rooms_spec()[i - n].center_spec(),
                    ));
                    lemma_reachable_chain(map, a.center_spec(), b.center_spec(), rooms[i].center_spec());
                }
            }
        },
    }
}

/// The end of a corridor whose tiles are open can be reached from its beginning.
proof fn lemma_bent_joins(map: Seq<Vec<Tile>>, from: Point, to: Point, c: Corridor)
    requires
        forall|x: int, y: int| on_bent(from, to, c, x, y) ==> open_at(map, (x, y)),
    ensures
        reachable(map, from, to),
{
    let via = c.via as int;
    if c.horizontal_first {
        assert forall|x: int| lower(from.0, via) <= x <= upper(from.0, via) implies open_at(map, (x, from.1)) by {
            assert(on_bent(from, to, c, x, from.1));
        }
        lemma_row_reachable(map, from.1, from.0, via);
        assert forall|y: int| lower(from.1, to.1) <= y <= upper(from.1, to.1) implies open_at(map, (via, y)) by {
            assert(on_bent(from, to, c, via, y));
        }
        lemma_column_reachable(map, via, from.1, to.1);
        assert forall|x: int| lower(via, to.0) <= x <= upper(via, to.0) implies open_at(map, (x, to.1)) by {
            assert(on_bent(from, to, c, x, to.1));
        }
        lemma_row_reachable(map, to.1, via, to.0);
        lemma_reachable_chain(map, from, (via, from.1), (via, to.1));
        lemma_reachable_chain(map, from, (via, to.1), to);
    } else {
        assert forall|y: int| lower(from.1, via) <= y <= upper(from.1, via) implies open_at(map, (from.0, y)) by {
            assert(on_bent(from, to, c, from.0, y));
        }
        lemma_column_reachable(map, from.0, from.1, via);
        assert forall|x: int| lower(from.0, to.0) <= x <= upper(from.0, to.0) implies open_at(map, (x, via)) by {
            assert(on_bent(from, to, c, x, via));
        }
        lemma_row_reachable(map, via, from.0, to.0);
        assert forall|y: int| lower(via, to.1) <= y <= upper(via, to.1) implies open_at(map, (to.0, y)) by {
            assert(on_bent(from, to, c, to.0, y));
        }
        lemma_column_reachable(map, to.0, via, to.1);
        lemma_reachable_chain(map, from, (from.0, via), (to.0, via));
        lemma_reachable_chain(map, from, (to.0, via), to);
    }
}

/// Carves the corridor from `from` to `to`.
fn carve_corridor(from: (i32, i32), to: (i32, i32), corridor: Corridor, map: &mut Vec<Vec<Tile>>)
    requires
        has_size(old(map)@, MAP_WIDTH as int, MAP_HEIGHT as int),
        forall|x: int, y: int|
            on_bent((from.0 as int, from.1 as int), (to.0 as int, to.1 as int), corridor, x, y) ==> 0 <= x
                < MAP_WIDTH && 0 <= y < MAP_HEIGHT,
    ensures
        has_size(final(map)@, MAP_WIDTH as int, MAP_HEIGHT as int),
        forall|x: int, y: int|
            on_grid(final(map)@, x, y) ==> #[trigger] tile(final(map)@, x, y) == (if on_bent(
                (from.0 as int, from.1 as int),
                (to.0 as int, to.1 as int),
                corridor,
                x,
                y,
            ) {
                Tile::empty()
            } else {
                tile(old(map)@, x, y)
            }),
{
    let ghost start: Point = (from.0 as int, from.1 as int);
    let ghost end: Point = (to.0 as int, to.1 as int);
    let ghost map0 = map@;
    if corridor.horizontal_first {
        assert forall|x: int| lower(from.0 as int, corridor.via as int) <= x <= upper(
            from.0 as int,
            corridor.via as int,
        ) implies on_grid(map0, x, from.1 as int) by {
            assert(on_bent(start, end, corridor, x, from.1 as int));
        }
        create_h_tunnel(from.0, corridor.via, from.1, map);
        let ghost map1 = map@;
        proof {
            lemma_shape_kept(map0, map1);
        }
        assert forall|y: int| lower(from.1 as int, to.1 as int) <= y <= upper(from.1 as int, to.1 as int) implies on_grid(
            map1,
            corridor.via as int,
            y,
        ) by {
            assert(on_bent(start, end, corridor, corridor.via as int, y));
        }
        create_v_tunnel(from.1, to.1, corridor.via, map);
        let ghost map2 = map@;
        proof {
            lemma_shape_kept(map1, map2);
        }
        assert forall|x: int| lower(corridor.via as int, to.0 as int) <= x <= upper(
            corridor.via as int,
            to.0 as int,
        ) implies on_grid(map2, x, to.1 as int) by {
            assert(on_bent(start, end, corridor, x, to.1 as int));
        }
        create_h_tunnel(corridor.via, to.0, to.1, map);
        proof {
            lemma_shape_kept(map2, map@);
            assert forall|x: int, y: int| on_grid(map@, x, y) implies #[trigger] tile(map@, x, y) == (if on_bent(
                start,
                end,
                corridor,
                x,
                y,
            ) {
                Tile::empty()
            } else {
                tile(map0, x, y)
            }) by {
                assert(on_grid(map2, x, y) && on_grid(map1, x, y) && on_grid(map0, x, y));
                assert(tile(map2, x, y) == if x == corridor.via && lower(from.1 as int, to.1 as int) <= y <= upper(
                    from.1 as int,
                    to.1 as int,
                ) {
                    Tile::empty()
                } else {
                    tile(map1, x, y)
                });
                assert(tile(map1, x, y) == if y == from.1 && lower(from.0 as int, corridor.via as int) <= x <= upper(
                    from.0 as int,
                    corridor.via as int,
                ) {
                    Tile::empty()
                } else {
                    tile(map0, x, y)
                });
            }
        }
    } else {
        assert forall|y: int| lower(from.1 as int, corridor.via as int) <= y <= upper(
            from.1 as int,
            corridor.via as int,
        ) implies on_grid(map0, from.0 as int, y) by {
            assert(on_bent(start, end, corridor, from.0 as int, y));
        }
        create_v_tunnel(from.1, corridor.via, from.0, map);
        let ghost map1 = map@;
        proof {
            lemma_shape_kept(map0, map1);
        }
        assert forall|x: int| lower(from.0 as int, to.0 as int) <= x <= upper(from.0 as int, to.0 as int) implies on_grid(
            map1,
            x,
            corridor.via as int,
        ) by {
            assert(on_bent(start, end, corridor, x, corridor.via as int));
        }
        create_h_tunnel(from.0, to.0, corridor.via, map);
        let ghost map2 = map@;
        proof {
            lemma_shape_kept(map1, map2);
        }
        assert forall|y: int| lower(corridor.via as int, to.1 as int) <= y <= upper(
            corridor.via as int,
            to.1 as int,
        ) implies on_grid(map2, to.0 as int, y) by {
            assert(on_bent(start, end, corridor, to.0 as int, y));
        }
        create_v_tunnel(corridor.via, to.1, to.0, map);
        proof {
            lemma_shape_kept(map2, map@);
            assert forall|x: int, y: int| on_grid(map@, x, y) implies #[trigger] tile(map@, x, y) == (if on_bent(
                start,
                end,
                corridor,
                x,
                y,
            ) {
                Tile::empty()
            } else {
                tile(map0, x, y)
            }) by {
                assert(on_grid(map2, x, y) && on_grid(map1, x, y) && on_grid(map0, x, y));
                assert(tile(map2, x, y) == if y == corridor.via && lower(from.0 as int, to.0 as int) <= x <= upper(
                    from.0 as int,
                    to.0 as int,
                ) {
                    Tile::empty()
                } else {
                    tile(map1, x, y)
                });
                assert(tile(map1, x, y) == if x == from.0 && lower(from.1 as int, corridor.via as int) <= y <= upper(
                    from.1 as int,
                    corridor.via as int,
                ) {
                    Tile::empty()
                } else {
                    tile(map0, x, y)
                });
            }
        }
    }
}

/// A grid of the shape of a grid of the size of the map has that size.
proof fn lemma_shape_kept(before: Seq<Vec<Tile>>, after: Seq<Vec<Tile>>)
    requires
        has_size(before, MAP_WIDTH as int, MAP_HEIGHT as int),
        same_shape(before, after),
    ensures
        has_size(after, MAP_WIDTH as int, MAP_HEIGHT as int),
        forall|x: int, y: int| on_grid(before, x, y) <==> on_grid(after, x, y),
{
    assert forall|x: int| 0 <= x < MAP_WIDTH implies (#[trigger] after[x]).len() == MAP_HEIGHT by {
        assert(before[x].len() == after[x].len());
    }
}

impl Node {
    /// Carves the rooms and the corridors of the node into the map.
    pub fn carve(&self, map: &mut Vec<Vec<Tile>>)
        requires
            self.wf(),
            has_size(old(map)@, MAP_WIDTH as int, MAP_HEIGHT as int),
        ensures
            has_size(final(map)@, MAP_WIDTH as int, MAP_HEIGHT as int),
            forall|x: int, y: int|
                on_grid(final(map)@, x, y) ==> #[trigger] tile(final(map)@, x, y) == (if self.opens(x, y) {
                    Tile::empty()
                } else {
                    tile(old(map)@, x, y)
                }),
        decreases self,
    {
        let ghost map0 = map@;
        match self {
            Node::Leaf { region, room } => {
                proof {
                    lemma_room_fits(*room, *region);
                }
                create_room(*room, map);
                proof {
                    lemma_shape_kept(map0, map@);
                }
            },
            Node::Split { first, second, corridor, .. } => {
                first.carve(map);
                let ghost map1 = map@;
                second.carve(map);
                let ghost map2 = map@;
                let from = first.room().center();
                let to = second.room().center();
                proof {
                    assert forall|x: int, y: int|
                        on_bent((from.0 as int, from.1 as int), (to.0 as int, to.1 as int), *corridor, x, y) implies 0
                        <= x < MAP_WIDTH && 0 <= y < MAP_HEIGHT by {
                        assert(self.opens(x, y));
                        lemma_opens_on_map(*self, x, y);
                    }
                }
                carve_corridor(from, to, *corridor, map);
                proof {
                    assert forall|x: int, y: int| on_grid(map@, x, y) implies #[trigger] tile(map@, x, y) == (
                    if self.opens(x, y) {
                        Tile::empty()
                    } else {
                        tile(map0, x, y)
                    }) by {
                        assert(on_grid(map2, x, y) && on_grid(map1, x, y) && on_grid(map0, x, y));
                        assert(tile(map2, x, y) == if second.opens(x, y) {
                            Tile::empty()
                        } else {
                            tile(map1, x, y)
                        });
                        assert(tile(map1, x, y) == if first.opens(x, y) {
                            Tile::empty()
                        } else {
                            tile(map0, x, y)
                        });
                    }
                }
            },
        }
    }
}

/// The whole map as a region.
pub open spec fn whole_map() -> Region {
    Region { x: 0, y: 0, w: MAP_WIDTH, h: MAP_HEIGHT }
}

/// Makes the room of a region that is not split: one that fills the region, if
/// `full_rooms`, and else one of random extent at a random place in the region. Its walls
/// belong to the region.
pub fn make_room(region: Region, full_rooms: bool, rng: &mut ThreadRng) -> (room: Rect)
    requires
        region_ok(region),
    ensures
        room_in(room, region),
        full_rooms ==> room == (Rect {
            x1: region.x,
            y1: region.y,
            x2: (region.x + region.w - 1) as i32,
            y2: (region.y + region.h - 1) as i32,
        }),
        !full_rooms ==> room.x2 - room.x1 >= BSP_MIN_SIZE - 1 && room.y2 - room.y1 >= BSP_MIN_SIZE - 1,
{
    if full_rooms {
        Rect { x1: region.x, y1: region.y, x2: region.x + region.w - 1, y2: region.y + region.h - 1 }
    } else {
        let x1 = gen_range(rng, region.x, region.x + region.w - BSP_MIN_SIZE + 1);
        let y1 = gen_range(rng, region.y, region.y + region.h - BSP_MIN_SIZE + 1);
        let x2 = gen_range(rng, x1 + BSP_MIN_SIZE - 1, region.x + region.w);
        let y2 = gen_range(rng, y1 + BSP_MIN_SIZE - 1, region.y + region.h);
        Rect { x1, y1, x2, y2 }
    }
}

/// Chooses the corridor that joins the room `a` on the left to the room `b` on the
/// right: straight along a row that lies inside both rooms, if there is one, and else
/// bent twice, along a column between the rooms.
pub fn corridor_sideways(a: Rect, b: Rect, rng: &mut ThreadRng) -> (corridor: Corridor)
    requires
        room_fits(a),
        room_fits(b),
        a.x2 <= b.x1,
    ensures
        joins_sideways(a, b, corridor),
{
    let low = if a.y1 >= b.y1 {
        a.y1
    } else {
        b.y1
    } + 1;
    let high = if a.y2 <= b.y2 {
        a.y2
    } else {
        b.y2
    } - 1;
    if low <= high {
        Corridor { horizontal_first: false, via: gen_range(rng, low, high + 1) }
    } else {
        Corridor { horizontal_first: true, via: gen_range(rng, a.x2, b.x1 + 1) }
    }
}

/// Chooses the corridor that joins the room `a` above to the room `b` below: straight
/// along a column that lies inside both rooms, if there is one, and else bent twice,
/// along a row between the rooms.
pub fn corridor_downward(a: Rect, b: Rect, rng: &mut ThreadRng) -> (corridor: Corridor)
    requires
        room_fits(a),
        room_fits(b),
        a.y2 <= b.y1,
    ensures
        joins_downward(a, b, corridor),
{
    let low = if a.x1 >= b.x1 {
        a.x1
    } else {
        b.x1
    } + 1;
    let high = if a.x2 <= b.x2 {
        a.x2
    } else {
        b.x2
    } - 1;
    if low <= high {
        Corridor { horizontal_first: true, via: gen_range(rng, low, high + 1) }
    } else {
        Corridor { horizontal_first: false, via: gen_range(rng, a.y2, b.y1 + 1) }
    }
}

/// Partitions a region: as long as `depth` allows and the region is wide or high enough
/// for two, it is split at a random place, side by side or one part above the other, and
/// the parts are partitioned in turn. A region that is not split receives a room, and the
/// two parts of each split are joined by a corridor.
pub fn grow(region: Region, depth: u32, full_rooms: bool, rng: &mut ThreadRng) -> (node: Node)
    requires
        region_ok(region),
    ensures
        node.wf(),
        node.region_spec() == region,
        node.grown(depth as nat),
    decreases depth,
{
    let wide = region.w >= 2 * BSP_MIN_SIZE;
    let high = region.h >= 2 * BSP_MIN_SIZE;
    if depth == 0 || (!wide && !high) {
        let room = make_room(region, full_rooms, rng);
        return Node::Leaf { region, room };
    }
    let sideways = if wide && high {
        gen_bool(rng)
    } else {
        wide
    };
    if sideways {
        let cut = gen_range(rng, BSP_MIN_SIZE, region.w - BSP_MIN_SIZE + 1);
        let first = grow(Region { x: region.x, y: region.y, w: cut, h: region.h }, depth - 1, full_rooms, rng);
        let second = grow(
            Region { x: region.x + cut, y: region.y, w: region.w - cut, h: region.h },
            depth - 1,
            full_rooms,
            rng,
        );
        proof {
            lemma_rooms_within(first);
            lemma_rooms_within(second);
            lemma_room_fits(first.room_spec(), first.region_spec());
            lemma_room_fits(second.room_spec(), second.region_spec());
        }
        let corridor = corridor_sideways(first.room(), second.room(), rng);
        Node::Split { region, first: Box::new(first), second: Box::new(second), corridor }
    } else {
        let cut = gen_range(rng, BSP_MIN_SIZE, region.h - BSP_MIN_SIZE + 1);
        let first = grow(Region { x: region.x, y: region.y, w: region.w, h: cut }, depth - 1, full_rooms, rng);
        let second = grow(
            Region { x: region.x, y: region.y + cut, w: region.w, h: region.h - cut },
            depth - 1,
            full_rooms,
            rng,
        );
        proof {
            lemma_rooms_within(first);
            lemma_rooms_within(second);
            lemma_room_fits(first.room_spec(), first.region_spec());
            lemma_room_fits(second.room_spec(), second.region_spec());
        }
        let corridor = corridor_downward(first.room(), second.room(), rng);
        Node::Split { region, first: Box::new(first), second: Box::new(second), corridor }
    }
}

/// A level made by partitioning the map: the grid, the partition, its rooms, and the
/// room in which the player starts.
pub struct BspLayout {
    pub map: Vec<Vec<Tile>>,
    pub tree: Node,
    pub rooms: Vec<Rect>,
    pub start: Rect,
}

impl BspLayout {
    /// Whether the level is what its partition carves out of solid rock: the partition
    /// is one of the whole map, split as far as `BSP_DEPTH` allows, the rooms are those of the
    /// partition, the tiles that the partition opens are floor and all others rock, and
    /// the player starts in one of the rooms.
    pub open spec fn wf(&self) -> bool {
        &&& has_size(self.map@, MAP_WIDTH as int, MAP_HEIGHT as int)
        &&& self.tree.wf()
        &&& self.tree.region_spec() == whole_map()
        &&& self.tree.grown(BSP_DEPTH as nat)
        &&& self.rooms@ == self.tree.rooms_spec()
        &&& forall|x: int, y: int|
            on_grid(self.map@, x, y) ==> #[trigger] tile(self.map@, x, y) == (if self.tree.opens(x, y) {
                Tile::empty()
            } else {
                Tile::wall()
            })
        &&& self.rooms@.contains(self.start)
    }
}

/// In a level made by partitioning, every room can be reached from the room in which
/// the player starts.
pub proof fn lemma_reachable_from_start(layout: BspLayout, i: int)
    requires
        layout.wf(),
        rooms_joined(layout.map@, layout.rooms@),
        0 <= i < layout.rooms@.len(),
    ensures
        reachable(layout.map@, layout.start.center_spec(), layout.rooms@[i].center_spec()),
{
    let s = choose|s: int| 0 <= s < layout.rooms@.len() && layout.rooms@[s] == layout.start;
    lemma_joined_pairwise(layout.map@, layout.rooms@, s, i);
}

/// Generates a level by partitioning the map. The rooms fill their regions if
/// `full_rooms` and are of random extent otherwise; the player starts in a room drawn at
/// random. No two rooms touch, and each room can be reached from each other.
pub fn generate_bsp(full_rooms: bool) -> (layout: BspLayout)
    ensures
        layout.wf(),
        rooms_apart(layout.rooms@),
        rooms_joined(layout.map@, layout.rooms@),
{
    let mut rng = thread_rng();
    let tree = grow(Region { x: 0, y: 0, w: MAP_WIDTH, h: MAP_HEIGHT }, BSP_DEPTH, full_rooms, &mut rng);
    let mut map = Layout::new().map;
    let ghost rock = map@;
    tree.carve(&mut map);
    let mut rooms: Vec<Rect> = Vec::new();
    tree.collect_rooms(&mut rooms);
    proof {
        lemma_rooms_within(tree);
        lemma_rooms_apart(tree);
        assert(rooms@ =~= tree.rooms_spec());
        assert forall|x: int, y: int| on_grid(map@, x, y) implies #[trigger] tile(map@, x, y) == (if tree.opens(
            x,
            y,
        ) {
            Tile::empty()
        } else {
            Tile::wall()
        }) by {
            assert(on_grid(rock, x, y));
            assert(tile(rock, x, y) == Tile::wall());
        }
        assert forall|x: int, y: int| tree.opens(x, y) implies !(#[trigger] tile(map@, x, y)).blocked by {
            lemma_opens_on_map(tree, x, y);
            assert(on_grid(map@, x, y));
        }
        lemma_rooms_joined(tree, map@);
    }
    let start = match pick(&mut rng, rooms.as_slice()) {
        Some(room) => *room,
        None => rooms[0],
    };
    BspLayout { map, tree, rooms, start }
}

} // verus!
