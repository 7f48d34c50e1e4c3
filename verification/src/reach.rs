//! Walks over open tiles, and what can be reached by them.

use vstd::prelude::*;
use crate::map::{lower, on_grid, tile, upper, Tile};

verus! {

/// A position on the grid: column, then row.
pub type Point = (int, int);

/// Whether `p` is a tile of the map that can be walked on.
pub open spec fn open_at(map: Seq<Vec<Tile>>, p: Point) -> bool {
    on_grid(map, p.0, p.1) && !tile(map, p.0, p.1).blocked
}

/// Whether `a` and `b` are neighbours along a row or a column.
pub open spec fn adjacent(a: Point, b: Point) -> bool {
    ||| a.0 == b.0 && (a.1 == b.1 + 1 || b.1 == a.1 + 1)
    ||| a.1 == b.1 && (a.0 == b.0 + 1 || b.0 == a.0 + 1)
}

/// Whether `path` is a walk over open tiles in which each step goes to a neighbour.
pub open spec fn walk(map: Seq<Vec<Tile>>, path: Seq<Point>) -> bool {
    &&& path.len() > 0
    &&& forall|i: int| 0 <= i < path.len() ==> open_at(map, #[trigger] path[i])
    &&& forall|i: int| 0 <= i < path.len() - 1 ==> adjacent(#[trigger] path[i], path[i + 1])
}

/// Whether `path` is a walk from `from` to `to`.
pub open spec fn walk_between(map: Seq<Vec<Tile>>, path: Seq<Point>, from: Point, to: Point) -> bool {
    walk(map, path) && path[0] == from && path.last() == to
}

/// Whether `to` can be reached from `from` over open tiles alone, which is what a flood
/// fill from `from` over the tiles that are not blocked finds.
pub open spec fn reachable(map: Seq<Vec<Tile>>, from: Point, to: Point) -> bool {
    exists|path: Seq<Point>| walk_between(map, path, from, to)
}

/// Every open tile is reachable from itself.
pub proof fn lemma_reachable_self(map: Seq<Vec<Tile>>, p: Point)
    requires
        open_at(map, p),
    ensures
        reachable(map, p, p),
{
    assert(walk_between(map, seq![p], p, p));
}

/// Each tile is reachable from its open neighbours.
pub proof fn lemma_reachable_step(map: Seq<Vec<Tile>>, a: Point, b: Point)
    requires
        open_at(map, a),
        open_at(map, b),
        adjacent(a, b),
    ensures
        reachable(map, a, b),
{
    assert(walk_between(map, seq![a, b], a, b));
}

/// What is reachable from a reachable tile is reachable.
pub proof fn lemma_reachable_chain(map: Seq<Vec<Tile>>, a: Point, b: Point, c: Point)
    requires
        reachable(map, a, b),
        reachable(map, b, c),
    ensures
        reachable(map, a, c),
{
    let first = choose|path: Seq<Point>| walk_between(map, path, a, b);
    let second = choose|path: Seq<Point>| walk_between(map, path, b, c);
    let rest = second.subrange(1, second.len() as int);
    let path = first + rest;
    assert forall|i: int| 0 <= i < path.len() implies open_at(map, #[trigger] path[i]) by {
        if i >= first.len() {
            assert(path[i] == second[i - first.len() + 1]);
        }
    }
    assert forall|i: int| 0 <= i < path.len() - 1 implies adjacent(#[trigger] path[i], path[i + 1]) by {
        if i < first.len() - 1 {
        } else if i == first.len() - 1 {
            assert(path[i] == second[0]);
            assert(path[i + 1] == second[1]);
        } else {
            assert(path[i] == second[i - first.len() + 1]);
            assert(path[i + 1] == second[i - first.len() + 2]);
        }
    }
    assert(path.last() == c) by {
        if rest.len() == 0 {
            assert(second.len() == 1);
        } else {
            assert(path.last() == second[second.len() - 1]);
        }
    }
    assert(walk_between(map, path, a, c));
}

/// Reachability goes both ways.
pub proof fn lemma_reachable_back(map: Seq<Vec<Tile>>, a: Point, b: Point)
    requires
        reachable(map, a, b),
    ensures
        reachable(map, b, a),
{
    let path = choose|path: Seq<Point>| walk_between(map, path, a, b);
    let back = Seq::new(path.len(), |i: int| path[path.len() - 1 - i]);
    assert forall|i: int| 0 <= i < back.len() - 1 implies adjacent(#[trigger] back[i], back[i + 1]) by {
        assert(adjacent(path[path.len() - 2 - i], path[path.len() - 2 - i + 1]));
    }
    assert(walk_between(map, back, b, a));
}

/// Opening more tiles keeps what was reachable reachable.
pub proof fn lemma_reachable_kept(before: Seq<Vec<Tile>>, after: Seq<Vec<Tile>>, a: Point, b: Point)
    requires
        forall|x: int, y: int| open_at(before, (x, y)) ==> open_at(after, (x, y)),
        reachable(before, a, b),
    ensures
        reachable(after, a, b),
{
    let path = choose|path: Seq<Point>| walk_between(before, path, a, b);
    assert forall|i: int| 0 <= i < path.len() implies open_at(after, #[trigger] path[i]) by {
        assert(open_at(before, (path[i].0, path[i].1)));
    }
    assert(walk_between(after, path, a, b));
}

/// Along a row of open tiles each tile is reachable from each other.
pub proof fn lemma_row_reachable(map: Seq<Vec<Tile>>, y: int, a: int, b: int)
    requires
        forall|x: int| lower(a, b) <= x <= upper(a, b) ==> open_at(map, (x, y)),
    ensures
        reachable(map, (a, y), (b, y)),
    decreases upper(a, b) - lower(a, b),
{
    assert(open_at(map, (a, y)));
    if a == b {
        lemma_reachable_self(map, (a, y));
    } else {
        let next = if a < b { a + 1 } else { a - 1 };
        assert(open_at(map, (next, y)));
        lemma_reachable_step(map, (a, y), (next, y));
        lemma_row_reachable(map, y, next, b);
        lemma_reachable_chain(map, (a, y), (next, y), (b, y));
    }
}

/// Along a column of open tiles each tile is reachable from each other.
pub proof fn lemma_column_reachable(map: Seq<Vec<Tile>>, x: int, a: int, b: int)
    requires
        forall|y: int| lower(a, b) <= y <= upper(a, b) ==> open_at(map, (x, y)),
    ensures
        reachable(map, (x, a), (x, b)),
    decreases upper(a, b) - lower(a, b),
{
    assert(open_at(map, (x, a)));
    if a == b {
        lemma_reachable_self(map, (x, a));
    } else {
        let next = if a < b { a + 1 } else { a - 1 };
        assert(open_at(map, (x, next)));
        lemma_reachable_step(map, (x, a), (x, next));
        lemma_column_reachable(map, x, next, b);
        lemma_reachable_chain(map, (x, a), (x, next), (x, b));
    }
}

} // verus!
