//! What is shown: the camera, the tiles and what was explored of them, the objects in
//! the order in which they are drawn, and the panel.

use vstd::prelude::*;
use crate::ai::Path;
use crate::color::{black, dark_ground, dark_wall, light_ground, light_wall, Color};
use crate::game::{on_map, GameState, GameView, CAMERA_HEIGHT, CAMERA_WIDTH, PLAYER};
use crate::input::Command;
use crate::inventory::Aim;
use crate::map::{has_size, same_shape, tile, Tile, MAP_HEIGHT, MAP_WIDTH};
use crate::progress::Boost;

verus! {

/// A number held between two bounds.
pub open spec fn clamped(v: int, low: int, high: int) -> int {
    if v < low {
        low
    } else if v > high {
        high
    } else {
        v
    }
}

/// The corner of the camera that centres on `(x, y)` as far as the map allows.
pub open spec fn camera_for(x: int, y: int) -> (int, int) {
    (
        clamped(x - CAMERA_WIDTH / 2, 0, MAP_WIDTH - CAMERA_WIDTH - 1),
        clamped(y - CAMERA_HEIGHT / 2, 0, MAP_HEIGHT - CAMERA_HEIGHT - 1),
    )
}

/// The colour in which a tile is drawn: walls and floor, each lit or dark.
pub open spec fn shade(visible: bool, wall: bool) -> Color {
    if visible {
        if wall {
            light_wall()
        } else {
            light_ground()
        }
    } else {
        if wall {
            dark_wall()
        } else {
            dark_ground()
        }
    }
}

/// The texts joined by a comma and a blank.
pub open spec fn joined(names: Seq<Seq<char>>) -> Seq<char>
    decreases names.len(),
{
    if names.len() == 0 {
        Seq::empty()
    } else if names.len() == 1 {
        names[0]
    } else {
        joined(names.drop_last()) + ", "@ + names.last()
    }
}

/// What is drawn of an object: the cell of the screen, the glyph and its colour.
#[derive(Clone, Copy, Debug)]
pub struct Sprite {
    pub x: i32,
    pub y: i32,
    pub glyph: char,
    pub color: Color,
}

/// The row above which the `count` newest lines of the log end when they are stacked
/// upward from the bottom of a panel of `height` rows. `heights` holds the number of rows
/// that each line takes, the oldest line first.
pub open spec fn row_above(heights: Seq<i32>, height: int, count: int) -> int
    decreases count,
{
    if count <= 0 {
        height
    } else {
        row_above(heights, height, count - 1) - heights[heights.len() - count]
    }
}

/// How many of the newest lines of the log fit a panel of `height` rows: the lines are
/// taken from the newest on, and the first that does not fit ends the list.
pub open spec fn rows_shown(heights: Seq<i32>, height: int, upto: int) -> int
    decreases upto,
{
    if upto <= 0 {
        0
    } else if rows_shown(heights, height, upto - 1) == upto - 1 && row_above(heights, height, upto) >= 0 {
        upto
    } else {
        rows_shown(heights, height, upto - 1)
    }
}

/// Places the lines of the log in a panel of `height` rows, the newest line lowest.
/// `heights` holds the number of rows that each line takes, the oldest line first. The
/// result holds, from the newest line on, the position of each line that fits and the
/// row at which it begins.
pub fn panel_rows(heights: &Vec<i32>, height: i32) -> (rows: Vec<(usize, i32)>)
    requires
        forall|i: int| 0 <= i < heights@.len() ==> (#[trigger] heights@[i]) >= 0,
    ensures
        rows@.len() == rows_shown(heights@, height as int, heights@.len() as int),
        forall|k: int|
            0 <= k < rows@.len() ==> (#[trigger] rows@[k]).0 == heights@.len() - 1 - k && rows@[k].1
                == row_above(heights@, height as int, k + 1),
{
    let mut rows: Vec<(usize, i32)> = Vec::new();
    let mut y: i32 = height;
    let mut count: usize = 0;
    while count < heights.len()
        invariant
            forall|i: int| 0 <= i < heights@.len() ==> (#[trigger] heights@[i]) >= 0,
            count <= heights@.len(),
            y == row_above(heights@, height as int, count as int),
            0 <= y || count == 0,
            rows@.len() == count,
            rows_shown(heights@, height as int, count as int) == count,
            forall|k: int|
                0 <= k < rows@.len() ==> (#[trigger] rows@[k]).0 == heights@.len() - 1 - k && rows@[k].1
                    == row_above(heights@, height as int, k + 1),
        decreases heights@.len() - count,
    {
        let index = heights.len() - 1 - count;
        let next: i64 = y as i64 - heights[index] as i64;
        if next < 0 {
            proof {
                lemma_rows_end(heights@, height as int, count as int, heights@.len() as int);
            }
            return rows;
        }
        y = next as i32;
        rows.push((index, y));
        count = count + 1;
    }
    rows
}

/// Once a line does not fit, no older line is shown.
proof fn lemma_rows_end(heights: Seq<i32>, height: int, count: int, upto: int)
    requires
        0 <= count < upto <= heights.len(),
        rows_shown(heights, height, count) == count,
        row_above(heights, height, count + 1) < 0,
    ensures
        rows_shown(heights, height, upto) == count,
    decreases upto,
{
    if upto > count + 1 {
        lemma_rows_end(heights, height, count, upto - 1);
    }
}

impl GameView {
    /// Whether the camera shows the tile `(x, y)`.
    pub open spec fn in_camera(self, x: int, y: int) -> bool {
        &&& self.camera_pos.0 <= x < self.camera_pos.0 + CAMERA_WIDTH
        &&& self.camera_pos.1 <= y < self.camera_pos.1 + CAMERA_HEIGHT
    }

    /// Whether the tile `(x, y)` was ever seen.
    pub open spec fn explored(self, x: int, y: int) -> bool {
        on_map(x, y) && tile(self.map, x, y).explored
    }

    /// Whether object `id` is shown: everything is shown without the fog of war; with
    /// it, what the player sees, and what is always visible on a tile that was seen once.
    pub open spec fn shown(self, id: int) -> bool {
        let object = self.objects[id];
        ||| self.disable_fov
        ||| self.in_fov(object.x, object.y)
        ||| object.always_visible && self.explored(object.x, object.y)
    }

    /// The tile `(x, y)` after a frame was rendered: a tile that the player sees counts
    /// as explored from then on.
    pub open spec fn tile_rendered(self, x: int, y: int) -> Tile {
        let t = tile(self.map, x, y);
        if self.in_fov(x, y) {
            Tile { explored: true, ..t }
        } else {
            t
        }
    }

    /// The colour of the tile `(x, y)` in a frame: its shade if it was explored or there
    /// is no fog of war, and black otherwise.
    pub open spec fn tile_color(self, x: int, y: int) -> Color {
        if self.disable_fov || self.tile_rendered(x, y).explored {
            shade(self.in_fov(x, y), tile(self.map, x, y).block_sight)
        } else {
            black()
        }
    }

    /// Those of the first `upto` objects that are shown and whose `blocks` is `blocking`,
    /// in their order.
    pub open spec fn drawn(self, upto: int, blocking: bool) -> Seq<usize>
        decreases upto,
    {
        if upto <= 0 {
            Seq::empty()
        } else if self.shown(upto - 1) && self.objects[upto - 1].blocks == blocking {
            self.drawn(upto - 1, blocking).push((upto - 1) as usize)
        } else {
            self.drawn(upto - 1, blocking)
        }
    }

    /// The objects in the order in which they are drawn: those that are shown, first
    /// the ones that do not block, so that what blocks is drawn over what lies around.
    pub open spec fn draw_order(self) -> Seq<usize> {
        self.drawn(self.objects.len() as int, false) + self.drawn(self.objects.len() as int, true)
    }

    /// What is drawn of object `id`.
    pub open spec fn sprite_of(self, id: int) -> Sprite {
        Sprite {
            x: (self.objects[id].x - self.camera_pos.0) as i32,
            y: (self.objects[id].y - self.camera_pos.1) as i32,
            glyph: self.objects[id].glyph,
            color: self.objects[id].color,
        }
    }

    /// What is drawn of the first `upto` objects of `order`: a sprite for each of them
    /// that the camera shows, in their order.
    pub open spec fn sprites_of(self, order: Seq<usize>, upto: int) -> Seq<Sprite>
        decreases upto,
    {
        if upto <= 0 {
            Seq::empty()
        } else if self.in_camera(self.objects[order[upto - 1] as int].x, self.objects[order[upto - 1] as int].y) {
            self.sprites_of(order, upto - 1).push(self.sprite_of(order[upto - 1] as int))
        } else {
            self.sprites_of(order, upto - 1)
        }
    }

    /// Whether object `id` is named under the mouse: it stands on the tile that the
    /// mouse points at and is shown.
    pub open spec fn under_mouse(self, id: int) -> bool {
        &&& self.objects[id].x == self.mouse_tile().0
        &&& self.objects[id].y == self.mouse_tile().1
        &&& self.shown(id)
    }

    /// The names of those of the first `upto` objects that are under the mouse.
    pub open spec fn names_under_mouse(self, upto: int) -> Seq<Seq<char>>
        decreases upto,
    {
        if upto <= 0 {
            Seq::empty()
        } else if self.under_mouse(upto - 1) {
            self.names_under_mouse(upto - 1).push(self.objects[upto - 1].name)
        } else {
            self.names_under_mouse(upto - 1)
        }
    }
}

impl GameState {
    /// Centres the camera on `(target_x, target_y)` as far as the map allows. Returns
    /// whether the camera moved, in which case the field of view is to be computed anew.
    pub fn move_camera(&mut self, target_x: i32, target_y: i32) -> (fov_recompute: bool)
        requires
            old(self).wf(),
        ensures
            final(self).wf(),
            final(self)@ == (GameView { camera_pos: final(self)@.camera_pos, ..old(self)@ }),
            final(self)@.camera_pos.0 == camera_for(target_x as int, target_y as int).0,
            final(self)@.camera_pos.1 == camera_for(target_x as int, target_y as int).1,
            fov_recompute == (final(self)@.camera_pos != old(self)@.camera_pos),
    {
        let mut x: i64 = target_x as i64 - (CAMERA_WIDTH / 2) as i64;
        let mut y: i64 = target_y as i64 - (CAMERA_HEIGHT / 2) as i64;
        if x < 0 {
            x = 0;
        } else if x > (MAP_WIDTH - CAMERA_WIDTH - 1) as i64 {
            x = (MAP_WIDTH - CAMERA_WIDTH - 1) as i64;
        }
        if y < 0 {
            y = 0;
        } else if y > (MAP_HEIGHT - CAMERA_HEIGHT - 1) as i64 {
            y = (MAP_HEIGHT - CAMERA_HEIGHT - 1) as i64;
        }
        let fov_recompute = x != self.camera_pos.0 as i64 || y != self.camera_pos.1 as i64;
        self.camera_pos = (x as i32, y as i32);
        fov_recompute
    }

    /// Converts coordinates on the map to coordinates on the screen, if the camera shows
    /// them.
    pub fn to_camera_coordinates(&self, x: i32, y: i32) -> (on_screen: Option<(i32, i32)>)
        ensures
            on_screen == (if self@.in_camera(x as int, y as int) {
                Some(((x - self.camera_pos.0) as i32, (y - self.camera_pos.1) as i32))
            } else {
                None
            }),
    {
        let sx: i64 = x as i64 - self.camera_pos.0 as i64;
        let sy: i64 = y as i64 - self.camera_pos.1 as i64;
        if sx < 0 || sy < 0 || sx >= CAMERA_WIDTH as i64 || sy >= CAMERA_HEIGHT as i64 {
            None
        } else {
            Some((sx as i32, sy as i32))
        }
    }

    /// Converts coordinates on the screen to coordinates on the map.
    pub fn to_world_coordinates(&self, x: i32, y: i32) -> (on_map: (i32, i32))
        requires
            i32::MIN <= x + self.camera_pos.0 <= i32::MAX,
            i32::MIN <= y + self.camera_pos.1 <= i32::MAX,
        ensures
            on_map.0 == x + self.camera_pos.0,
            on_map.1 == y + self.camera_pos.1,
    {
        (x + self.camera_pos.0, y + self.camera_pos.1)
    }

    /// Whether the tile `(x, y)` was ever seen.
    pub fn is_explored(&self, x: i32, y: i32) -> (explored: bool)
        requires
            self.wf(),
        ensures
            explored == self@.explored(x as int, y as int),
    {
        if x < 0 || x >= MAP_WIDTH || y < 0 || y >= MAP_HEIGHT {
            return false;
        }
        assert(self.map@[x as int].len() == MAP_HEIGHT);
        self.map[x as usize][y as usize].explored
    }

    /// Whether object `id` is shown on the screen.
    pub fn is_shown(&self, id: usize) -> (shown: bool)
        requires
            self.wf(),
            id < self.objects@.len(),
        ensures
            shown == self@.shown(id as int),
    {
        let object = &self.objects[id];
        self.disable_fov || self.is_in_fov(object.x, object.y) || (object.always_visible
            && self.is_explored(object.x, object.y))
    }

    /// Begins a frame: centres the camera on the player and says whether the field of
    /// view is to be computed anew, which it is when the camera or the player moved.
    pub fn begin_frame(&mut self) -> (fov_recompute: bool)
        requires
            old(self).wf(),
        ensures
            final(self).wf(),
            final(self)@ == (GameView { camera_pos: final(self)@.camera_pos, ..old(self)@ }),
            final(self)@.camera_pos.0 == camera_for(old(self)@.objects[0].x, old(self)@.objects[0].y).0,
            final(self)@.camera_pos.1 == camera_for(old(self)@.objects[0].x, old(self)@.objects[0].y).1,
            fov_recompute == (final(self)@.camera_pos != old(self)@.camera_pos || old(
                self,
            )@.previous_player_pos.0 != old(self)@.objects[0].x || old(self)@.previous_player_pos.1 != old(
                self,
            )@.objects[0].y),
    {
        let (player_x, player_y) = self.objects[PLAYER].pos();
        let moved = self.move_camera(player_x, player_y);
        moved || self.previous_player_pos.0 != player_x || self.previous_player_pos.1 != player_y
    }

    /// Takes the field of view that was computed for the player: for each tile of the
    /// map, whether the player sees it. A grid that has not the size of the map is refused.
    pub fn set_fov(&mut self, fov: Vec<Vec<bool>>) -> (accepted: bool)
        requires
            old(self).wf(),
        ensures
            final(self).wf(),
            accepted == (fov@.len() == MAP_WIDTH && forall|x: int|
                0 <= x < MAP_WIDTH ==> (#[trigger] fov@[x]).len() == MAP_HEIGHT),
            accepted ==> final(self)@ == (GameView { fov: fov@, ..old(self)@ }),
            !accepted ==> final(self)@ == old(self)@,
    {
        if fov.len() != MAP_WIDTH as usize {
            return false;
        }
        let mut x: usize = 0;
        while x < fov.len()
            invariant
                self.wf(),
                self@ == old(self)@,
                fov@.len() == MAP_WIDTH,
                x <= fov@.len(),
                forall|cx: int| 0 <= cx < x ==> (#[trigger] fov@[cx]).len() == MAP_HEIGHT,
            decreases fov@.len() - x,
        {
            if fov[x].len() != MAP_HEIGHT as usize {
                return false;
            }
            x = x + 1;
        }
        self.fov = fov;
        true
    }

    /// Marks every tile that the player sees as explored. No tile is ever forgotten.
    pub fn explore(&mut self)
        requires
            old(self).wf(),
        ensures
            final(self).wf(),
            final(self)@ == (GameView { map: final(self)@.map, ..old(self)@ }),
            same_shape(old(self)@.map, final(self)@.map),
            forall|x: int, y: int|
                on_map(x, y) ==> #[trigger] tile(final(self)@.map, x, y) == old(self)@.tile_rendered(x, y),
            forall|x: int, y: int|
                on_map(x, y) && tile(old(self)@.map, x, y).explored ==> (#[trigger] tile(
                    final(self)@.map,
                    x,
                    y,
                )).explored,
    {
        let mut x: i32 = 0;
        while x < MAP_WIDTH
            invariant
                0 <= x <= MAP_WIDTH,
                old(self).wf(),
                self.wf(),
                self@ == (GameView { map: self@.map, ..old(self)@ }),
                same_shape(old(self)@.map, self@.map),
                forall|cx: int, cy: int|
                    on_map(cx, cy) ==> #[trigger] tile(self@.map, cx, cy) == (if cx < x {
                        old(self)@.tile_rendered(cx, cy)
                    } else {
                        tile(old(self)@.map, cx, cy)
                    }),
            decreases MAP_WIDTH - x,
        {
            let mut y: i32 = 0;
            while y < MAP_HEIGHT
                invariant
                    0 <= x < MAP_WIDTH,
                    0 <= y <= MAP_HEIGHT,
                    old(self).wf(),
                    self.wf(),
                    self@ == (GameView { map: self@.map, ..old(self)@ }),
                    same_shape(old(self)@.map, self@.map),
                    forall|cx: int, cy: int|
                        on_map(cx, cy) ==> #[trigger] tile(self@.map, cx, cy) == (if cx < x || (cx == x && cy
                            < y) {
                            old(self)@.tile_rendered(cx, cy)
                        } else {
                            tile(old(self)@.map, cx, cy)
                        }),
                decreases MAP_HEIGHT - y,
            {
                assert(on_map(x as int, y as int));
                assert(self.map@[x as int].len() == MAP_HEIGHT);
                assert(tile(self@.map, x as int, y as int) == tile(old(self)@.map, x as int, y as int));
                let ghost before = self.map@;
                if self.is_in_fov(x, y) {
                    self.map[x as usize][y as usize].explored = true;
                }
                proof {
                    assert(same_shape(before, self.map@)) by {
                        assert forall|cx: int| 0 <= cx < before.len() implies (#[trigger] before[cx]).len()
                            == self.map@[cx].len() by {}
                    }
                    assert forall|cx: int, cy: int| on_map(cx, cy) implies #[trigger] tile(self@.map, cx, cy) == (
                    if cx < x || (cx == x && cy < y + 1) {
                        old(self)@.tile_rendered(cx, cy)
                    } else {
                        tile(old(self)@.map, cx, cy)
                    }) by {
                        assert(tile(before, cx, cy) == (if cx < x || (cx == x && cy < y) {
                            old(self)@.tile_rendered(cx, cy)
                        } else {
                            tile(old(self)@.map, cx, cy)
                        }));
                    }
                    assert(has_size(self.map@, MAP_WIDTH as int, MAP_HEIGHT as int)) by {
                        assert forall|cx: int| 0 <= cx < MAP_WIDTH implies (#[trigger] self.map@[cx]).len()
                            == MAP_HEIGHT by {
                            assert(before[cx].len() == MAP_HEIGHT);
                        }
                    }
                }
                y = y + 1;
            }
            x = x + 1;
        }
        proof {
            assert forall|cx: int, cy: int| on_map(cx, cy) && tile(old(self)@.map, cx, cy).explored implies (
            #[trigger] tile(self@.map, cx, cy)).explored by {
                assert(tile(self@.map, cx, cy) == old(self)@.tile_rendered(cx, cy));
            }
        }
    }

    /// Renders the tiles. Every tile that the player sees is explored from now on; no
    /// tile is ever forgotten. The result holds, for each column and row of the screen,
    /// the colour of the tile that the camera shows there.
    pub fn render_tiles(&mut self) -> (colors: Vec<Vec<Color>>)
        requires
            old(self).wf(),
        ensures
            final(self).wf(),
            final(self)@ == (GameView { map: final(self)@.map, ..old(self)@ }),
            same_shape(old(self)@.map, final(self)@.map),
            forall|x: int, y: int|
                on_map(x, y) ==> #[trigger] tile(final(self)@.map, x, y) == old(self)@.tile_rendered(x, y),
            forall|x: int, y: int|
                on_map(x, y) && tile(old(self)@.map, x, y).explored ==> (#[trigger] tile(
                    final(self)@.map,
                    x,
                    y,
                )).explored,
            colors@.len() == CAMERA_WIDTH,
            forall|x: int| 0 <= x < CAMERA_WIDTH ==> (#[trigger] colors@[x])@.len() == CAMERA_HEIGHT,
            forall|x: int, y: int|
                0 <= x < CAMERA_WIDTH && 0 <= y < CAMERA_HEIGHT ==> (#[trigger] colors@[x]@[y])
                    == old(self)@.tile_color(old(self)@.camera_pos.0 + x, old(self)@.camera_pos.1 + y),
    {
        self.explore();
        let mut colors: Vec<Vec<Color>> = Vec::new();
        let mut x: i32 = 0;
        while x < CAMERA_WIDTH
            invariant
                0 <= x <= CAMERA_WIDTH,
                old(self).wf(),
                self.wf(),
                self@ == (GameView { map: self@.map, ..old(self)@ }),
                forall|cx: int, cy: int|
                    on_map(cx, cy) ==> #[trigger] tile(self@.map, cx, cy) == old(self)@.tile_rendered(cx, cy),
                colors@.len() == x,
                forall|cx: int| 0 <= cx < x ==> (#[trigger] colors@[cx])@.len() == CAMERA_HEIGHT,
                forall|cx: int, cy: int|
                    0 <= cx < x && 0 <= cy < CAMERA_HEIGHT ==> (#[trigger] colors@[cx]@[cy]) == old(
                        self,
                    )@.tile_color(old(self)@.camera_pos.0 + cx, old(self)@.camera_pos.1 + cy),
            decreases CAMERA_WIDTH - x,
        {
            let map_x = self.camera_pos.0 + x;
            let mut column: Vec<Color> = Vec::new();
            let mut y: i32 = 0;
            while y < CAMERA_HEIGHT
                invariant
                    0 <= x < CAMERA_WIDTH,
                    0 <= y <= CAMERA_HEIGHT,
                    map_x == self.camera_pos.0 + x,
                    old(self).wf(),
                    self.wf(),
                    self@ == (GameView { map: self@.map, ..old(self)@ }),
                    forall|cx: int, cy: int|
                        on_map(cx, cy) ==> #[trigger] tile(self@.map, cx, cy) == old(self)@.tile_rendered(cx, cy),
                    column@.len() == y,
                    forall|cy: int|
                        0 <= cy < y ==> (#[trigger] column@[cy]) == old(self)@.tile_color(
                            map_x as int,
                            old(self)@.camera_pos.1 + cy,
                        ),
                decreases CAMERA_HEIGHT - y,
            {
                let map_y = self.camera_pos.1 + y;
                assert(on_map(map_x as int, map_y as int));
                assert(self.map@[map_x as int].len() == MAP_HEIGHT);
                assert(tile(self@.map, map_x as int, map_y as int) == old(self)@.tile_rendered(
                    map_x as int,
                    map_y as int,
                ));
                let visible = self.is_in_fov(map_x, map_y);
                let t = self.map[map_x as usize][map_y as usize];
                let color = if visible {
                    if t.block_sight {
                        light_wall()
                    } else {
                        light_ground()
                    }
                } else {
                    if t.block_sight {
                        dark_wall()
                    } else {
                        dark_ground()
                    }
                };
                if self.disable_fov || t.explored {
                    column.push(color);
                } else {
                    column.push(black());
                }
                y = y + 1;
            }
            colors.push(column);
            x = x + 1;
        }
        colors
    }

    /// The objects to draw, in the order in which they are drawn: those that are shown,
    /// first the ones that do not block.
    pub fn draw_order(&self) -> (order: Vec<usize>)
        requires
            self.wf(),
        ensures
            order@ == self@.draw_order(),
            forall|i: int| 0 <= i < order@.len() ==> (#[trigger] order@[i]) < self.objects@.len(),
    {
        let mut order: Vec<usize> = Vec::new();
        let mut id: usize = 0;
        while id < self.objects.len()
            invariant
                self.wf(),
                id <= self.objects@.len(),
                order@ == self@.drawn(id as int, false),
                forall|i: int| 0 <= i < order@.len() ==> (#[trigger] order@[i]) < self.objects@.len(),
            decreases self.objects@.len() - id,
        {
            if self.is_shown(id) && !self.objects[id].blocks {
                order.push(id);
            }
            id = id + 1;
        }
        let ghost floor = order@;
        let mut id: usize = 0;
        while id < self.objects.len()
            invariant
                self.wf(),
                id <= self.objects@.len(),
                floor == self@.drawn(self.objects@.len() as int, false),
                order@ == floor + self@.drawn(id as int, true),
                forall|i: int| 0 <= i < order@.len() ==> (#[trigger] order@[i]) < self.objects@.len(),
            decreases self.objects@.len() - id,
        {
            if self.is_shown(id) && self.objects[id].blocks {
                order.push(id);
                assert(order@ =~= floor + self@.drawn(id as int + 1, true));
            }
            id = id + 1;
        }
        order
    }

    /// What is drawn of the objects, in the order in which it is drawn: a sprite for
    /// each object that is shown and that the camera shows, first those of the objects
    /// that do not block.
    pub fn sprites(&self) -> (sprites: Vec<Sprite>)
        requires
            self.wf(),
        ensures
            sprites@ == self@.sprites_of(self@.draw_order(), self@.draw_order().len() as int),
    {
        let order = self.draw_order();
        let mut sprites: Vec<Sprite> = Vec::new();
        let mut k: usize = 0;
        while k < order.len()
            invariant
                self.wf(),
                k <= order@.len(),
                order@ == self@.draw_order(),
                forall|i: int| 0 <= i < order@.len() ==> (#[trigger] order@[i]) < self.objects@.len(),
                sprites@ == self@.sprites_of(order@, k as int),
            decreases order@.len() - k,
        {
            let object = &self.objects[order[k]];
            match self.to_camera_coordinates(object.x, object.y) {
                Some((x, y)) => {
                    sprites.push(Sprite { x, y, glyph: object.glyph, color: object.color });
                },
                None => {},
            }
            k = k + 1;
        }
        sprites
    }

    /// The names of all objects under the mouse that are shown, separated by commas.
    pub fn get_names_under_mouse(&self) -> (names: String)
        requires
            self.wf(),
        ensures
            names@ == joined(self@.names_under_mouse(self.objects@.len() as int)),
    {
        let x: i64 = self.mouse.cx as i64 + self.camera_pos.0 as i64;
        let y: i64 = self.mouse.cy as i64 + self.camera_pos.1 as i64;
        let mut names = String::new();
        let mut first = true;
        let mut id: usize = 0;
        while id < self.objects.len()
            invariant
                self.wf(),
                id <= self.objects@.len(),
                x == self@.mouse_tile().0,
                y == self@.mouse_tile().1,
                first == (self@.names_under_mouse(id as int).len() == 0),
                names@ == joined(self@.names_under_mouse(id as int)),
            decreases self.objects@.len() - id,
        {
            let object = &self.objects[id];
            if object.x as i64 == x && object.y as i64 == y && self.is_shown(id) {
                let ghost listed = self@.names_under_mouse(id as int);
                let ghost more = self@.names_under_mouse(id as int + 1);
                proof {
                    assert(more == listed.push(self@.objects[id as int].name));
                    assert(more.drop_last() =~= listed);
                    assert(more.last() == self@.objects[id as int].name);
                }
                if !first {
                    names.append(", ");
                } else {
                    assert(more =~= seq![self@.objects[id as int].name]);
                    assert(names@ + object.name@ =~= object.name@);
                }
                names.append(object.name.as_str());
                first = false;
            }
            id = id + 1;
        }
        names
    }

    /// The player's hit points: how many are left, and how many at most. A player
    /// without a combat facet has none.
    pub fn player_hp(&self) -> (hp: (i32, i32))
        requires
            self.wf(),
        ensures
            hp == (match self@.objects[0].fighter {
                Some(f) => (f.hp, f.max_hp),
                None => (0i32, 0i32),
            }),
    {
        match self.objects[PLAYER].fighter {
            Some(f) => (f.hp, f.max_hp),
            None => (0, 0),
        }
    }
}

/// A tile that was explored once stays explored: rendering a frame never takes the mark
/// away, and nothing else that happens on a level touches the map. Only the way down the
/// stairs leads to a map that is unexplored.
pub proof fn lemma_explored_is_kept(
    state: GameView,
    x: int,
    y: int,
    command: Command,
    actor: int,
    direction: (i32, i32),
    target: int,
    path: Path,
    item: int,
    aim: Aim,
    boost: Boost,
)
    ensures
        tile(state.map, x, y).explored ==> state.tile_rendered(x, y).explored,
        state.commanded(command).map == state.map,
        state.ai_turned(actor, direction).map == state.map,
        state.path_followed(actor, target, path).map == state.map,
        state.picked_up(actor).map == state.map,
        state.dropped(item).map == state.map,
        state.use_begun(item).0.map == state.map,
        state.item_used(item, aim).map == state.map,
        state.leveled_up(boost).map == state.map,
{
}

} // verus!
