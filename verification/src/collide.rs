//! Spatial queries against a loaded level: world/grid conversion, the
//! tiles within a world-space rectangle, and the minimum-translation
//! displacement that pushes an entity rectangle out of solid terrain.
//!
//! Storage row 0 is the visually topmost map row while world y grows
//! upward, so conversions flip the row index: `worldY = (height - row - 1)
//! * TILE_SZ`, inversely `row = height - 1 - floor(worldY / TILE_SZ)`.
//! Both directions are defined here, and nowhere else, so rendering and
//! collision can never disagree about the flip.

use vstd::prelude::*;

use crate::geom::{Rect, Vec2, COORD_BOUND};
use crate::grid::Coord;
use crate::level::{Level, LevelView};
use crate::{TileData, TILE_SZ};

verus! {

pub open spec fn tile_sz() -> int {
    TILE_SZ as int
}

/// World-space y of the bottom edge of storage row `row`: the vertical
/// axis flips.
pub open spec fn row_world_y(lv: LevelView, row: int) -> int {
    (lv.height - row - 1) * tile_sz()
}

/// World-space footprint of cell `(cx, row)`: a tile-sized square.
pub open spec fn cell_rect(lv: LevelView, cx: int, row: int) -> Rect {
    Rect {
        x: (cx * tile_sz()) as i64,
        y: row_world_y(lv, row) as i64,
        w: TILE_SZ as u16,
        h: TILE_SZ as u16,
    }
}

/// Tile data of cell `(cx, row)`.
pub open spec fn cell_tile(lv: LevelView, cx: int, row: int) -> TileData {
    lv.tiles[lv.grid[row * lv.width + cx] as int]
}

/// Column holding world x: floor division by the tile size.
pub open spec fn col_of(x: int) -> int {
    x / tile_sz()
}

/// Storage row holding world y.
pub open spec fn row_of(lv: LevelView, y: int) -> int {
    lv.height - 1 - y / tile_sz()
}

/// First and last candidate columns and rows of a rectangle: the cells of
/// its corners, clamped to the grid.
pub open spec fn span_c_lo(lv: LevelView, r: Rect) -> int {
    vstd::math::max(0, col_of(r.x as int))
}

pub open spec fn span_c_hi(lv: LevelView, r: Rect) -> int {
    vstd::math::min(lv.width - 1, col_of(r.x + r.w))
}

pub open spec fn span_r_lo(lv: LevelView, r: Rect) -> int {
    vstd::math::max(0, row_of(lv, r.y + r.h))
}

pub open spec fn span_r_hi(lv: LevelView, r: Rect) -> int {
    vstd::math::min(lv.height - 1, row_of(lv, r.y as int))
}

/// The cells of one row between columns `c` and `chi`, left to right,
/// each with its world footprint and tile data.
pub open spec fn row_cells(lv: LevelView, row: int, c: int, chi: int) -> Seq<(Rect, TileData)>
    decreases chi + 1 - c,
{
    if c > chi {
        Seq::empty()
    } else {
        seq![(cell_rect(lv, c, row), cell_tile(lv, c, row))] + row_cells(lv, row, c + 1, chi)
    }
}

/// The cells of rows `row` through `rhi`, top storage row first.
pub open spec fn rows_cells(lv: LevelView, row: int, rhi: int, clo: int, chi: int) -> Seq<
    (Rect, TileData),
> decreases rhi + 1 - row,
{
    if row > rhi {
        Seq::empty()
    } else {
        row_cells(lv, row, clo, chi) + rows_cells(lv, row + 1, rhi, clo, chi)
    }
}

/// Every grid cell whose footprint the rectangle reaches, row by row:
/// what the region query yields.
pub open spec fn tiles_within_spec(lv: LevelView, r: Rect) -> Seq<(Rect, TileData)> {
    rows_cells(lv, span_r_lo(lv, r), span_r_hi(lv, r), span_c_lo(lv, r), span_c_hi(lv, r))
}

/// Direction from a value difference, ties resolving toward positive.
pub open spec fn sign_toward(d: int) -> int {
    if d < 0 {
        -1
    } else {
        1
    }
}

/// Displacement one tile contributes to an entity rectangle: nothing
/// unless the tile is solid and the rectangles overlap; otherwise the
/// smaller per-axis overlap extent, on that axis alone, signed by the
/// direction from the tile's center to the entity's center.
pub open spec fn tile_disp(r: Rect, t: Rect, solid: bool) -> (int, int) {
    if solid && r.overlaps(t) {
        let ox = r.overlap_x(t);
        let oy = r.overlap_y(t);
        if ox < oy {
            (sign_toward((2 * r.x + r.w) - (2 * t.x + t.w)) * ox, 0)
        } else {
            (0, sign_toward((2 * r.y + r.h) - (2 * t.y + t.h)) * oy)
        }
    } else {
        (0, 0)
    }
}

/// Total displacement of an entity rectangle against a sequence of
/// tiles: the per-tile contributions added up, unclamped. With several
/// solids bounding the entity at once this can overcorrect; that is the
/// documented behavior, not a defect.
pub open spec fn disp_sum(r: Rect, tiles: Seq<(Rect, TileData)>) -> (int, int)
    decreases tiles.len(),
{
    if tiles.len() == 0 {
        (0, 0)
    } else {
        let c = tile_disp(r, tiles[0].0, tiles[0].1.solid);
        let rest = disp_sum(r, tiles.skip(1));
        (c.0 + rest.0, c.1 + rest.1)
    }
}

pub proof fn lemma_row_cells_len(lv: LevelView, row: int, c: int, chi: int)
    ensures
        row_cells(lv, row, c, chi).len() == if c > chi {
            0
        } else {
            chi + 1 - c
        },
    decreases chi + 1 - c,
{
    if c <= chi {
        lemma_row_cells_len(lv, row, c + 1, chi);
    }
}

pub proof fn lemma_rows_cells_len(lv: LevelView, row: int, rhi: int, clo: int, chi: int)
    requires
        clo <= chi,
    ensures
        rows_cells(lv, row, rhi, clo, chi).len() == if row > rhi {
            0
        } else {
            (rhi + 1 - row) * (chi + 1 - clo)
        },
    decreases rhi + 1 - row,
{
    if row <= rhi {
        lemma_row_cells_len(lv, row, clo, chi);
        lemma_rows_cells_len(lv, row + 1, rhi, clo, chi);
        assert((rhi + 1 - row) * (chi + 1 - clo) == (chi + 1 - clo) + (rhi - row) * (chi + 1
            - clo)) by (nonlinear_arith);
        if row == rhi {
            assert((rhi - row) * (chi + 1 - clo) == 0) by (nonlinear_arith)
                requires
                    rhi == row,
            ;
        }
    }
}

/// Each yielded cell sits inside the given bounds, and its footprint is
/// a tile-sized square at that cell's world position.
pub proof fn lemma_row_cells_elems(lv: LevelView, row: int, c: int, chi: int)
    ensures
        forall|k: int| 0 <= k < row_cells(lv, row, c, chi).len() ==> #[trigger] row_cells(
            lv,
            row,
            c,
            chi,
        )[k] == (cell_rect(lv, c + k, row), cell_tile(lv, c + k, row)),
    decreases chi + 1 - c,
{
    if c <= chi {
        lemma_row_cells_elems(lv, row, c + 1, chi);
        assert forall|k: int| 0 <= k < row_cells(lv, row, c, chi).len() implies #[trigger]
            row_cells(lv, row, c, chi)[k] == (cell_rect(lv, c + k, row), cell_tile(
            lv,
            c + k,
            row,
        )) by {
            if k > 0 {
                assert(row_cells(lv, row, c, chi)[k] == row_cells(lv, row, c + 1, chi)[k - 1]);
            }
        }
    }
}

impl Level {
    /// World position of a grid cell's bottom-left corner, flipping the
    /// vertical axis.
    pub fn grid_to_world(&self, pos: Coord) -> (r: Vec2)
        requires
            self.wf(),
            pos.0 < self@.width,
            pos.1 < self@.height,
        ensures
            r.x == pos.0 * tile_sz(),
            r.y == row_world_y(self@, pos.1 as int),
    {
        let wx: usize = pos.0 * TILE_SZ;
        let wy: usize = (self.grid.height - pos.1 - 1) * TILE_SZ;
        Vec2 { x: wx as i64, y: wy as i64 }
    }

    /// The grid cell enclosing a world position, or `None` when the
    /// position lies outside the grid. Inverse of [`Level::grid_to_world`]
    /// on every cell's footprint.
    pub fn world_to_grid(&self, pos: Vec2) -> (r: Option<Coord>)
        requires
            self.wf(),
            -COORD_BOUND <= pos.x <= COORD_BOUND,
            -COORD_BOUND <= pos.y <= COORD_BOUND,
        ensures
            (0 <= col_of(pos.x as int) < self@.width && 0 <= row_of(self@, pos.y as int)
                < self@.height) ==> r == Some(
                (col_of(pos.x as int) as usize, row_of(self@, pos.y as int) as usize),
            ),
            !(0 <= col_of(pos.x as int) < self@.width && 0 <= row_of(self@, pos.y as int)
                < self@.height) ==> r is None,
    {
        let c: i64 = floor_div_tile(pos.x);
        let fr: i64 = floor_div_tile(pos.y);
        let w: i64 = self.grid.width as i64;
        let h: i64 = self.grid.height as i64;
        let row: i64 = h - 1 - fr;
        if 0 <= c && c < w && 0 <= row && row < h {
            Some((c as usize, row as usize))
        } else {
            None
        }
    }

    /// Candidate cell range of a rectangle: columns and rows of its
    /// corners, clamped to the grid.
    fn span_bounds(&self, r: Rect) -> (b: (i64, i64, i64, i64))
        requires
            self.wf(),
            r.in_range(),
        ensures
            b.0 == span_c_lo(self@, r),
            b.1 == span_c_hi(self@, r),
            b.2 == span_r_lo(self@, r),
            b.3 == span_r_hi(self@, r),
    {
        let right: i64 = r.x + r.w as i64;
        let top: i64 = r.y + r.h as i64;
        let w: i64 = self.grid.width as i64;
        let h: i64 = self.grid.height as i64;
        let c_lo_raw: i64 = floor_div_tile(r.x);
        let c_hi_raw: i64 = floor_div_tile(right);
        let r_hi_raw: i64 = h - 1 - floor_div_tile(r.y);
        let r_lo_raw: i64 = h - 1 - floor_div_tile(top);
        let c0: i64 = if c_lo_raw < 0 {
            0
        } else {
            c_lo_raw
        };
        let c1: i64 = if c_hi_raw > w - 1 {
            w - 1
        } else {
            c_hi_raw
        };
        let r0: i64 = if r_lo_raw < 0 {
            0
        } else {
            r_lo_raw
        };
        let r1: i64 = if r_hi_raw > h - 1 {
            h - 1
        } else {
            r_hi_raw
        };
        (c0, c1, r0, r1)
    }

    /// Every grid cell whose footprint the rectangle reaches, each with
    /// its world-space rectangle and tile data; cells outside the grid
    /// are simply absent. Consumed by displacement resolution and by
    /// rendering alike.
    #[verifier::loop_isolation(false)]
    #[verifier::rlimit(100)]
    pub fn tiles_within(&self, r: Rect) -> (out: Vec<(Rect, TileData)>)
        requires
            self.wf(),
            r.in_range(),
        ensures
            out@ == tiles_within_spec(self@, r),
    {
        let ghost lv = self@;
        let (c0, c1, r0, r1): (i64, i64, i64, i64) = self.span_bounds(r);
        proof {
            assert(c0 >= 0 && r0 >= 0);
            assert(c1 < lv.width && r1 < lv.height);
        }
        let mut out: Vec<(Rect, TileData)> = Vec::new();
        if c0 > c1 || r0 > r1 {
            proof {
                if c0 > c1 {
                    lemma_rows_cells_empty_cols(lv, r0 as int, r1 as int, c0 as int, c1 as int);
                }
                assert(out@ =~= tiles_within_spec(lv, r));
            }
            return out;
        }
        let cs: usize = c0 as usize;
        let ce: usize = c1 as usize;
        let rs: usize = r0 as usize;
        let re: usize = r1 as usize;
        let mut row: usize = rs;
        proof {
            assert(rows_cells(lv, r0 as int, r1 as int, c0 as int, c1 as int) =~= out@
                + rows_cells(lv, row as int, r1 as int, c0 as int, c1 as int));
        }
        while row <= re
            invariant
                rs <= row <= re + 1,
                rows_cells(lv, r0 as int, r1 as int, c0 as int, c1 as int) == out@ + rows_cells(
                    lv,
                    row as int,
                    r1 as int,
                    c0 as int,
                    c1 as int,
                ),
            decreases re + 1 - row,
        {
            let mut c: usize = cs;
            proof {
                assert(out@ + rows_cells(lv, row as int, r1 as int, c0 as int, c1 as int) =~= out@
                    + row_cells(lv, row as int, c as int, c1 as int) + rows_cells(
                    lv,
                    row as int + 1,
                    r1 as int,
                    c0 as int,
                    c1 as int,
                ));
            }
            while c <= ce
                invariant
                    cs <= c <= ce + 1,
                    rows_cells(lv, r0 as int, r1 as int, c0 as int, c1 as int) == out@
                        + row_cells(lv, row as int, c as int, c1 as int) + rows_cells(
                        lv,
                        row as int + 1,
                        r1 as int,
                        c0 as int,
                        c1 as int,
                    ),
                decreases ce + 1 - c,
            {
                proof {
                    assert(row as int * lv.width + c < lv.width * lv.height) by (nonlinear_arith)
                        requires
                            0 <= c,
                            c < lv.width,
                            0 <= (row as int),
                            (row as int) < lv.height,
                    ;
                }
                let n: usize = self.grid.data.len();
                let idx: usize = row * self.grid.width + c;
                let id: u8 = self.grid.data[idx];
                let tile: TileData = self.tileset.tiles[id as usize];
                let wx: usize = c * TILE_SZ;
                let wy: usize = (self.grid.height - row - 1) * TILE_SZ;
                let cellr = Rect { x: wx as i64, y: wy as i64, w: TILE_SZ as u16, h: TILE_SZ as u16 };
                out.push((cellr, tile));
                proof {
                    assert(cellr == cell_rect(lv, c as int, row as int));
                    assert(tile == cell_tile(lv, c as int, row as int));
                    assert(row_cells(lv, row as int, c as int, c1 as int) == seq![
                        (cellr, tile),
                    ] + row_cells(lv, row as int, c as int + 1, c1 as int));
                    assert(out@.drop_last() + (seq![(cellr, tile)] + row_cells(
                        lv,
                        row as int,
                        c as int + 1,
                        c1 as int,
                    )) =~= out@ + row_cells(lv, row as int, c as int + 1, c1 as int));
                }
                c = c + 1;
            }
            proof {
                assert(row_cells(lv, row as int, c as int, c1 as int) =~= Seq::<
                    (Rect, TileData),
                >::empty());
                assert(out@ + row_cells(lv, row as int, c as int, c1 as int) =~= out@);
            }
            row = row + 1;
        }
        proof {
            assert(rows_cells(lv, row as int, r1 as int, c0 as int, c1 as int) =~= Seq::<
                (Rect, TileData),
            >::empty());
            assert(out@ + rows_cells(lv, row as int, r1 as int, c0 as int, c1 as int) =~= out@);
        }
        out
    }

    /// Accumulated displacement pushing the entity rectangle out of every
    /// overlapping solid tile: exactly [`disp_sum`] over the tiles the
    /// region query yields. Open tiles and out-of-grid cells contribute
    /// nothing.
    #[verifier::loop_isolation(false)]
    #[verifier::rlimit(100)]
    pub fn check_collision_with_walls(&self, rect: Rect) -> (d: Vec2)
        requires
            self.wf(),
            rect.in_range(),
        ensures
            d.x == disp_sum(rect, tiles_within_spec(self@, rect)).0,
            d.y == disp_sum(rect, tiles_within_spec(self@, rect)).1,
    {
        let ghost lv = self@;
        let tiles = self.tiles_within(rect);
        proof {
            lemma_tiles_within_bounds(lv, rect);
            lemma_tiles_within_len(lv, rect);
        }
        let mut dx: i64 = 0;
        let mut dy: i64 = 0;
        let mut i: usize = 0;
        proof {
            assert(tiles@.skip(0) =~= tiles@);
        }
        while i < tiles.len()
            invariant
                i <= tiles@.len(),
                tiles@.len() <= 0x1_0000_0000,
                -16 * i <= dx <= 16 * i,
                -16 * i <= dy <= 16 * i,
                disp_sum(rect, tiles@).0 == dx + disp_sum(rect, tiles@.skip(i as int)).0,
                disp_sum(rect, tiles@).1 == dy + disp_sum(rect, tiles@.skip(i as int)).1,
            decreases tiles@.len() - i,
        {
            proof {
                assert(tiles@.skip(i as int)[0] == tiles@[i as int]);
                assert(tiles@.skip(i as int).skip(1) =~= tiles@.skip(i as int + 1));
            }
            let (trect, tdata): (Rect, TileData) = tiles[i];
            let ghost con = tile_disp(rect, trect, tdata.solid);
            match rect.overlap(trect) {
                None => {
                    proof {
                        assert(con == (0int, 0int));
                    }
                },
                Some(over) => {
                    if tdata.solid {
                        proof {
                            assert(over.x <= trect.w && over.y <= trect.h);
                            assert(trect.w == 16 && trect.h == 16);
                        }
                        if over.x < over.y {
                            let s: i64 = if 2 * rect.x + (rect.w as i64) < 2 * trect.x + (
                            trect.w as i64) {
                                -1
                            } else {
                                1
                            };
                            dx = dx + s * over.x;
                            proof {
                                assert(con.0 == s * over.x && con.1 == 0);
                            }
                        } else {
                            let s: i64 = if 2 * rect.y + (rect.h as i64) < 2 * trect.y + (
                            trect.h as i64) {
                                -1
                            } else {
                                1
                            };
                            dy = dy + s * over.y;
                            proof {
                                assert(con.0 == 0 && con.1 == s * over.y);
                            }
                        }
                    } else {
                        proof {
                            assert(con == (0int, 0int));
                        }
                    }
                },
            }
            i = i + 1;
        }
        proof {
            assert(tiles@.skip(i as int) =~= Seq::<(Rect, TileData)>::empty());
        }
        Vec2 { x: dx, y: dy }
    }
}

/// The open cells among the first `k` cells in row-major order.
pub open spec fn open_cells_upto(lv: LevelView, k: int) -> Seq<Coord>
    decreases k,
{
    if k <= 0 {
        Seq::empty()
    } else {
        let x = (k - 1) % (lv.width as int);
        let y = (k - 1) / (lv.width as int);
        open_cells_upto(lv, k - 1) + (if !cell_tile(lv, x, y).solid {
            seq![(x as usize, y as usize)]
        } else {
            Seq::empty()
        })
    }
}

/// Grid coordinates of every non-solid cell, row-major.
pub open spec fn open_cells(lv: LevelView) -> Seq<Coord> {
    open_cells_upto(lv, lv.width * lv.height as int)
}

impl Level {
    /// Tile metadata of the grid cell `(x, y)`: present exactly when both
    /// coordinates are in bounds, absent otherwise — never a fault.
    pub fn get_tile(&self, x: usize, y: usize) -> (r: Option<TileData>)
        requires
            self.wf(),
        ensures
            x < self@.width && y < self@.height ==> r == Some(
                cell_tile(self@, x as int, y as int),
            ),
            !(x < self@.width && y < self@.height) ==> r is None,
    {
        match self.grid.get(x, y) {
            None => None,
            Some(id) => {
                proof {
                    assert(y as int * self@.width + x < self@.width * self@.height)
                        by (nonlinear_arith)
                        requires
                            0 <= x,
                            x < self@.width,
                            0 <= (y as int),
                            (y as int) < self@.height,
                    ;
                    assert(self@.grid[y as int * self@.width + x as int] < self@.tiles.len());
                }
                Some(*self.tileset.index(id as usize))
            },
        }
    }

    /// Grid coordinates of every open (non-solid) cell, row-major:
    /// exactly [`open_cells`]. Consumed by systems that scatter
    /// collectibles or spawns onto passable terrain.
    #[verifier::loop_isolation(false)]
    pub fn get_open_spaces(&self) -> (out: Vec<Coord>)
        requires
            self.wf(),
        ensures
            out@ == open_cells(self@),
    {
        let ghost lv = self@;
        let w: usize = self.grid.width();
        let h: usize = self.grid.height();
        let mut out: Vec<Coord> = Vec::new();
        let mut y: usize = 0;
        proof {
            assert(out@ =~= open_cells_upto(lv, 0));
        }
        while y < h
            invariant
                y <= h,
                out@ == open_cells_upto(lv, y as int * lv.width),
            decreases h - y,
        {
            let mut x: usize = 0;
            proof {
                assert(y * lv.width + 0 == y as int * lv.width);
            }
            while x < w
                invariant
                    x <= w,
                    out@ == open_cells_upto(lv, y as int * lv.width + x),
                decreases w - x,
            {
                proof {
                    assert(y * lv.width + x < lv.width * lv.height) by (nonlinear_arith)
                        requires
                            0 <= x,
                            x < lv.width,
                            0 <= (y as int),
                            (y as int) < lv.height,
                    ;
                    vstd::arithmetic::div_mod::lemma_fundamental_div_mod_converse(
                        y as int * lv.width + x,
                        lv.width as int,
                        y as int,
                        x as int,
                    );
                }
                match self.get_tile(x, y) {
                    None => {
                        proof {
                            assert(false);
                        }
                    },
                    Some(tile) => {
                        if !tile.solid {
                            out.push((x, y));
                        }
                    },
                }
                x = x + 1;
                proof {
                    let k = y as int * lv.width + x;
                    assert(open_cells_upto(lv, k) =~= open_cells_upto(lv, k - 1) + (if !cell_tile(
                        lv,
                        (k - 1) % (lv.width as int),
                        (k - 1) / (lv.width as int),
                    ).solid {
                        seq![(((k - 1) % (lv.width as int)) as usize, ((k - 1) / (
                        lv.width as int)) as usize)]
                    } else {
                        Seq::empty()
                    }));
                    assert(out@ =~= open_cells_upto(lv, k));
                }
            }
            y = y + 1;
            proof {
                assert((y - 1) * lv.width + lv.width == y as int * lv.width) by (nonlinear_arith);
            }
        }
        proof {
            assert(y as int * lv.width == lv.width * lv.height) by (nonlinear_arith)
                requires
                    y as int == lv.height,
            ;
        }
        out
    }
}

pub proof fn lemma_rows_cells_empty_cols(lv: LevelView, row: int, rhi: int, clo: int, chi: int)
    requires
        clo > chi,
    ensures
        rows_cells(lv, row, rhi, clo, chi) == Seq::<(Rect, TileData)>::empty(),
    decreases rhi + 1 - row,
{
    if row <= rhi {
        lemma_rows_cells_empty_cols(lv, row + 1, rhi, clo, chi);
        assert(rows_cells(lv, row, rhi, clo, chi) =~= Seq::<(Rect, TileData)>::empty());
    }
}

/// Every tile the region query yields sits within the grid's world
/// extent, with tile-sized footprint.
pub proof fn lemma_rows_cells_bounds(lv: LevelView, row: int, rhi: int, clo: int, chi: int)
    requires
        0 <= clo,
        chi < lv.width,
        0 <= row,
        rhi < lv.height,
        lv.width <= 0xFFFF,
        lv.height <= 0xFFFF,
    ensures
        forall|k: int| 0 <= k < rows_cells(lv, row, rhi, clo, chi).len() ==> {
            let e = #[trigger] rows_cells(lv, row, rhi, clo, chi)[k];
            &&& e.0.w == 16
            &&& e.0.h == 16
            &&& 0 <= e.0.x <= COORD_BOUND
            &&& 0 <= e.0.y <= COORD_BOUND
        },
    decreases rhi + 1 - row,
{
    if row <= rhi {
        lemma_row_cells_elems(lv, row, clo, chi);
        lemma_row_cells_len(lv, row, clo, chi);
        lemma_rows_cells_bounds(lv, row + 1, rhi, clo, chi);
        let rc = row_cells(lv, row, clo, chi);
        assert forall|k: int| 0 <= k < rows_cells(lv, row, rhi, clo, chi).len() implies {
            let e = #[trigger] rows_cells(lv, row, rhi, clo, chi)[k];
            &&& e.0.w == 16
            &&& e.0.h == 16
            &&& 0 <= e.0.x <= COORD_BOUND
            &&& 0 <= e.0.y <= COORD_BOUND
        } by {
            if k < rc.len() {
                assert(rc[k] == (cell_rect(lv, clo + k, row), cell_tile(lv, clo + k, row)));
                assert(0 <= (clo + k) * tile_sz() <= 0xFFFF * 16) by (nonlinear_arith)
                    requires
                        0 <= clo + k <= 0xFFFF,
                ;
                assert(0 <= (lv.height - row - 1) * tile_sz() <= 0xFFFF * 16) by (nonlinear_arith)
                    requires
                        0 <= lv.height - row - 1 <= 0xFFFF,
                ;
            } else {
                assert(rows_cells(lv, row, rhi, clo, chi)[k] == rows_cells(
                    lv,
                    row + 1,
                    rhi,
                    clo,
                    chi,
                )[k - rc.len()]);
            }
        }
    }
}

/// The region query yields at most one entry per grid cell's worth of
/// candidate range, so never more than 2^32 entries.
pub proof fn lemma_tiles_within_len(lv: LevelView, r: Rect)
    requires
        crate::level::lv_wf(lv),
    ensures
        tiles_within_spec(lv, r).len() <= 0x1_0000_0000,
{
    let clo = span_c_lo(lv, r);
    let chi = span_c_hi(lv, r);
    let rlo = span_r_lo(lv, r);
    let rhi = span_r_hi(lv, r);
    if clo > chi {
        lemma_rows_cells_empty_cols(lv, rlo, rhi, clo, chi);
    } else {
        lemma_rows_cells_len(lv, rlo, rhi, clo, chi);
        if rlo <= rhi {
            assert((rhi + 1 - rlo) * (chi + 1 - clo) <= 0x10000 * 0x10000) by (nonlinear_arith)
                requires
                    0 < rhi + 1 - rlo <= 0x10000,
                    0 < chi + 1 - clo <= 0x10000,
            ;
        }
    }
}

pub proof fn lemma_tiles_within_bounds(lv: LevelView, r: Rect)
    requires
        crate::level::lv_wf(lv),
    ensures
        forall|k: int| 0 <= k < tiles_within_spec(lv, r).len() ==> {
            let e = #[trigger] tiles_within_spec(lv, r)[k];
            &&& e.0.w == 16
            &&& e.0.h == 16
            &&& 0 <= e.0.x <= COORD_BOUND
            &&& 0 <= e.0.y <= COORD_BOUND
        },
{
    let clo = span_c_lo(lv, r);
    let chi = span_c_hi(lv, r);
    let rlo = span_r_lo(lv, r);
    let rhi = span_r_hi(lv, r);
    if clo > chi {
        lemma_rows_cells_empty_cols(lv, rlo, rhi, clo, chi);
    } else {
        lemma_rows_cells_bounds(lv, rlo, rhi, clo, chi);
    }
}

proof fn lemma_open_cells_upto_membership(lv: LevelView, k: int, x: usize, y: usize)
    requires
        lv.width > 0,
        lv.width <= 0xFFFF,
        lv.height <= 0xFFFF,
        0 <= k <= lv.width * lv.height,
    ensures
        open_cells_upto(lv, k).contains((x, y)) <==> ((x as int) < lv.width && (y as int)
            * lv.width + x < k && !cell_tile(lv, x as int, y as int).solid),
    decreases k,
{
    broadcast use vstd::seq_lib::lemma_seq_concat_contains_all_elements;
    broadcast use vstd::seq_lib::lemma_seq_empty_contains_nothing;

    vstd::arithmetic::mul::lemma_mul_is_commutative(y as int, lv.width as int);
    if k <= 0 {
    } else {
        lemma_open_cells_upto_membership(lv, k - 1, x, y);
        let w = lv.width as int;
        let h = lv.height as int;
        vstd::arithmetic::div_mod::lemma_fundamental_div_mod(k - 1, w);
        vstd::arithmetic::div_mod::lemma_mod_bound(k - 1, w);
        let cx = (k - 1) % w;
        let cy = (k - 1) / w;
        vstd::arithmetic::div_mod::lemma_div_pos_is_pos(k - 1, w);
        vstd::arithmetic::div_mod::lemma_multiply_divide_lt(k - 1, w, h);
        assert(0 <= cy && cy < h);
        let tail = if !cell_tile(lv, cx, cy).solid {
            seq![(cx as usize, cy as usize)]
        } else {
            Seq::<Coord>::empty()
        };
        assert(open_cells_upto(lv, k) == open_cells_upto(lv, k - 1) + tail);
        assert((open_cells_upto(lv, k - 1) + tail).contains((x, y)) <==> (open_cells_upto(
            lv,
            k - 1,
        ).contains((x, y)) || tail.contains((x, y))));
        if (x as int) < lv.width && (y as int) * lv.width + x == k - 1 {
            vstd::arithmetic::div_mod::lemma_fundamental_div_mod_converse(
                k - 1,
                w,
                y as int,
                x as int,
            );
            assert(cx == x as int && cy == y as int);
            if !cell_tile(lv, cx, cy).solid {
                assert(tail[0] == (x, y));
                assert(tail.contains((x, y)));
            }
        }
        if tail.contains((x, y)) {
            let i = choose|i: int| 0 <= i < tail.len() && tail[i] == (x, y);
            assert(tail[0] == (x, y));
            assert((x as int) == cx && (y as int) == cy);
            assert((y as int) * lv.width + x == k - 1);
            assert(!cell_tile(lv, x as int, y as int).solid);
        }
    }
}

/// What the open-cells listing holds, cell by cell: a coordinate pair is
/// listed exactly when it lies inside the grid and its tile is open.
pub proof fn lemma_open_cells_membership(lv: LevelView, x: usize, y: usize)
    requires
        crate::level::lv_wf(lv),
    ensures
        open_cells(lv).contains((x, y)) <==> ((x as int) < lv.width && (y as int) < lv.height
            && !cell_tile(lv, x as int, y as int).solid),
{
    if lv.width == 0 {
        assert(open_cells(lv).len() == 0);
    } else {
        lemma_open_cells_upto_membership(lv, lv.width * lv.height as int, x, y);
        if (x as int) < lv.width && (y as int) < lv.height {
            assert((y as int) * lv.width + x < lv.width * lv.height) by (nonlinear_arith)
                requires
                    0 <= (x as int),
                    (x as int) < lv.width,
                    0 <= (y as int),
                    (y as int) < lv.height,
            ;
        }
        if (x as int) < lv.width && (y as int) * lv.width + x < lv.width * lv.height {
            assert((y as int) < lv.height) by (nonlinear_arith)
                requires
                    lv.width > 0,
                    0 <= (x as int),
                    (y as int) * lv.width + x < lv.width * lv.height,
            ;
        }
    }
}

/// The two coordinate conversions invert each other: every world point
/// inside a grid cell's footprint — its bottom-left corner included —
/// converts back to that cell. Rendering and collision therefore agree
/// about the vertical flip.
pub proof fn lemma_grid_world_inverse(lv: LevelView, cx: int, row: int, px: int, py: int)
    requires
        0 <= cx < lv.width,
        0 <= row < lv.height,
        cx * tile_sz() <= px < cx * tile_sz() + tile_sz(),
        row_world_y(lv, row) <= py < row_world_y(lv, row) + tile_sz(),
    ensures
        col_of(px) == cx,
        row_of(lv, py) == row,
{
    vstd::arithmetic::div_mod::lemma_fundamental_div_mod_converse(
        px,
        16,
        cx,
        px - cx * tile_sz(),
    );
    vstd::arithmetic::div_mod::lemma_fundamental_div_mod_converse(
        py,
        16,
        lv.height - row - 1,
        py - (lv.height - row - 1) * tile_sz(),
    );
}

/// Tiles that contribute nothing add up to nothing: a rectangle meeting
/// no solid tile resolves to zero displacement.
pub proof fn lemma_zero_disp(r: Rect, tiles: Seq<(Rect, TileData)>)
    requires
        forall|k: int| 0 <= k < tiles.len() ==> tile_disp(
            r,
            #[trigger] tiles[k].0,
            tiles[k].1.solid,
        ) == (0int, 0int),
    ensures
        disp_sum(r, tiles) == (0int, 0int),
    decreases tiles.len(),
{
    if tiles.len() > 0 {
        assert forall|k: int| 0 <= k < tiles.skip(1).len() implies tile_disp(
            r,
            #[trigger] tiles.skip(1)[k].0,
            tiles.skip(1)[k].1.solid,
        ) == (0int, 0int) by {
            assert(tiles.skip(1)[k] == tiles[k + 1]);
        }
        lemma_zero_disp(r, tiles.skip(1));
    }
}

/// When exactly one yielded tile contributes, the accumulated
/// displacement is that tile's contribution alone. In particular, with a
/// single solid overlapping tile whose horizontal overlap extent is the
/// smaller, the whole correction is horizontal, of exactly that extent —
/// the smaller-overlap axis wins.
pub proof fn lemma_single_tile_disp(r: Rect, tiles: Seq<(Rect, TileData)>, j: int)
    requires
        0 <= j < tiles.len(),
        forall|k: int| 0 <= k < tiles.len() && k != j ==> tile_disp(
            r,
            #[trigger] tiles[k].0,
            tiles[k].1.solid,
        ) == (0int, 0int),
    ensures
        disp_sum(r, tiles) == tile_disp(r, tiles[j].0, tiles[j].1.solid),
    decreases tiles.len(),
{
    assert forall|k: int| 0 <= k < tiles.skip(1).len() && k != j - 1 implies tile_disp(
        r,
        #[trigger] tiles.skip(1)[k].0,
        tiles.skip(1)[k].1.solid,
    ) == (0int, 0int) by {
        assert(tiles.skip(1)[k] == tiles[k + 1]);
    }
    if j == 0 {
        lemma_zero_disp(r, tiles.skip(1));
    } else {
        lemma_single_tile_disp(r, tiles.skip(1), j - 1);
        assert(tiles.skip(1)[j - 1] == tiles[j]);
        assert(tile_disp(r, tiles[0].0, tiles[0].1.solid) == (0int, 0int));
    }
}

/// An entity rectangle lying wholly inside the footprint of one open
/// tile meets no solid tile in the region query — the query yields that
/// one open cell alone — and displacement resolution leaves the entity
/// unmoved.
pub proof fn lemma_inside_open_tile(lv: LevelView, r: Rect, cx: int, row: int)
    requires
        crate::level::lv_wf(lv),
        0 <= cx < lv.width,
        0 <= row < lv.height,
        !cell_tile(lv, cx, row).solid,
        cell_rect(lv, cx, row).x <= r.x,
        r.x + r.w < cell_rect(lv, cx, row).x + tile_sz(),
        cell_rect(lv, cx, row).y <= r.y,
        r.y + r.h < cell_rect(lv, cx, row).y + tile_sz(),
    ensures
        tiles_within_spec(lv, r) =~= seq![(cell_rect(lv, cx, row), cell_tile(lv, cx, row))],
        forall|k: int| 0 <= k < tiles_within_spec(lv, r).len() ==> !tiles_within_spec(lv, r)[
            k
        ].1.solid,
        disp_sum(r, tiles_within_spec(lv, r)) == (0int, 0int),
{
    assert(0 <= cx * tile_sz() <= 0xFFFF * 16) by (nonlinear_arith)
        requires
            0 <= cx <= 0xFFFF,
    ;
    assert(0 <= (lv.height - row - 1) * tile_sz() <= 0xFFFF * 16) by (nonlinear_arith)
        requires
            0 <= lv.height - row - 1 <= 0xFFFF,
    ;
    let wx = cx * tile_sz();
    let wy = (lv.height - row - 1) * tile_sz();
    vstd::arithmetic::div_mod::lemma_fundamental_div_mod_converse(
        r.x as int,
        16,
        cx,
        r.x - wx,
    );
    vstd::arithmetic::div_mod::lemma_fundamental_div_mod_converse(
        r.x + r.w,
        16,
        cx,
        r.x + r.w - wx,
    );
    vstd::arithmetic::div_mod::lemma_fundamental_div_mod_converse(
        r.y as int,
        16,
        lv.height - row - 1,
        r.y - wy,
    );
    vstd::arithmetic::div_mod::lemma_fundamental_div_mod_converse(
        r.y + r.h,
        16,
        lv.height - row - 1,
        r.y + r.h - wy,
    );
    assert(span_c_lo(lv, r) == cx);
    assert(span_c_hi(lv, r) == cx);
    assert(span_r_lo(lv, r) == row);
    assert(span_r_hi(lv, r) == row);
    assert(row_cells(lv, row, cx + 1, cx) =~= Seq::<(Rect, TileData)>::empty());
    assert(row_cells(lv, row, cx, cx) =~= seq![(cell_rect(lv, cx, row), cell_tile(lv, cx, row))]);
    assert(rows_cells(lv, row + 1, row, cx, cx) =~= Seq::<(Rect, TileData)>::empty());
    assert(rows_cells(lv, row, row, cx, cx) =~= row_cells(lv, row, cx, cx) + rows_cells(
        lv,
        row + 1,
        row,
        cx,
        cx,
    ));
    assert(tiles_within_spec(lv, r) =~= seq![(cell_rect(lv, cx, row), cell_tile(lv, cx, row))]);
    lemma_zero_disp(r, tiles_within_spec(lv, r));
}

/// Floor division of a world coordinate by the tile size; exact also for
/// negative coordinates, unlike a truncating division.
fn floor_div_tile(v: i64) -> (r: i64)
    requires
        -COORD_BOUND - 0x10000 <= v <= COORD_BOUND + 0x10000,
    ensures
        r == v as int / tile_sz(),
{
    if v >= 0 {
        let q: u64 = (v as u64) / 16;
        q as i64
    } else {
        let n: u64 = (-v) as u64;
        let q: u64 = (n + 15) / 16;
        let r: i64 = -(q as i64);
        proof {
            vstd::arithmetic::div_mod::lemma_fundamental_div_mod((n + 15) as int, 16);
            assert(16 * (q as int) <= n + 15 < 16 * (q as int + 1));
            vstd::arithmetic::div_mod::lemma_fundamental_div_mod_converse(
                v as int,
                16,
                -(q as int),
                16 * (q as int) - n,
            );
        }
        r
    }
}

} // verus!
