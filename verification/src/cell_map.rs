//! The particle grid and its operations: construction, bounds-checked cell
//! access, circular-brush painting, the per-tick update rule, and pure
//! queries that produce draw records for a renderer.

use vstd::prelude::*;

verus! {

/// The state of one grid cell: either empty space or one sand particle.
#[derive(Clone, Copy, PartialEq, Eq, Structural, Debug)]
pub enum CellState {
    EMPTY,
    FILLED,
}

/// A fixed-size rectangular grid of cells, stored row-major in a flat
/// buffer. Row index grows downward, the direction of gravity.
pub struct CellMap {
    cells: Vec<CellState>,
    columns: usize,
    rows: usize,
    cell_width: u32,
}

impl CellMap {
    /// Dimensions are fixed for the lifetime of the grid, the cell size is
    /// positive, and pixel coordinates of every cell fit in `u32`.
    pub closed spec fn wf(self) -> bool {
        &&& self.cells@.len() == self.rows * self.columns
        &&& self.cell_width >= 1
        &&& self.columns * self.cell_width <= u32::MAX
        &&& self.rows * self.cell_width <= u32::MAX
    }

    pub closed spec fn spec_columns(self) -> int {
        self.columns as int
    }

    pub closed spec fn spec_rows(self) -> int {
        self.rows as int
    }

    pub closed spec fn spec_cell_width(self) -> int {
        self.cell_width as int
    }

    /// The grid contents as a flat row-major sequence of length
    /// `rows * columns`.
    pub closed spec fn grid(self) -> Seq<CellState> {
        self.cells@
    }

    pub open spec fn in_range(self, x: int, y: int) -> bool {
        0 <= x < self.spec_columns() && 0 <= y < self.spec_rows()
    }

    /// The state of the cell at column `x`, row `y` (in range only).
    pub open spec fn cell(self, x: int, y: int) -> CellState {
        self.grid()[y * self.spec_columns() + x]
    }

    pub open spec fn filled(self, x: int, y: int) -> bool {
        self.in_range(x, y) && self.cell(x, y) == CellState::FILLED
    }

    /// Builds a grid for a canvas of `width × height` pixels with square
    /// cells of `cell_width` pixels: `floor(width / cell_width)` columns,
    /// `floor(height / cell_width)` rows, all cells initially `EMPTY`.
    pub fn new(width: u32, height: u32, cell_width: u32) -> (r: CellMap)
        requires
            cell_width >= 1,
            // machine limit: the cell buffer must be addressable
            (width as int / cell_width as int) * (height as int / cell_width as int) <= usize::MAX,
        ensures
            r.wf(),
            r.spec_columns() == width as int / cell_width as int,
            r.spec_rows() == height as int / cell_width as int,
            r.spec_cell_width() == cell_width as int,
            forall|x: int, y: int| r.in_range(x, y) ==> r.cell(x, y) == CellState::EMPTY,
    {
        let columns = (width / cell_width) as usize;
        let rows = (height / cell_width) as usize;
        proof {
            lemma_grid_fits(columns as int, rows as int, cell_width as int, width as int, height as int);
            assert(rows as int * columns as int <= usize::MAX) by (nonlinear_arith)
                requires
                    columns as int == width as int / cell_width as int,
                    rows as int == height as int / cell_width as int,
                    (width as int / cell_width as int) * (height as int / cell_width as int) <= usize::MAX,
            ;
        }
        let n = rows * columns;
        let mut cells: Vec<CellState> = Vec::new();
        let mut i: usize = 0;
        while i < n
            invariant
                i <= n,
                cells@.len() == i,
                forall|k: int| 0 <= k < i ==> cells@[k] == CellState::EMPTY,
            decreases n - i,
        {
            cells.push(CellState::EMPTY);
            i += 1;
        }
        let r = CellMap { cells, columns, rows, cell_width };
        proof {
            assert forall|x: int, y: int| r.in_range(x, y) implies r.cell(x, y) == CellState::EMPTY by {
                lemma_rowmajor_bound(x, y, r.spec_columns(), r.spec_rows());
            }
        }
        r
    }

    /// Bounds-checked read: the state of cell `(x, y)`, or `EMPTY` when the
    /// coordinates lie outside `[0, columns) × [0, rows)` (never a fault).
    pub fn cell_state(&self, x: usize, y: usize) -> (r: CellState)
        requires
            self.wf(),
        ensures
            r == if self.in_range(x as int, y as int) {
                self.cell(x as int, y as int)
            } else {
                CellState::EMPTY
            },
    {
        if x < self.columns && y < self.rows {
            self.cell_at(x, y)
        } else {
            CellState::EMPTY
        }
    }

    /// Bounds-checked write: sets cell `(x, y)` to `state`; out-of-range
    /// coordinates are a silent no-op (never a fault).
    pub fn set_cell_state(&mut self, x: usize, y: usize, state: CellState)
        requires
            old(self).wf(),
        ensures
            final(self).wf(),
            final(self).spec_columns() == old(self).spec_columns(),
            final(self).spec_rows() == old(self).spec_rows(),
            final(self).spec_cell_width() == old(self).spec_cell_width(),
            final(self).grid() == if old(self).in_range(x as int, y as int) {
                old(self).grid().update(y as int * old(self).spec_columns() + x as int, state)
            } else {
                old(self).grid()
            },
    {
        if x < self.columns && y < self.rows {
            self.set_at(x, y, state);
        }
    }

    /// Unchecked read of an in-range cell.
    fn cell_at(&self, x: usize, y: usize) -> (r: CellState)
        requires
            self.wf(),
            x < self.spec_columns(),
            y < self.spec_rows(),
        ensures
            r == self.cell(x as int, y as int),
    {
        let n = self.cells.len();
        proof {
            lemma_rowmajor_bound(x as int, y as int, self.spec_columns(), self.spec_rows());
            assert(y as int * self.spec_columns() + x < n);
        }
        self.cells[y * self.columns + x]
    }

    /// Unchecked write of an in-range cell.
    fn set_at(&mut self, x: usize, y: usize, state: CellState)
        requires
            old(self).wf(),
            x < old(self).spec_columns(),
            y < old(self).spec_rows(),
        ensures
            final(self).wf(),
            final(self).spec_columns() == old(self).spec_columns(),
            final(self).spec_rows() == old(self).spec_rows(),
            final(self).spec_cell_width() == old(self).spec_cell_width(),
            final(self).grid() == old(self).grid().update(
                y as int * old(self).spec_columns() + x as int,
                state,
            ),
    {
        let n = self.cells.len();
        proof {
            lemma_rowmajor_bound(x as int, y as int, self.spec_columns(), self.spec_rows());
            assert(y as int * self.spec_columns() + x < n);
        }
        let i = y * self.columns + x;
        self.cells[i] = state;
    }

    /// Paints the cell containing pixel `(x, y)`: maps the pixel to its cell
    /// by integer division by the cell size and, when that cell is in range,
    /// sets it `FILLED`. Out-of-range pixels are a silent no-op; painting
    /// never empties a cell.
    pub fn add_cell(&mut self, x: u32, y: u32)
        requires
            old(self).wf(),
        ensures
            final(self).wf(),
            final(self).spec_columns() == old(self).spec_columns(),
            final(self).spec_rows() == old(self).spec_rows(),
            final(self).spec_cell_width() == old(self).spec_cell_width(),
            ({
                let u = x as int / old(self).spec_cell_width();
                let v = y as int / old(self).spec_cell_width();
                final(self).grid() == if old(self).in_range(u, v) {
                    old(self).grid().update(v * old(self).spec_columns() + u, CellState::FILLED)
                } else {
                    old(self).grid()
                }
            }),
            forall|u: int, v: int| old(self).filled(u, v) ==> final(self).filled(u, v),
    {
        self.paint_pixel(x as u64, y as u64);
    }

    /// Paints the cell containing a pixel given with 64-bit coordinates
    /// (pixels beyond the grid's extent map to out-of-range cells and are
    /// skipped).
    fn paint_pixel(&mut self, px: u64, py: u64)
        requires
            old(self).wf(),
        ensures
            final(self).wf(),
            final(self).spec_columns() == old(self).spec_columns(),
            final(self).spec_rows() == old(self).spec_rows(),
            final(self).spec_cell_width() == old(self).spec_cell_width(),
            ({
                let u = px as int / old(self).spec_cell_width();
                let v = py as int / old(self).spec_cell_width();
                final(self).grid() == if old(self).in_range(u, v) {
                    old(self).grid().update(v * old(self).spec_columns() + u, CellState::FILLED)
                } else {
                    old(self).grid()
                }
            }),
            forall|u: int, v: int| old(self).filled(u, v) ==> final(self).filled(u, v),
    {
        let cw = self.cell_width as u64;
        let u = px / cw;
        let v = py / cw;
        if u < self.columns as u64 && v < self.rows as u64 {
            let gu = u as usize;
            let gv = v as usize;
            self.set_at(gu, gv, CellState::FILLED);
            proof {
                let g0 = *old(self);
                let ui = px as int / g0.spec_cell_width();
                let vi = py as int / g0.spec_cell_width();
                assert(ui == gu as int && vi == gv as int);
                assert forall|a: int, b: int| g0.filled(a, b) implies self.filled(a, b) by {
                    lemma_rowmajor_bound(a, b, g0.spec_columns(), g0.spec_rows());
                    lemma_rowmajor_bound(ui, vi, g0.spec_columns(), g0.spec_rows());
                }
            }
        }
    }

    /// Paints a filled circular brush: scans every integer pixel offset
    /// `(dx, dy)` in the bounding square `[-radius, radius]²`, keeps those
    /// with `dx² + dy² <= radius²`, and paints the cell containing each kept
    /// pixel. Fills exactly the cells the disc touches; never empties a
    /// cell; out-of-range cells are silently skipped.
    #[verifier::loop_isolation(false)]
    pub fn fill_circle(&mut self, center_x: u32, center_y: u32, radius: u32)
        requires
            old(self).wf(),
            // machine limit: dx² + dy² must fit in 64 bits
            radius <= 0x4000_0000,
        ensures
            final(self).wf(),
            final(self).spec_columns() == old(self).spec_columns(),
            final(self).spec_rows() == old(self).spec_rows(),
            final(self).spec_cell_width() == old(self).spec_cell_width(),
            forall|u: int, v: int|
                final(self).filled(u, v) <==> old(self).filled(u, v) || (old(self).in_range(u, v)
                    && circle_covers(
                    old(self).spec_cell_width(),
                    center_x as int,
                    center_y as int,
                    radius as int,
                    u,
                    v,
                )),
            forall|u: int, v: int| old(self).filled(u, v) ==> final(self).filled(u, v),
    {
        let cx = center_x as i64;
        let cy = center_y as i64;
        let r = radius as i64;
        proof {
            assert(r as int * r as int <= 0x4000_0000 * 0x4000_0000) by (nonlinear_arith)
                requires
                    0 <= r as int <= 0x4000_0000,
            ;
        }
        let rsq = r * r;
        let ghost g0 = *self;
        let ghost cw = g0.spec_cell_width();
        proof {
            assert forall|u: int, v: int|
                !(#[trigger] covers_before(cw, cx as int, cy as int, r as int, -r as int, -r as int, u, v)) by {
                lemma_covers_bounds(cw, cx as int, cy as int, r as int, u, v);
            }
        }
        let mut dy: i64 = -r;
        while dy <= r
            invariant
                self.wf(),
                self.spec_columns() == g0.spec_columns(),
                self.spec_rows() == g0.spec_rows(),
                self.spec_cell_width() == g0.spec_cell_width(),
                -r <= dy <= r + 1,
                forall|u: int, v: int|
                    self.filled(u, v) <==> g0.filled(u, v) || (g0.in_range(u, v) && covers_before(
                        cw,
                        cx as int,
                        cy as int,
                        r as int,
                        dy as int,
                        -r as int,
                        u,
                        v,
                    )),
            decreases r + 1 - dy,
        {
            let mut dx: i64 = -r;
            while dx <= r
                invariant
                    self.wf(),
                    self.spec_columns() == g0.spec_columns(),
                    self.spec_rows() == g0.spec_rows(),
                    self.spec_cell_width() == g0.spec_cell_width(),
                    -r <= dy <= r,
                    -r <= dx <= r + 1,
                    forall|u: int, v: int|
                        self.filled(u, v) <==> g0.filled(u, v) || (g0.in_range(u, v)
                            && covers_before(
                            cw,
                            cx as int,
                            cy as int,
                            r as int,
                            dy as int,
                            dx as int,
                            u,
                            v,
                        )),
                decreases r + 1 - dx,
            {
                let ghost pre = *self;
                proof {
                    assert(0 <= dx as int * dx as int <= 0x4000_0000 * 0x4000_0000 && 0 <= dy
                        as int * dy as int <= 0x4000_0000 * 0x4000_0000) by (nonlinear_arith)
                        requires
                            -0x4000_0000 <= dx as int <= 0x4000_0000,
                            -0x4000_0000 <= dy as int <= 0x4000_0000,
                    ;
                }
                if dx * dx + dy * dy <= rsq {
                    let px = cx + dx;
                    let py = cy + dy;
                    if px >= 0 && py >= 0 {
                        let pxu = px as u64;
                        let pyu = py as u64;
                        self.paint_pixel(pxu, pyu);
                        proof {
                            let u0 = pxu as int / cw;
                            let v0 = pyu as int / cw;
                            assert(pxu as int == cx as int + dx as int);
                            assert(pyu as int == cy as int + dy as int);
                            if pre.in_range(u0, v0) {
                                lemma_filled_after_update(pre, *self, u0, v0);
                            }
                            assert forall|u: int, v: int|
                                self.filled(u, v) <==> g0.filled(u, v) || (g0.in_range(u, v)
                                    && covers_before(
                                    cw,
                                    cx as int,
                                    cy as int,
                                    r as int,
                                    dy as int,
                                    dx as int + 1,
                                    u,
                                    v,
                                )) by {
                                lemma_covers_step_hit(
                                    cw,
                                    cx as int,
                                    cy as int,
                                    r as int,
                                    dy as int,
                                    dx as int,
                                    u,
                                    v,
                                );
                            }
                        }
                    } else {
                        proof {
                            assert forall|u: int, v: int|
                                #[trigger] covers_before(
                                    cw,
                                    cx as int,
                                    cy as int,
                                    r as int,
                                    dy as int,
                                    dx as int + 1,
                                    u,
                                    v,
                                ) <==> covers_before(
                                    cw,
                                    cx as int,
                                    cy as int,
                                    r as int,
                                    dy as int,
                                    dx as int,
                                    u,
                                    v,
                                ) by {
                                lemma_covers_step_miss(
                                    cw,
                                    cx as int,
                                    cy as int,
                                    r as int,
                                    dy as int,
                                    dx as int,
                                    u,
                                    v,
                                );
                            }
                        }
                    }
                } else {
                    proof {
                        assert(!in_disc(
                            cx as int,
                            cy as int,
                            r as int,
                            cx as int + dx as int,
                            cy as int + dy as int,
                        ));
                        assert forall|u: int, v: int|
                            covers_before(
                                cw,
                                cx as int,
                                cy as int,
                                r as int,
                                dy as int,
                                dx as int + 1,
                                u,
                                v,
                            ) <==> covers_before(
                                cw,
                                cx as int,
                                cy as int,
                                r as int,
                                dy as int,
                                dx as int,
                                u,
                                v,
                            ) by {
                            lemma_covers_step_miss(
                                cw,
                                cx as int,
                                cy as int,
                                r as int,
                                dy as int,
                                dx as int,
                                u,
                                v,
                            );
                        }
                    }
                }
                dx += 1;
            }
            proof {
                assert forall|u: int, v: int|
                    #[trigger] covers_before(cw, cx as int, cy as int, r as int, dy as int, r as int + 1, u, v)
                        <==> covers_before(
                        cw,
                        cx as int,
                        cy as int,
                        r as int,
                        dy as int + 1,
                        -r as int,
                        u,
                        v,
                    ) by {
                    lemma_covers_row_advance(cw, cx as int, cy as int, r as int, dy as int, u, v);
                }
            }
            dy += 1;
        }
        proof {
            assert forall|u: int, v: int|
                #[trigger] covers_before(cw, cx as int, cy as int, r as int, r as int + 1, -r as int, u, v)
                    <==> circle_covers(cw, cx as int, cy as int, r as int, u, v) by {
                lemma_covers_bounds(cw, cx as int, cy as int, r as int, u, v);
            }
        }
    }
}

/// Pixel `(px, py)` lies in the closed disc of radius `radius` around
/// `(cx, cy)`: `(px-cx)² + (py-cy)² <= radius²`, in exact integer arithmetic.
pub open spec fn in_disc(cx: int, cy: int, radius: int, px: int, py: int) -> bool {
    (px - cx) * (px - cx) + (py - cy) * (py - cy) <= radius * radius
}

/// Pixel `(px, py)` is a real (non-negative) pixel and lies in the cell
/// `(u, v)` of a grid with the given cell size.
pub open spec fn pixel_in_cell(cell_width: int, px: int, py: int, u: int, v: int) -> bool {
    px >= 0 && py >= 0 && px / cell_width == u && py / cell_width == v
}

/// Cell `(u, v)` contains at least one pixel of the closed disc of radius
/// `radius` around pixel `(cx, cy)`.
pub open spec fn circle_covers(cell_width: int, cx: int, cy: int, radius: int, u: int, v: int) -> bool {
    exists|px: int, py: int|
        #[trigger] in_disc(cx, cy, radius, px, py) && pixel_in_cell(cell_width, px, py, u, v)
}

/// Like [`circle_covers`], but restricted to the disc pixels already visited
/// by a row-by-row scan of the bounding square: those whose offset from the
/// center precedes `(dxb, dyb)` in row-major offset order.
spec fn covers_before(
    cell_width: int,
    cx: int,
    cy: int,
    radius: int,
    dyb: int,
    dxb: int,
    u: int,
    v: int,
) -> bool {
    exists|px: int, py: int|
        #[trigger] in_disc(cx, cy, radius, px, py) && pixel_in_cell(cell_width, px, py, u, v)
            && (py - cy < dyb || (py - cy == dyb && px - cx < dxb))
}

/// Scanning one more pixel that belongs to the disc and is a real pixel
/// extends the covered set by exactly the cell of that pixel.
proof fn lemma_covers_step_hit(cw: int, cx: int, cy: int, r: int, dy: int, dx: int, u: int, v: int)
    requires
        cw >= 1,
        in_disc(cx, cy, r, cx + dx, cy + dy),
        cx + dx >= 0,
        cy + dy >= 0,
    ensures
        covers_before(cw, cx, cy, r, dy, dx + 1, u, v) <==> (covers_before(cw, cx, cy, r, dy, dx, u, v)
            || (u == (cx + dx) / cw && v == (cy + dy) / cw)),
{
    if covers_before(cw, cx, cy, r, dy, dx + 1, u, v) {
        let (px, py) = choose|px: int, py: int|
            #[trigger] in_disc(cx, cy, r, px, py) && pixel_in_cell(cw, px, py, u, v)
                && (py - cy < dy || (py - cy == dy && px - cx < dx + 1));
        if py - cy < dy || (py - cy == dy && px - cx < dx) {
            assert(covers_before(cw, cx, cy, r, dy, dx, u, v));
        } else {
            assert(px == cx + dx && py == cy + dy);
            assert(u == (cx + dx) / cw && v == (cy + dy) / cw);
        }
    }
    if covers_before(cw, cx, cy, r, dy, dx, u, v) {
        let (px, py) = choose|px: int, py: int|
            #[trigger] in_disc(cx, cy, r, px, py) && pixel_in_cell(cw, px, py, u, v)
                && (py - cy < dy || (py - cy == dy && px - cx < dx));
        assert(in_disc(cx, cy, r, px, py) && pixel_in_cell(cw, px, py, u, v)
            && (py - cy < dy || (py - cy == dy && px - cx < dx + 1)));
        assert(covers_before(cw, cx, cy, r, dy, dx + 1, u, v));
    }
    if u == (cx + dx) / cw && v == (cy + dy) / cw {
        let px = cx + dx;
        let py = cy + dy;
        assert(in_disc(cx, cy, r, px, py) && pixel_in_cell(cw, px, py, u, v)
            && (py - cy < dy || (py - cy == dy && px - cx < dx + 1)));
        assert(covers_before(cw, cx, cy, r, dy, dx + 1, u, v));
    }
}

/// Scanning one more pixel that is outside the disc, or not a real pixel,
/// leaves the covered set unchanged.
proof fn lemma_covers_step_miss(cw: int, cx: int, cy: int, r: int, dy: int, dx: int, u: int, v: int)
    requires
        cw >= 1,
        !(in_disc(cx, cy, r, cx + dx, cy + dy) && cx + dx >= 0 && cy + dy >= 0),
    ensures
        covers_before(cw, cx, cy, r, dy, dx + 1, u, v) <==> covers_before(cw, cx, cy, r, dy, dx, u, v),
{
    if covers_before(cw, cx, cy, r, dy, dx + 1, u, v) {
        let (px, py) = choose|px: int, py: int|
            #[trigger] in_disc(cx, cy, r, px, py) && pixel_in_cell(cw, px, py, u, v)
                && (py - cy < dy || (py - cy == dy && px - cx < dx + 1));
        if py - cy < dy || (py - cy == dy && px - cx < dx) {
            assert(covers_before(cw, cx, cy, r, dy, dx, u, v));
        } else {
            assert(px == cx + dx && py == cy + dy);
            assert(false);
        }
    }
    if covers_before(cw, cx, cy, r, dy, dx, u, v) {
        let (px, py) = choose|px: int, py: int|
            #[trigger] in_disc(cx, cy, r, px, py) && pixel_in_cell(cw, px, py, u, v)
                && (py - cy < dy || (py - cy == dy && px - cx < dx));
        assert(in_disc(cx, cy, r, px, py) && pixel_in_cell(cw, px, py, u, v)
            && (py - cy < dy || (py - cy == dy && px - cx < dx + 1)));
        assert(covers_before(cw, cx, cy, r, dy, dx + 1, u, v));
    }
}

/// Finishing a row of the bounding square: the pixels scanned before offset
/// `(r+1, dyb)` are, within the disc, exactly those scanned before
/// `(-r, dyb+1)`.
proof fn lemma_covers_row_advance(cw: int, cx: int, cy: int, r: int, dyb: int, u: int, v: int)
    requires
        cw >= 1,
        r >= 0,
    ensures
        covers_before(cw, cx, cy, r, dyb, r + 1, u, v) <==> covers_before(cw, cx, cy, r, dyb + 1, -r, u, v),
{
    if covers_before(cw, cx, cy, r, dyb, r + 1, u, v) {
        let (px, py) = choose|px: int, py: int|
            #[trigger] in_disc(cx, cy, r, px, py) && pixel_in_cell(cw, px, py, u, v)
                && (py - cy < dyb || (py - cy == dyb && px - cx < r + 1));
        lemma_sq_le(px - cx, py - cy, r);
        assert(py - cy < dyb + 1 || (py - cy == dyb + 1 && px - cx < -r));
        assert(covers_before(cw, cx, cy, r, dyb + 1, -r, u, v));
    }
    if covers_before(cw, cx, cy, r, dyb + 1, -r, u, v) {
        let (px, py) = choose|px: int, py: int|
            #[trigger] in_disc(cx, cy, r, px, py) && pixel_in_cell(cw, px, py, u, v)
                && (py - cy < dyb + 1 || (py - cy == dyb + 1 && px - cx < -r));
        lemma_sq_le(px - cx, py - cy, r);
        assert(py - cy < dyb || (py - cy == dyb && px - cx < r + 1));
        assert(covers_before(cw, cx, cy, r, dyb, r + 1, u, v));
    }
}

/// Before the scan starts nothing is covered; after it ends the covered set
/// is exactly the set of cells the disc touches.
proof fn lemma_covers_bounds(cw: int, cx: int, cy: int, r: int, u: int, v: int)
    requires
        cw >= 1,
        r >= 0,
    ensures
        !covers_before(cw, cx, cy, r, -r, -r, u, v),
        covers_before(cw, cx, cy, r, r + 1, -r, u, v) <==> circle_covers(cw, cx, cy, r, u, v),
{
    if covers_before(cw, cx, cy, r, -r, -r, u, v) {
        let (px, py) = choose|px: int, py: int|
            #[trigger] in_disc(cx, cy, r, px, py) && pixel_in_cell(cw, px, py, u, v)
                && (py - cy < -r || (py - cy == -r && px - cx < -r));
        lemma_sq_le(px - cx, py - cy, r);
        assert(false);
    }
    if covers_before(cw, cx, cy, r, r + 1, -r, u, v) {
        assert(circle_covers(cw, cx, cy, r, u, v));
    }
    if circle_covers(cw, cx, cy, r, u, v) {
        let (px, py) = choose|px: int, py: int|
            #[trigger] in_disc(cx, cy, r, px, py) && pixel_in_cell(cw, px, py, u, v);
        lemma_sq_le(px - cx, py - cy, r);
        assert(in_disc(cx, cy, r, px, py) && pixel_in_cell(cw, px, py, u, v) && py - cy < r + 1);
        assert(covers_before(cw, cx, cy, r, r + 1, -r, u, v));
    }
}

/// Pointwise effect of setting one in-range cell `FILLED`.
proof fn lemma_filled_after_update(pre: CellMap, post: CellMap, u0: int, v0: int)
    requires
        pre.wf(),
        post.wf(),
        post.spec_columns() == pre.spec_columns(),
        post.spec_rows() == pre.spec_rows(),
        pre.in_range(u0, v0),
        post.grid() == pre.grid().update(v0 * pre.spec_columns() + u0, CellState::FILLED),
    ensures
        forall|u: int, v: int|
            post.filled(u, v) <==> pre.filled(u, v) || (u == u0 && v == v0),
{
    lemma_rowmajor_bound(u0, v0, pre.spec_columns(), pre.spec_rows());
    assert forall|u: int, v: int|
        post.filled(u, v) <==> pre.filled(u, v) || (u == u0 && v == v0) by {
        if pre.in_range(u, v) {
            lemma_rowmajor_bound(u, v, pre.spec_columns(), pre.spec_rows());
            if u == u0 && v == v0 {
                assert(post.cell(u, v) == CellState::FILLED);
            } else {
                if v * pre.spec_columns() + u == v0 * pre.spec_columns() + u0 {
                    lemma_rowmajor_inj(pre.spec_columns(), u, v, u0, v0);
                }
            }
        }
    }
}

/// Row-major indexing of in-range cells is injective.
proof fn lemma_rowmajor_inj(cols: int, x1: int, y1: int, x2: int, y2: int)
    requires
        0 <= x1 < cols,
        0 <= x2 < cols,
        y1 * cols + x1 == y2 * cols + x2,
    ensures
        x1 == x2 && y1 == y2,
{
    assert(x1 == x2 && y1 == y2) by (nonlinear_arith)
        requires
            0 <= x1 < cols,
            0 <= x2 < cols,
            y1 * cols + x1 == y2 * cols + x2,
    ;
}

/// A square bounded by `r²` is bounded by `r` in absolute value.
proof fn lemma_sq_le(a: int, b: int, r: int)
    requires
        a * a + b * b <= r * r,
        r >= 0,
    ensures
        -r <= a <= r,
        -r <= b <= r,
{
    assert(-r <= a <= r && -r <= b <= r) by (nonlinear_arith)
        requires
            a * a + b * b <= r * r,
            r >= 0,
    ;
}

/// A well-formed grid's flat buffer has exactly `rows * columns` cells.
pub proof fn lemma_grid_len(g: CellMap)
    requires
        g.wf(),
    ensures
        g.grid().len() == g.spec_rows() * g.spec_columns(),
{
}

/// Row-major index of an in-range cell lies within the buffer.
proof fn lemma_rowmajor_bound(x: int, y: int, columns: int, rows: int)
    requires
        0 <= x < columns,
        0 <= y < rows,
    ensures
        0 <= y * columns + x < rows * columns,
{
    assert(0 <= y * columns + x < rows * columns) by (nonlinear_arith)
        requires
            0 <= x < columns,
            0 <= y < rows,
    ;
}

/// `columns * rows` and the pixel extents fit in the machine limits used by
/// `CellMap::new`.
proof fn lemma_grid_fits(columns: int, rows: int, cell_width: int, width: int, height: int)
    requires
        cell_width >= 1,
        columns == width / cell_width,
        rows == height / cell_width,
        0 <= width <= u32::MAX,
        0 <= height <= u32::MAX,
    ensures
        columns * cell_width <= u32::MAX,
        rows * cell_width <= u32::MAX,
{
    assert(columns * cell_width <= width && rows * cell_width <= height) by (nonlinear_arith)
        requires
            cell_width >= 1,
            columns == width / cell_width,
            rows == height / cell_width,
            width >= 0,
            height >= 0,
    ;
}

/// One recorded particle move of a tick: the particle at source cell
/// `(sx, sy)` moves to destination cell `(dx, dy)`.
#[derive(Clone, Copy)]
pub struct CellMove {
    pub sx: usize,
    pub sy: usize,
    pub dx: usize,
    pub dy: usize,
}

/// Flat row-major index of a move's source cell.
pub open spec fn src_index(cols: int, mv: CellMove) -> int {
    mv.sy as int * cols + mv.sx as int
}

/// Flat row-major index of a move's destination cell.
pub open spec fn dst_index(cols: int, mv: CellMove) -> int {
    mv.dy as int * cols + mv.dx as int
}

/// A move the update rule may record against the snapshot `g`: from an
/// in-range filled cell into an in-range empty cell one row further down, at
/// most one column aside, and straight down whenever the cell directly below
/// is empty (vertical fall has strict priority over diagonal moves).
pub open spec fn legal_move(g: CellMap, mv: CellMove) -> bool {
    &&& g.in_range(mv.sx as int, mv.sy as int)
    &&& g.in_range(mv.dx as int, mv.dy as int)
    &&& g.cell(mv.sx as int, mv.sy as int) == CellState::FILLED
    &&& g.cell(mv.dx as int, mv.dy as int) == CellState::EMPTY
    &&& mv.dy as int == mv.sy as int + 1
    &&& (mv.dx as int == mv.sx as int || mv.dx as int == mv.sx as int - 1 || mv.dx as int
        == mv.sx as int + 1)
    &&& (g.cell(mv.sx as int, mv.sy as int + 1) == CellState::EMPTY ==> mv.dx as int == mv.sx as int)
}

/// The cell `(x, y)` holds a particle whose cell directly below is in range
/// and empty in the snapshot: the particle must fall straight down.
pub open spec fn must_fall(g: CellMap, x: int, y: int) -> bool {
    g.filled(x, y) && g.in_range(x, y + 1) && g.cell(x, y + 1) == CellState::EMPTY
}

/// The cell `(x, y)` has at least one empty in-range cell among the three
/// below it, so the particle there could move this tick.
pub open spec fn can_move(g: CellMap, x: int, y: int) -> bool {
    g.in_range(x, y + 1) && (g.cell(x, y + 1) == CellState::EMPTY || (g.in_range(x - 1, y + 1)
        && g.cell(x - 1, y + 1) == CellState::EMPTY) || (g.in_range(x + 1, y + 1)
        && g.cell(x + 1, y + 1) == CellState::EMPTY))
}

/// `mv` is the straight fall move out of cell `(x, y)`.
pub open spec fn is_fall_move(mv: CellMove, x: int, y: int) -> bool {
    mv.sx as int == x && mv.sy as int == y && mv.dx as int == x && mv.dy as int == y + 1
}

/// What one tick may record against the snapshot `g`: every move is legal,
/// no source moves twice, and every particle that must fall straight down
/// has its fall recorded.
pub open spec fn valid_move_set(g: CellMap, m: Seq<CellMove>) -> bool {
    &&& (forall|i: int| #![trigger m[i]] 0 <= i < m.len() ==> legal_move(g, m[i]))
    &&& (forall|i: int, j: int|
        #![trigger m[i], m[j]]
        0 <= i < j < m.len() ==> !(m[i].sx == m[j].sx && m[i].sy == m[j].sy))
    &&& (forall|x: int, y: int|
        #[trigger] must_fall(g, x, y) ==> exists|i: int|
            0 <= i < m.len() && #[trigger] is_fall_move(m[i], x, y))
}

/// The result of applying one recorded move to a flat grid: the source cell
/// is emptied, then the destination cell is filled.
pub open spec fn apply_one(s: Seq<CellState>, cols: int, mv: CellMove) -> Seq<CellState> {
    s.update(src_index(cols, mv), CellState::EMPTY).update(dst_index(cols, mv), CellState::FILLED)
}

/// The result of applying recorded moves in order (a later write to a shared
/// destination wins: the update policy is last-write-wins).
pub open spec fn apply_all(s: Seq<CellState>, cols: int, m: Seq<CellMove>) -> Seq<CellState>
    decreases m.len(),
{
    if m.len() == 0 {
        s
    } else {
        apply_one(apply_all(s, cols, m.drop_last()), cols, m.last())
    }
}

/// The number of `FILLED` cells in a flat grid.
pub open spec fn filled_count(s: Seq<CellState>) -> int
    decreases s.len(),
{
    if s.len() == 0 {
        0
    } else {
        filled_count(s.drop_last()) + if s.last() == CellState::FILLED {
            1int
        } else {
            0int
        }
    }
}

/// Every recorded move's source and destination index lies within the
/// flat grid.
pub open spec fn moves_in_bounds(s: Seq<CellState>, cols: int, m: Seq<CellMove>) -> bool {
    forall|i: int|
        #![trigger m[i]]
        0 <= i < m.len() ==> 0 <= src_index(cols, m[i]) < s.len() && 0 <= dst_index(cols, m[i])
            < s.len()
}

/// Applying in-bounds moves preserves the grid's length.
proof fn lemma_apply_len(s: Seq<CellState>, cols: int, m: Seq<CellMove>)
    requires
        moves_in_bounds(s, cols, m),
    ensures
        apply_all(s, cols, m).len() == s.len(),
    decreases m.len(),
{
    if m.len() > 0 {
        lemma_apply_len(s, cols, m.drop_last());
    }
}

/// A position that is no move's source and no move's destination keeps its
/// state.
proof fn lemma_apply_untouched(s: Seq<CellState>, cols: int, m: Seq<CellMove>, k: int)
    requires
        moves_in_bounds(s, cols, m),
        0 <= k < s.len(),
        forall|i: int|
            #![trigger m[i]]
            0 <= i < m.len() ==> src_index(cols, m[i]) != k && dst_index(cols, m[i]) != k,
    ensures
        apply_all(s, cols, m)[k] == s[k],
    decreases m.len(),
{
    if m.len() > 0 {
        lemma_apply_untouched(s, cols, m.drop_last(), k);
        lemma_apply_len(s, cols, m.drop_last());
    }
}

/// A recorded destination that is no move's source is `FILLED` afterwards.
proof fn lemma_apply_dst_filled(s: Seq<CellState>, cols: int, m: Seq<CellMove>, i: int)
    requires
        moves_in_bounds(s, cols, m),
        0 <= i < m.len(),
        0 <= dst_index(cols, m[i]) < s.len(),
        forall|j: int|
            #![trigger m[j]]
            0 <= j < m.len() ==> src_index(cols, m[j]) != dst_index(cols, m[i]),
    ensures
        apply_all(s, cols, m)[dst_index(cols, m[i])] == CellState::FILLED,
    decreases m.len(),
{
    let k = dst_index(cols, m[i]);
    lemma_apply_len(s, cols, m.drop_last());
    if dst_index(cols, m.last()) != k {
        assert(i < m.len() - 1);
        lemma_apply_dst_filled(s, cols, m.drop_last(), i);
    }
}

/// A recorded source that no other move shares and that is no move's
/// destination is `EMPTY` afterwards.
proof fn lemma_apply_src_empty(s: Seq<CellState>, cols: int, m: Seq<CellMove>, i: int)
    requires
        moves_in_bounds(s, cols, m),
        0 <= i < m.len(),
        0 <= src_index(cols, m[i]) < s.len(),
        forall|j: int|
            #![trigger m[j]]
            0 <= j < m.len() && j != i ==> src_index(cols, m[j]) != src_index(cols, m[i]),
        forall|j: int|
            #![trigger m[j]]
            0 <= j < m.len() ==> dst_index(cols, m[j]) != src_index(cols, m[i]),
    ensures
        apply_all(s, cols, m)[src_index(cols, m[i])] == CellState::EMPTY,
    decreases m.len(),
{
    let k = src_index(cols, m[i]);
    lemma_apply_len(s, cols, m.drop_last());
    if i < m.len() - 1 {
        lemma_apply_src_empty(s, cols, m.drop_last(), i);
    }
}

/// A cell that is `FILLED` afterwards was `FILLED` before or is some
/// recorded move's destination.
proof fn lemma_apply_origin(s: Seq<CellState>, cols: int, m: Seq<CellMove>, k: int)
    requires
        moves_in_bounds(s, cols, m),
        0 <= k < s.len(),
        apply_all(s, cols, m)[k] == CellState::FILLED,
    ensures
        s[k] == CellState::FILLED || exists|i: int|
            0 <= i < m.len() && dst_index(cols, #[trigger] m[i]) == k,
    decreases m.len(),
{
    if m.len() > 0 {
        let t = apply_all(s, cols, m.drop_last());
        let last = m.last();
        lemma_apply_len(s, cols, m.drop_last());
        let u1 = t.update(src_index(cols, last), CellState::EMPTY);
        assert(apply_all(s, cols, m) == u1.update(dst_index(cols, last), CellState::FILLED));
        if dst_index(cols, last) == k {
            assert(dst_index(cols, m[m.len() - 1]) == k);
        } else if src_index(cols, last) == k {
            assert(u1[k] == CellState::EMPTY);
            assert(apply_all(s, cols, m)[k] == CellState::EMPTY);
            assert(false);
        } else {
            assert(u1[k] == t[k]);
            assert(apply_all(s, cols, m)[k] == t[k]);
            lemma_apply_origin(s, cols, m.drop_last(), k);
            if s[k] != CellState::FILLED {
                let i = choose|i: int|
                    0 <= i < m.drop_last().len() && dst_index(cols, #[trigger] m.drop_last()[i])
                        == k;
                assert(dst_index(cols, m[i]) == k);
            }
        }
    }
}

/// Updating one in-range position changes the filled count by the departure
/// and the arrival.
proof fn lemma_count_update(s: Seq<CellState>, k: int, v: CellState)
    requires
        0 <= k < s.len(),
    ensures
        filled_count(s.update(k, v)) == filled_count(s) - (if s[k] == CellState::FILLED {
            1int
        } else {
            0int
        }) + (if v == CellState::FILLED {
            1int
        } else {
            0int
        }),
    decreases s.len(),
{
    let t = s.update(k, v);
    if k == s.len() - 1 {
        assert(t.drop_last() =~= s.drop_last());
    } else {
        assert(t.drop_last() =~= s.drop_last().update(k, v));
        lemma_count_update(s.drop_last(), k, v);
    }
}

/// Conservation of the filled-cell count (the law behind a tick): when every
/// recorded move is legal, no source moves twice and no two moves share a
/// destination, applying the moves preserves the number of filled cells.
/// With the last-write-wins policy, a shared destination instead silently
/// discards the earlier-recorded particle.
pub proof fn lemma_tick_conserves_filled(g: CellMap, m: Seq<CellMove>)
    requires
        g.wf(),
        valid_move_set(g, m),
        forall|i: int, j: int|
            #![trigger m[i], m[j]]
            0 <= i < j < m.len() ==> !(m[i].dx == m[j].dx && m[i].dy == m[j].dy),
    ensures
        filled_count(apply_all(g.grid(), g.spec_columns(), m)) == filled_count(g.grid()),
{
    lemma_apply_conserves(g, m);
}

/// Induction core of [`lemma_tick_conserves_filled`], without the
/// mandatory-fall completeness clause (which an induction on a prefix of the
/// recorded moves cannot keep).
proof fn lemma_apply_conserves(g: CellMap, m: Seq<CellMove>)
    requires
        g.wf(),
        forall|i: int| #![trigger m[i]] 0 <= i < m.len() ==> legal_move(g, m[i]),
        forall|i: int, j: int|
            #![trigger m[i], m[j]]
            0 <= i < j < m.len() ==> !(m[i].sx == m[j].sx && m[i].sy == m[j].sy),
        forall|i: int, j: int|
            #![trigger m[i], m[j]]
            0 <= i < j < m.len() ==> !(m[i].dx == m[j].dx && m[i].dy == m[j].dy),
    ensures
        filled_count(apply_all(g.grid(), g.spec_columns(), m)) == filled_count(g.grid()),
    decreases m.len(),
{
    if m.len() > 0 {
        let cols = g.spec_columns();
        let s = g.grid();
        let mm = m.drop_last();
        let last = m.last();
        assert forall|i: int|
            #![trigger m[i]]
            0 <= i < m.len() implies 0 <= src_index(cols, m[i]) < s.len() && 0 <= dst_index(
            cols,
            m[i],
        ) < s.len() by {
            lemma_rowmajor_bound(m[i].sx as int, m[i].sy as int, cols, g.spec_rows());
            lemma_rowmajor_bound(m[i].dx as int, m[i].dy as int, cols, g.spec_rows());
        }
        assert(moves_in_bounds(s, cols, mm)) by {
            assert forall|i: int| #![trigger mm[i]] 0 <= i < mm.len() implies 0 <= src_index(
                cols,
                mm[i],
            ) < s.len() && 0 <= dst_index(cols, mm[i]) < s.len() by {
                assert(mm[i] == m[i]);
            }
        }
        lemma_apply_conserves(g, mm);
        lemma_apply_len(s, cols, mm);
        lemma_rowmajor_bound(last.sx as int, last.sy as int, cols, g.spec_rows());
        lemma_rowmajor_bound(last.dx as int, last.dy as int, cols, g.spec_rows());
        let ks = src_index(cols, last);
        let kd = dst_index(cols, last);
        assert(s[ks] == CellState::FILLED);
        assert(s[kd] == CellState::EMPTY);
        assert forall|j: int|
            #![trigger mm[j]]
            0 <= j < mm.len() implies src_index(cols, mm[j]) != ks && dst_index(cols, mm[j]) != ks
                && src_index(cols, mm[j]) != kd && dst_index(cols, mm[j]) != kd by {
            assert(mm[j] == m[j]);
            lemma_rowmajor_bound(m[j].sx as int, m[j].sy as int, cols, g.spec_rows());
            lemma_rowmajor_bound(m[j].dx as int, m[j].dy as int, cols, g.spec_rows());
            if src_index(cols, m[j]) == ks {
                lemma_rowmajor_inj(cols, m[j].sx as int, m[j].sy as int, last.sx as int, last.sy as int);
            }
            if dst_index(cols, m[j]) == kd {
                lemma_rowmajor_inj(cols, m[j].dx as int, m[j].dy as int, last.dx as int, last.dy as int);
            }
            assert(s[src_index(cols, m[j])] == CellState::FILLED);
            assert(s[dst_index(cols, m[j])] == CellState::EMPTY);
        }
        let t = apply_all(s, cols, mm);
        lemma_apply_untouched(s, cols, mm, ks);
        lemma_apply_untouched(s, cols, mm, kd);
        assert(ks != kd);
        lemma_count_update(t, ks, CellState::EMPTY);
        lemma_count_update(t.update(ks, CellState::EMPTY), kd, CellState::FILLED);
    }
}

/// One uniformly random bit for the lateral-diffusion rule.
///
/// Relies on macroquad::rand::gen_range (the quad-rand generator): for `u32`
/// bounds `(low, high)` it returns `low + trunc((high - low) * u)` for a
/// draw `u` in `[0, 1)`, so for `(0, 2)` the result is `0` or `1`. The
/// generator is a global one that `macroquad::rand::srand` seeds.
#[verifier::external_body]
fn random_bit() -> (r: u32)
    ensures
        r == 0 || r == 1,
{
    macroquad::rand::gen_range(0u32, 2u32)
}

impl CellMap {
    /// Decides the move of the particle at `(x, y)` against the current grid
    /// as the frozen snapshot of one tick. Straight fall when the cell below
    /// is empty (no randomness consulted); otherwise a first random bit
    /// decides whether to stay, a second picks the diagonal checked first.
    /// Whatever the random bits, any returned move is legal, and a mandatory
    /// straight fall is always returned.
    fn decide_move(&self, x: usize, y: usize) -> (r: Option<CellMove>)
        requires
            self.wf(),
            x < self.spec_columns(),
            y < self.spec_rows(),
        ensures
            match r {
                Some(mv) => legal_move(*self, mv) && mv.sx == x && mv.sy == y,
                None => true,
            },
            must_fall(*self, x as int, y as int) ==> (r matches Some(mv) && is_fall_move(
                mv,
                x as int,
                y as int,
            )),
    {
        match self.cell_at(x, y) {
            CellState::EMPTY => None,
            CellState::FILLED => {
                if y + 1 >= self.rows {
                    // bottom row: no row below, the particle can never move
                    return None;
                }
                let below = y + 1;
                match self.cell_at(x, below) {
                    CellState::EMPTY => Some(CellMove { sx: x, sy: y, dx: x, dy: below }),
                    CellState::FILLED => {
                        let stay = random_bit();
                        if stay == 1 {
                            return None;
                        }
                        let direction = random_bit();
                        if direction == 0 && x > 0 {
                            match self.cell_at(x - 1, below) {
                                CellState::EMPTY => {
                                    return Some(CellMove { sx: x, sy: y, dx: x - 1, dy: below });
                                },
                                CellState::FILLED => {},
                            }
                        }
                        // right diagonal: checked when the direction bit said
                        // right-first, or when the left diagonal was unavailable
                        if x + 1 < self.columns {
                            match self.cell_at(x + 1, below) {
                                CellState::EMPTY => {
                                    return Some(CellMove { sx: x, sy: y, dx: x + 1, dy: below });
                                },
                                CellState::FILLED => {},
                            }
                        }
                        None
                    },
                }
            },
        }
    }

    /// Applies recorded moves in order: each move empties its source, then
    /// fills its destination (last write to a shared destination wins).
    fn apply_moves(&mut self, moves: &Vec<CellMove>)
        requires
            old(self).wf(),
            forall|i: int|
                #![trigger moves@[i]]
                0 <= i < moves@.len() ==> legal_move(*old(self), moves@[i]),
        ensures
            final(self).wf(),
            final(self).spec_columns() == old(self).spec_columns(),
            final(self).spec_rows() == old(self).spec_rows(),
            final(self).spec_cell_width() == old(self).spec_cell_width(),
            final(self).grid() == apply_all(
                old(self).grid(),
                old(self).spec_columns(),
                moves@,
            ),
    {
        let ghost g = *old(self);
        let n = moves.len();
        let mut i: usize = 0;
        while i < n
            invariant
                self.wf(),
                self.spec_columns() == g.spec_columns(),
                self.spec_rows() == g.spec_rows(),
                self.spec_cell_width() == g.spec_cell_width(),
                i <= n,
                n == moves@.len(),
                forall|j: int|
                    #![trigger moves@[j]]
                    0 <= j < moves@.len() ==> legal_move(g, moves@[j]),
                self.grid() == apply_all(g.grid(), g.spec_columns(), moves@.take(i as int)),
            decreases n - i,
        {
            let mv = moves[i];
            let ghost pre = self.grid();
            self.set_at(mv.sx, mv.sy, CellState::EMPTY);
            self.set_at(mv.dx, mv.dy, CellState::FILLED);
            proof {
                let t = moves@.take(i as int + 1);
                assert(t.drop_last() =~= moves@.take(i as int));
                assert(t.last() == moves@[i as int]);
                assert(self.grid() == apply_one(pre, g.spec_columns(), mv));
            }
            i += 1;
        }
        proof {
            assert(moves@.take(n as int) =~= moves@);
        }
    }

    /// Advances the simulation by one discrete tick.
    ///
    /// The whole grid is scanned against a frozen snapshot (rows bottom to
    /// top, columns left to right), a move list is recorded, and the moves
    /// are applied only after the scan, so no particle is read twice or
    /// falls more than one row per tick. Whatever the random draws: the
    /// recorded moves are a valid move set for the snapshot and the new grid
    /// is their application (last write wins on a shared destination); a
    /// particle whose below cell is empty falls straight down; a particle
    /// with nowhere to go stays; particles arrive only from directly above
    /// or the upper diagonals; an empty grid stays empty.
    #[verifier::loop_isolation(false)]
    pub fn process(&mut self)
        requires
            old(self).wf(),
        ensures
            final(self).wf(),
            final(self).spec_columns() == old(self).spec_columns(),
            final(self).spec_rows() == old(self).spec_rows(),
            final(self).spec_cell_width() == old(self).spec_cell_width(),
            exists|m: Seq<CellMove>|
                #[trigger] valid_move_set(*old(self), m) && final(self).grid() == apply_all(
                    old(self).grid(),
                    old(self).spec_columns(),
                    m,
                ),
            forall|x: int, y: int|
                #[trigger] must_fall(*old(self), x, y) ==> final(self).filled(x, y + 1) && !final(self).filled(x, y),
            forall|x: int, y: int|
                old(self).filled(x, y) && !can_move(*old(self), x, y) ==> final(self).filled(x, y),
            forall|x: int, y: int|
                #[trigger] final(self).filled(x, y) ==> old(self).filled(x, y) || old(self).filled(
                    x,
                    y - 1,
                ) || old(self).filled(x - 1, y - 1) || old(self).filled(x + 1, y - 1),
            (forall|x: int, y: int| !old(self).filled(x, y)) ==> final(self).grid() == old(self).grid(),
    {
        let ghost g = *old(self);
        let mut moves: Vec<CellMove> = Vec::new();
        let rows = self.rows;
        let cols = self.columns;
        let mut yy: usize = rows;
        while yy > 0
            invariant
                *self == g,
                yy <= rows,
                scan_inv(g, moves@, 0, yy as int - 1),
            decreases yy,
        {
            yy -= 1;
            let y = yy;
            let mut x: usize = 0;
            while x < cols
                invariant
                    *self == g,
                    x <= cols,
                    scan_inv(g, moves@, x as int, yy as int),
                decreases cols - x,
            {
                let ghost m0 = moves@;
                match self.decide_move(x, y) {
                    Some(mv) => {
                        moves.push(mv);
                        proof {
                            lemma_scan_inv_push(g, m0, mv, x as int, y as int);
                        }
                    },
                    None => {
                        proof {
                            lemma_scan_inv_none(g, m0, x as int, y as int);
                        }
                    },
                }
                x += 1;
            }
            proof {
                lemma_scan_inv_row(g, moves@, yy as int);
            }
        }
        proof {
            lemma_scan_inv_done(g, moves@);
        }
        self.apply_moves(&moves);
        proof {
            lemma_tick_outcome(g, moves@, *self);
        }
    }
}

/// The cell `(cx, cy)` has already been scanned when `(xb, yb)` is the next
/// cell of a scan that goes through rows bottom to top and, within a row,
/// columns left to right.
spec fn scanned_before(xb: int, yb: int, cx: int, cy: int) -> bool {
    cy > yb || (cy == yb && cx < xb)
}

/// Invariant of the tick's scan with `(xb, yb)` the next cell: recorded
/// moves are legal, come from already-scanned sources, no source twice, and
/// every scanned cell that must fall has its fall recorded.
spec fn scan_inv(g: CellMap, m: Seq<CellMove>, xb: int, yb: int) -> bool {
    &&& (forall|i: int| #![trigger m[i]] 0 <= i < m.len() ==> legal_move(g, m[i]))
    &&& (forall|i: int|
        #![trigger m[i]]
        0 <= i < m.len() ==> scanned_before(xb, yb, m[i].sx as int, m[i].sy as int))
    &&& (forall|i: int, j: int|
        #![trigger m[i], m[j]]
        0 <= i < j < m.len() ==> !(m[i].sx == m[j].sx && m[i].sy == m[j].sy))
    &&& (forall|cx: int, cy: int|
        #[trigger] must_fall(g, cx, cy) && scanned_before(xb, yb, cx, cy) ==> exists|i: int|
            0 <= i < m.len() && #[trigger] is_fall_move(m[i], cx, cy))
}

/// Scanning past cell `(x, y)` after recording its move keeps the scan
/// invariant.
proof fn lemma_scan_inv_push(g: CellMap, m0: Seq<CellMove>, mv: CellMove, x: int, y: int)
    requires
        scan_inv(g, m0, x, y),
        legal_move(g, mv),
        mv.sx as int == x,
        mv.sy as int == y,
        must_fall(g, x, y) ==> is_fall_move(mv, x, y),
    ensures
        scan_inv(g, m0.push(mv), x + 1, y),
{
    let m1 = m0.push(mv);
    assert(m1[m0.len() as int] == mv);
    assert forall|i: int| #![trigger m1[i]] 0 <= i < m1.len() implies legal_move(g, m1[i])
        && scanned_before(x + 1, y, m1[i].sx as int, m1[i].sy as int) by {
        if i < m0.len() {
            assert(m1[i] == m0[i]);
        }
    }
    assert forall|i: int, j: int|
        #![trigger m1[i], m1[j]]
        0 <= i < j < m1.len() implies !(m1[i].sx == m1[j].sx && m1[i].sy == m1[j].sy) by {
        if j < m0.len() {
            assert(m1[i] == m0[i] && m1[j] == m0[j]);
        } else {
            assert(m1[i] == m0[i] && m1[j] == mv);
            assert(scanned_before(x, y, m0[i].sx as int, m0[i].sy as int));
        }
    }
    assert forall|cx: int, cy: int|
        #[trigger] must_fall(g, cx, cy) && scanned_before(x + 1, y, cx, cy) implies exists|i: int|
        0 <= i < m1.len() && #[trigger] is_fall_move(m1[i], cx, cy) by {
        if scanned_before(x, y, cx, cy) {
            let i = choose|i: int| 0 <= i < m0.len() && #[trigger] is_fall_move(m0[i], cx, cy);
            assert(m1[i] == m0[i]);
            assert(is_fall_move(m1[i], cx, cy));
        } else {
            assert(cx == x && cy == y);
            assert(is_fall_move(m1[m0.len() as int], cx, cy));
        }
    }
}

/// Scanning past cell `(x, y)` that recorded no move keeps the scan
/// invariant (the cell is then not one that must fall).
proof fn lemma_scan_inv_none(g: CellMap, m: Seq<CellMove>, x: int, y: int)
    requires
        scan_inv(g, m, x, y),
        !must_fall(g, x, y),
    ensures
        scan_inv(g, m, x + 1, y),
{
    assert forall|cx: int, cy: int|
        #[trigger] must_fall(g, cx, cy) && scanned_before(x + 1, y, cx, cy) implies exists|i: int|
        0 <= i < m.len() && #[trigger] is_fall_move(m[i], cx, cy) by {
        assert(scanned_before(x, y, cx, cy));
    }
}

/// Finishing a row: having scanned up to column bound `columns` of row `y`
/// is having scanned up to column 0 of row `y - 1`.
proof fn lemma_scan_inv_row(g: CellMap, m: Seq<CellMove>, y: int)
    requires
        scan_inv(g, m, g.spec_columns(), y),
    ensures
        scan_inv(g, m, 0, y - 1),
{
    assert forall|i: int|
        #![trigger m[i]]
        0 <= i < m.len() implies scanned_before(0, y - 1, m[i].sx as int, m[i].sy as int) by {
        assert(legal_move(g, m[i]));
    }
    assert forall|cx: int, cy: int|
        #[trigger] must_fall(g, cx, cy) && scanned_before(0, y - 1, cx, cy) implies exists|i: int|
        0 <= i < m.len() && #[trigger] is_fall_move(m[i], cx, cy) by {
        assert(g.in_range(cx, cy));
        assert(scanned_before(g.spec_columns(), y, cx, cy));
    }
}

/// A finished scan has recorded a valid move set.
proof fn lemma_scan_inv_done(g: CellMap, m: Seq<CellMove>)
    requires
        scan_inv(g, m, 0, -1),
    ensures
        valid_move_set(g, m),
{
    assert forall|x: int, y: int| #[trigger] must_fall(g, x, y) implies exists|i: int|
        0 <= i < m.len() && #[trigger] is_fall_move(m[i], x, y) by {
        assert(g.in_range(x, y));
        assert(scanned_before(0, -1, x, y));
    }
}

/// What one tick guarantees of the new grid `h`, whatever the random draws:
/// mandatory falls happened, stuck particles stayed, and particles arrived
/// only from the three cells above.
proof fn lemma_tick_outcome(g: CellMap, m: Seq<CellMove>, h: CellMap)
    requires
        g.wf(),
        h.spec_columns() == g.spec_columns(),
        h.spec_rows() == g.spec_rows(),
        valid_move_set(g, m),
        h.grid() == apply_all(g.grid(), g.spec_columns(), m),
    ensures
        forall|x: int, y: int|
            #[trigger] must_fall(g, x, y) ==> h.filled(x, y + 1) && !h.filled(x, y),
        forall|x: int, y: int| g.filled(x, y) && !can_move(g, x, y) ==> h.filled(x, y),
        forall|x: int, y: int|
            #[trigger] h.filled(x, y) ==> g.filled(x, y) || g.filled(x, y - 1) || g.filled(
                x - 1,
                y - 1,
            ) || g.filled(x + 1, y - 1),
        (forall|x: int, y: int| !g.filled(x, y)) ==> h.grid() == g.grid(),
{
    let cols = g.spec_columns();
    let rows = g.spec_rows();
    let s = g.grid();
    assert forall|i: int|
        #![trigger m[i]]
        0 <= i < m.len() implies 0 <= src_index(cols, m[i]) < s.len() && 0 <= dst_index(
        cols,
        m[i],
    ) < s.len() by {
        lemma_rowmajor_bound(m[i].sx as int, m[i].sy as int, cols, rows);
        lemma_rowmajor_bound(m[i].dx as int, m[i].dy as int, cols, rows);
    }
    lemma_apply_len(s, cols, m);
    assert forall|x: int, y: int| #[trigger] must_fall(g, x, y) implies h.filled(x, y + 1)
        && !h.filled(x, y) by {
        let i = choose|i: int| 0 <= i < m.len() && #[trigger] is_fall_move(m[i], x, y);
        lemma_rowmajor_bound(x, y, cols, rows);
        lemma_rowmajor_bound(x, y + 1, cols, rows);
        assert(dst_index(cols, m[i]) == (y + 1) * cols + x);
        assert(src_index(cols, m[i]) == y * cols + x);
        assert forall|j: int|
            #![trigger m[j]]
            0 <= j < m.len() implies src_index(cols, m[j]) != dst_index(cols, m[i]) by {
            assert(s[src_index(cols, m[j])] == CellState::FILLED);
            assert(s[dst_index(cols, m[i])] == CellState::EMPTY);
        }
        lemma_apply_dst_filled(s, cols, m, i);
        assert forall|j: int|
            #![trigger m[j]]
            0 <= j < m.len() && j != i implies src_index(cols, m[j]) != src_index(cols, m[i]) by {
            if src_index(cols, m[j]) == src_index(cols, m[i]) {
                lemma_rowmajor_inj(
                    cols,
                    m[j].sx as int,
                    m[j].sy as int,
                    m[i].sx as int,
                    m[i].sy as int,
                );
            }
        }
        assert forall|j: int|
            #![trigger m[j]]
            0 <= j < m.len() implies dst_index(cols, m[j]) != src_index(cols, m[i]) by {
            assert(s[dst_index(cols, m[j])] == CellState::EMPTY);
            assert(s[src_index(cols, m[i])] == CellState::FILLED);
        }
        lemma_apply_src_empty(s, cols, m, i);
    }
    assert forall|x: int, y: int| g.filled(x, y) && !can_move(g, x, y) implies h.filled(x, y) by {
        lemma_rowmajor_bound(x, y, cols, rows);
        let k = y * cols + x;
        assert forall|j: int|
            #![trigger m[j]]
            0 <= j < m.len() implies src_index(cols, m[j]) != k && dst_index(cols, m[j]) != k by {
            if src_index(cols, m[j]) == k {
                lemma_rowmajor_inj(cols, m[j].sx as int, m[j].sy as int, x, y);
                assert(g.in_range(m[j].dx as int, m[j].dy as int));
                assert(can_move(g, x, y));
            }
            if dst_index(cols, m[j]) == k {
                assert(s[dst_index(cols, m[j])] == CellState::EMPTY);
                assert(s[k] == CellState::FILLED);
            }
        }
        lemma_apply_untouched(s, cols, m, k);
    }
    assert forall|x: int, y: int| #[trigger] h.filled(x, y) implies g.filled(x, y) || g.filled(
        x,
        y - 1,
    ) || g.filled(x - 1, y - 1) || g.filled(x + 1, y - 1) by {
        lemma_rowmajor_bound(x, y, cols, rows);
        lemma_apply_origin(s, cols, m, y * cols + x);
        if s[y * cols + x] == CellState::FILLED {
            assert(g.filled(x, y));
        } else {
            let i = choose|i: int| 0 <= i < m.len() && dst_index(cols, #[trigger] m[i]) == y * cols
                + x;
            lemma_rowmajor_inj(cols, m[i].dx as int, m[i].dy as int, x, y);
            assert(g.filled(m[i].sx as int, m[i].sy as int));
        }
    }
    if forall|x: int, y: int| !g.filled(x, y) {
        if m.len() > 0 {
            assert(legal_move(g, m[0]));
            assert(g.filled(m[0].sx as int, m[0].sy as int));
            assert(!g.filled(m[0].sx as int, m[0].sy as int));
        }
        assert(m.len() == 0);
    }
}

/// One draw record of the renderer: a solid square of side `size` at pixel
/// `(px, py)`, with a red channel of `red_permille / 1000` (green and blue
/// zero, full opacity).
#[derive(Clone, Copy, PartialEq, Eq, Structural, Debug)]
pub struct CellDraw {
    pub px: u32,
    pub py: u32,
    pub size: u32,
    pub red_permille: u32,
}

/// The depth-shaded red channel for a cell of row `y`, in thousandths:
/// `clamp(1 - 0.01*y + 0.5, 0, 1)` scaled by 1000, exactly.
pub open spec fn red_permille_of(y: int) -> int {
    if 1500 - 10 * y > 1000 {
        1000
    } else if 1500 - 10 * y < 0 {
        0
    } else {
        1500 - 10 * y
    }
}

/// The draw record of the filled cell `(x, y)`.
pub open spec fn draw_of(g: CellMap, x: int, y: int) -> CellDraw {
    CellDraw {
        px: (x * g.spec_cell_width()) as u32,
        py: (y * g.spec_cell_width()) as u32,
        size: g.spec_cell_width() as u32,
        red_permille: red_permille_of(y) as u32,
    }
}

/// Draw records of the filled cells among the first `x` cells of row `y`,
/// left to right.
pub open spec fn draw_row_upto(g: CellMap, y: int, x: int) -> Seq<CellDraw>
    decreases x,
{
    if x <= 0 {
        Seq::empty()
    } else {
        draw_row_upto(g, y, x - 1) + if g.cell(x - 1, y) == CellState::FILLED {
            seq![draw_of(g, x - 1, y)]
        } else {
            Seq::empty()
        }
    }
}

/// Draw records of the filled cells of the first `y` rows, top to bottom.
pub open spec fn draw_rows_upto(g: CellMap, y: int) -> Seq<CellDraw>
    decreases y,
{
    if y <= 0 {
        Seq::empty()
    } else {
        draw_rows_upto(g, y - 1) + draw_row_upto(g, y - 1, g.spec_columns())
    }
}

/// All draw records of a grid: one per filled cell, in row-major order.
pub open spec fn draw_records(g: CellMap) -> Seq<CellDraw> {
    draw_rows_upto(g, g.spec_rows())
}

/// Multiplying by a nonnegative factor is monotone.
proof fn lemma_mul_le(a: int, b: int, c: int)
    requires
        a <= b,
        c >= 0,
    ensures
        a * c <= b * c,
{
    assert(a * c <= b * c) by (nonlinear_arith)
        requires
            a <= b,
            c >= 0,
    ;
}

impl CellMap {
    /// The pixel-space draw records of every `FILLED` cell, in row-major
    /// order: one solid square per particle, shaded darker with depth.
    pub fn draw_cells(&self) -> (r: Vec<CellDraw>)
        requires
            self.wf(),
        ensures
            r@ == draw_records(*self),
    {
        let mut out: Vec<CellDraw> = Vec::new();
        let cols = self.columns;
        let rows = self.rows;
        let cw = self.cell_width;
        let mut y: usize = 0;
        while y < rows
            invariant
                self.wf(),
                cols == self.columns,
                rows == self.rows,
                cw == self.cell_width,
                y <= rows,
                out@ == draw_rows_upto(*self, y as int),
            decreases rows - y,
        {
            let mut x: usize = 0;
            while x < cols
                invariant
                    self.wf(),
                    cols == self.columns,
                    rows == self.rows,
                    cw == self.cell_width,
                    y < rows,
                    x <= cols,
                    out@ == draw_rows_upto(*self, y as int) + draw_row_upto(
                        *self,
                        y as int,
                        x as int,
                    ),
                decreases cols - x,
            {
                let ghost pre = out@;
                match self.cell_at(x, y) {
                    CellState::FILLED => {
                        proof {
                            lemma_mul_le(x as int, cols as int, cw as int);
                            lemma_mul_le(y as int, rows as int, cw as int);
                            assert(x as int * cw as int <= u32::MAX);
                            assert(y as int * cw as int <= u32::MAX);
                        }
                        let px = (x * (cw as usize)) as u32;
                        let py = (y * (cw as usize)) as u32;
                        let red: u32 = if y >= 150 {
                            0
                        } else {
                            let v = 1500 - 10 * (y as u32);
                            if v > 1000 {
                                1000
                            } else {
                                v
                            }
                        };
                        out.push(CellDraw { px, py, size: cw, red_permille: red });
                        proof {
                            assert(out@.last() == draw_of(*self, x as int, y as int));
                        }
                    },
                    CellState::EMPTY => {},
                }
                proof {
                    assert(out@ =~= draw_rows_upto(*self, y as int) + draw_row_upto(
                        *self,
                        y as int,
                        x as int + 1,
                    ));
                }
                x += 1;
            }
            proof {
                assert(out@ =~= draw_rows_upto(*self, y as int + 1));
            }
            y += 1;
        }
        out
    }

    /// The number of `FILLED` cells in the grid.
    pub fn count_filled(&self) -> (r: usize)
        requires
            self.wf(),
        ensures
            r == filled_count(self.grid()),
    {
        let mut count: usize = 0;
        let n = self.cells.len();
        let mut i: usize = 0;
        while i < n
            invariant
                i <= n,
                n == self.cells@.len(),
                count <= i,
                count == filled_count(self.grid().take(i as int)),
            decreases n - i,
        {
            match self.cells[i] {
                CellState::FILLED => {
                    count += 1;
                },
                CellState::EMPTY => {},
            }
            proof {
                assert(self.grid().take(i as int + 1).drop_last() =~= self.grid().take(i as int));
                assert(self.grid().take(i as int + 1).last() == self.grid()[i as int]);
            }
            i += 1;
        }
        proof {
            assert(self.grid().take(n as int) =~= self.grid());
        }
        count
    }
}

/// One glow record of the ambient-light overlay: a translucent square of
/// side `size` at pixel `(px, py)` for the empty cell of row `row`, at
/// squared cell distance `dist_sq` from the filled cell that casts it. The
/// renderer derives the falloff `clamp(1 - sqrt(dist_sq)/3, 0, 1)` and the
/// depth-shaded red channel from `row` and `dist_sq`.
#[derive(Clone, Copy, PartialEq, Eq, Structural, Debug)]
pub struct GlowDraw {
    pub px: u32,
    pub py: u32,
    pub size: u32,
    pub row: u32,
    pub dist_sq: u32,
}

/// The glow record cast on the empty cell `(xa, ya)`.
pub open spec fn glow_of(g: CellMap, xa: int, ya: int, dist_sq: int) -> GlowDraw {
    GlowDraw {
        px: (xa * g.spec_cell_width()) as u32,
        py: (ya * g.spec_cell_width()) as u32,
        size: g.spec_cell_width() as u32,
        row: ya as u32,
        dist_sq: dist_sq as u32,
    }
}

/// Glow records cast by the filled cell `(x, y)` on the first `k` of the 49
/// offsets of its radius-3 neighborhood, scanned row by row: offset `k`
/// addresses the neighbor `(x + k%7 - 3, y + k/7 - 3)`, which casts a glow
/// when it is in range and `EMPTY`.
pub open spec fn glow_cell_upto(g: CellMap, x: int, y: int, k: int) -> Seq<GlowDraw>
    decreases k,
{
    if k <= 0 {
        Seq::empty()
    } else {
        let dxo = (k - 1) % 7;
        let dyo = (k - 1) / 7;
        let xa = x + dxo - 3;
        let ya = y + dyo - 3;
        glow_cell_upto(g, x, y, k - 1) + if g.in_range(xa, ya) && g.cell(xa, ya)
            == CellState::EMPTY {
            seq![glow_of(g, xa, ya, (dxo - 3) * (dxo - 3) + (dyo - 3) * (dyo - 3))]
        } else {
            Seq::empty()
        }
    }
}

/// Glow records cast by the filled cells among the first `x` cells of row
/// `y`, left to right.
pub open spec fn glow_row_upto(g: CellMap, y: int, x: int) -> Seq<GlowDraw>
    decreases x,
{
    if x <= 0 {
        Seq::empty()
    } else {
        glow_row_upto(g, y, x - 1) + if g.cell(x - 1, y) == CellState::FILLED {
            glow_cell_upto(g, x - 1, y, 49)
        } else {
            Seq::empty()
        }
    }
}

/// Glow records of the rows from the bottom row down to row `y`, in the
/// overlay's scan order (bottom row first).
pub open spec fn glow_rows_down_to(g: CellMap, y: int) -> Seq<GlowDraw>
    decreases g.spec_rows() - y,
{
    if y >= g.spec_rows() || g.spec_rows() - y < 0 {
        Seq::empty()
    } else {
        glow_rows_down_to(g, y + 1) + glow_row_upto(g, y, g.spec_columns())
    }
}

/// All glow records of a grid, in the order the overlay draws them: rows
/// bottom to top, columns left to right, the 49 neighborhood offsets row by
/// row. An empty cell near several particles is recorded once per particle;
/// later records simply overpaint earlier ones.
pub open spec fn glow_records(g: CellMap) -> Seq<GlowDraw> {
    glow_rows_down_to(g, 0)
}

impl CellMap {
    /// The ambient-light overlay as a pure query: for every `FILLED` cell,
    /// one glow record per `EMPTY` in-range cell of its radius-3
    /// neighborhood (offsets whose distance exceeds the radius are recorded
    /// too; their falloff clamps to zero). Grid state is not touched.
    pub fn add_light(&self) -> (r: Vec<GlowDraw>)
        requires
            self.wf(),
        ensures
            r@ == glow_records(*self),
    {
        let mut out: Vec<GlowDraw> = Vec::new();
        let cols = self.columns;
        let rows = self.rows;
        let cw = self.cell_width;
        let mut yy: usize = rows;
        while yy > 0
            invariant
                self.wf(),
                cols == self.columns,
                rows == self.rows,
                cw == self.cell_width,
                yy <= rows,
                out@ == glow_rows_down_to(*self, yy as int),
            decreases yy,
        {
            yy -= 1;
            let y = yy;
            let mut x: usize = 0;
            while x < cols
                invariant
                    self.wf(),
                    cols == self.columns,
                    rows == self.rows,
                    cw == self.cell_width,
                    y == yy,
                    y < rows,
                    x <= cols,
                    out@ == glow_rows_down_to(*self, y as int + 1) + glow_row_upto(
                        *self,
                        y as int,
                        x as int,
                    ),
                decreases cols - x,
            {
                match self.cell_at(x, y) {
                    CellState::FILLED => {
                        let mut k: usize = 0;
                        while k < 49
                            invariant
                                self.wf(),
                                cols == self.columns,
                                rows == self.rows,
                                cw == self.cell_width,
                                y == yy,
                                y < rows,
                                x < cols,
                                k <= 49,
                                out@ == glow_rows_down_to(*self, y as int + 1) + glow_row_upto(
                                    *self,
                                    y as int,
                                    x as int,
                                ) + glow_cell_upto(*self, x as int, y as int, k as int),
                            decreases 49 - k,
                        {
                            let dxo = k % 7;
                            let dyo = k / 7;
                            proof {
                                lemma_mul_le(1, cw as int, cols as int);
                                lemma_mul_le(1, cw as int, rows as int);
                                assert(cols <= u32::MAX && rows <= u32::MAX);
                                assert(dxo < 7);
                                assert(dyo as int <= 6) by (nonlinear_arith)
                                    requires
                                        k as int <= 48,
                                        dyo as int == k as int / 7,
                                ;
                            }
                            let xa_i = x as i64 + dxo as i64 - 3;
                            let ya_i = y as i64 + dyo as i64 - 3;
                            if xa_i >= 0 && ya_i >= 0 && xa_i < cols as i64 && ya_i < rows as i64 {
                                let xa = xa_i as usize;
                                let ya = ya_i as usize;
                                match self.cell_at(xa, ya) {
                                    CellState::EMPTY => {
                                        proof {
                                            lemma_mul_le(xa as int, cols as int, cw as int);
                                            lemma_mul_le(ya as int, rows as int, cw as int);
                                            assert(xa as int * cw as int <= u32::MAX);
                                            assert(ya as int * cw as int <= u32::MAX);
                                        }
                                        let px = (xa * (cw as usize)) as u32;
                                        let py = (ya * (cw as usize)) as u32;
                                        let d1 = dxo as i64 - 3;
                                        let d2 = dyo as i64 - 3;
                                        proof {
                                            assert(0 <= d1 as int * d1 as int + d2 as int * d2
                                                as int <= 18 && d1 as int * d1 as int >= 0 && d2
                                                as int * d2 as int >= 0) by (nonlinear_arith)
                                                requires
                                                    -3 <= d1 as int <= 3,
                                                    -3 <= d2 as int <= 3,
                                            ;
                                        }
                                        let dist_sq = (d1 * d1 + d2 * d2) as u32;
                                        out.push(
                                            GlowDraw {
                                                px,
                                                py,
                                                size: cw,
                                                row: ya as u32,
                                                dist_sq,
                                            },
                                        );
                                        proof {
                                            assert(out@.last() == glow_of(
                                                *self,
                                                xa as int,
                                                ya as int,
                                                (dxo as int - 3) * (dxo as int - 3) + (dyo as int
                                                    - 3) * (dyo as int - 3),
                                            ));
                                        }
                                    },
                                    CellState::FILLED => {},
                                }
                            }
                            proof {
                                assert(out@ =~= glow_rows_down_to(*self, y as int + 1)
                                    + glow_row_upto(*self, y as int, x as int) + glow_cell_upto(
                                    *self,
                                    x as int,
                                    y as int,
                                    k as int + 1,
                                ));
                            }
                            k += 1;
                        }
                        proof {
                            assert(out@ =~= glow_rows_down_to(*self, y as int + 1)
                                + glow_row_upto(*self, y as int, x as int + 1));
                        }
                    },
                    CellState::EMPTY => {
                        proof {
                            assert(out@ =~= glow_rows_down_to(*self, y as int + 1)
                                + glow_row_upto(*self, y as int, x as int + 1));
                        }
                    },
                }
                x += 1;
            }
            proof {
                assert(out@ =~= glow_rows_down_to(*self, y as int));
            }
        }
        out
    }
}


} // verus!
