use vstd::arithmetic::div_mod::lemma_div_is_ordered;
use vstd::arithmetic::div_mod::lemma_div_multiples_vanish;
use vstd::arithmetic::div_mod::lemma_div_pos_is_pos;
use vstd::prelude::*;

use crate::fixel::DEN_LIMIT;
use crate::fixel::Fixel;
use crate::fixel::MAX_RESOLUTION;
use crate::fixel::OFFSET_LIMIT;
use crate::fixel::Sample;
use crate::fixel::ScalarField;
use crate::fixel::Sign;
use crate::fixel::WINDOW_NUM_LIMIT;
use crate::fixel::dest_col;
use crate::grid::grid_cells;
use crate::grid::grid_dims;
use crate::grid::grid_filled;
use crate::grid::grid_get;
use crate::grid::grid_get_flat;
use crate::grid::grid_set;
use crate::grid::grid_set_flat;
use crate::partition::MAX_WORKERS;
use crate::partition::slice;
use crate::partition::slice_hi;
use crate::partition::slice_lo;
use crate::pixel::Pixel;
use crate::pixel::background;
use crate::pixel::color_of;
use crate::pixel::spec_background;
use crate::pixel::spec_color_of;
use crate::threads::DrawingApp;
use crate::threads::depth_step;

verus! {

/// The full domain rendered by the pool, in millionths of a domain unit.
pub const WINDOW_X_START: i64 = -6_000_000;

pub const WINDOW_X_END: i64 = 6_000_000;

pub const WINDOW_Y_START: i64 = -6_000_000;

pub const WINDOW_Y_END: i64 = 6_000_000;

/// Window numerator units per domain unit, before the worker-count
/// denominator is applied.
pub const DOMAIN_SCALE: u64 = 1_000_000;

/// The cap on every worker's refinement depth.
pub const MAX_TARGET_DEPTH: u32 = 16;

/// The refinement depth a fresh worker starts just below, so the first
/// frames are already partially refined.
pub const INITIAL_DEPTH: u32 = 4;

/// A point of the domain as exact numerators over a worker's denominator.
#[derive(Clone, Copy, PartialEq, Eq, Structural, Debug)]
pub struct Point {
    pub x: i64,
    pub y: i64,
}

/// A sample scalar field: the signed distance from the circle of radius four
/// around the origin, evaluated exactly on the integer numerators.
#[derive(Clone, Copy, PartialEq, Eq, Structural, Debug)]
pub struct CircleField;

impl ScalarField for CircleField {
    fn new_field() -> Self {
        CircleField
    }

    fn eval(&self, x_num: i64, y_num: i64, den: u64) -> Sign {
        let x = x_num as i128;
        let y = y_num as i128;
        let r = 4i128 * (den as i128);
        proof {
            assert(x * x + y * y < 0x8000_0000_0000_0000_0000_0000_0000_0000int && x * x >= 0 && y
                * y >= 0 && r * r < 0x8000_0000_0000_0000_0000_0000_0000_0000int && r * r >= 0)
                by (nonlinear_arith)
                requires
                    -0x2000_0000_0000_0000 <= x <= 0x2000_0000_0000_0000,
                    -0x2000_0000_0000_0000 <= y <= 0x2000_0000_0000_0000,
                    0 <= r <= 0x4_0000_0000_0000,
            ;
        }
        let lhs = x * x + y * y;
        let rhs = r * r;
        if lhs == rhs {
            Sign::Zero
        } else if lhs > rhs {
            Sign::Positive
        } else {
            Sign::Negative
        }
    }
}

/// Every probe of a cell sits inside a window of extent `w` by `h`.
pub open spec fn probes_in_window(s: Seq<Sample>, w: int, h: int) -> bool {
    forall|j: int| 0 <= j < s.len() ==> (#[trigger] s[j]).dx <= w && s[j].dy <= h
}

/// The lower offset of cell `k` out of `n` along an axis of extent `extent`:
/// the exact integer floor of `extent * k / n`.
pub open spec fn cell_lo(extent: int, k: int, n: int) -> int {
    extent * k / n
}

/// One worker's drawing state: an exclusive horizontal slice of the domain,
/// a grid of cells accumulating probes of the scalar field, and the
/// refinement schedule.
pub struct Equart<F: ScalarField> {
    pub field: F,
    pub window_start: Point,
    pub window_end: Point,
    /// The exact denominator of all window numerators: the worker count
    /// times `DOMAIN_SCALE`.
    pub den: u64,
    pub fixels: array2d::Array2D<Fixel>,
    pub nx: usize,
    pub ny: usize,
    pub max_target_depth: u32,
    pub min_achived_depth: u32,
}

impl<F: ScalarField> Equart<F> {
    /// The window's horizontal extent, as an exact numerator.
    pub open spec fn width(self) -> int {
        self.window_end.x - self.window_start.x
    }

    pub open spec fn height(self) -> int {
        self.window_end.y - self.window_start.y
    }

    /// The grid's cells, row-major: cell `(x, y)` sits at `x * ny + y`.
    pub open spec fn cells(self) -> Seq<Fixel> {
        grid_cells(self.fixels)
    }

    pub open spec fn cell_at(self, x: int, y: int) -> Fixel {
        self.cells()[x * self.ny + y]
    }

    pub open spec fn wf(self) -> bool {
        &&& 1 <= self.nx <= MAX_RESOLUTION
        &&& 1 <= self.ny <= MAX_RESOLUTION
        &&& 1 <= self.width() <= OFFSET_LIMIT
        &&& 1 <= self.height() <= OFFSET_LIMIT
        &&& -WINDOW_NUM_LIMIT <= self.window_start.x <= WINDOW_NUM_LIMIT
        &&& -WINDOW_NUM_LIMIT <= self.window_start.y <= WINDOW_NUM_LIMIT
        &&& DOMAIN_SCALE <= self.den <= DEN_LIMIT
        &&& grid_dims(self.fixels) == (self.nx as int, self.ny as int)
        &&& self.cells().len() == self.nx * self.ny
        &&& forall|i: int| 0 <= i < self.cells().len() ==> (#[trigger] self.cells()[i]).wf()
        &&& forall|i: int|
            0 <= i < self.cells().len() ==> probes_in_window(
                (#[trigger] self.cells()[i]).probes@,
                self.width(),
                self.height(),
            )
        &&& self.min_achived_depth <= self.max_target_depth
    }

    /// The color the worker currently paints pixel `(x, y)` with: the color
    /// of the cell's classification, or the background outside the grid.
    pub open spec fn spec_cell_color(self, x: int, y: int) -> Pixel {
        if 0 <= x < self.nx && 0 <= y < self.ny {
            spec_color_of(self.cell_at(x, y).root, self.cell_at(x, y).mood)
        } else {
            spec_background()
        }
    }

    /// A worker's state for slice `id` out of `max_id`, over a grid of `x`
    /// by `y` cells: the vertical window is the exact partition slice, every
    /// cell starts empty, and the refinement schedule starts at the initial
    /// depth.
    pub fn with_field(field: F, id: usize, max_id: usize, x: u32, y: u32) -> (r: Self)
        requires
            1 <= max_id <= MAX_WORKERS,
            id < max_id,
            1 <= x <= MAX_RESOLUTION as u32,
            1 <= y <= MAX_RESOLUTION as u32,
        ensures
            r.wf(),
            r.nx == x,
            r.ny == y,
            r.min_achived_depth == INITIAL_DEPTH,
            r.max_target_depth == MAX_TARGET_DEPTH,
            forall|i: int|
                0 <= i < r.cells().len() ==> (#[trigger] r.cells()[i]).probes@.len() == 0,
            r.window_start.x == WINDOW_X_START * max_id,
            r.window_end.x == WINDOW_X_END * max_id,
            r.window_start.y == slice_lo(
                WINDOW_Y_START as int,
                WINDOW_Y_END as int,
                id as int,
                max_id as int,
            ),
            r.window_end.y == slice_hi(
                WINDOW_Y_START as int,
                WINDOW_Y_END as int,
                id as int,
                max_id as int,
            ),
            r.den == max_id * DOMAIN_SCALE,
    {
        let sl = slice(WINDOW_Y_START, WINDOW_Y_END, id, max_id);
        let n = max_id as i64;
        proof {
            assert((WINDOW_X_START as int) * n >= -0x1000_0000_0000_0000 && (WINDOW_X_END as int)
                * n <= 0x1000_0000_0000_0000 && (WINDOW_X_END as int) * n - (WINDOW_X_START as int)
                * n == 12_000_000 * n && 12_000_000 * n <= OFFSET_LIMIT as int) by (nonlinear_arith)
                requires
                    1 <= n <= MAX_WORKERS as int,
            ;
            assert(slice_lo(
                WINDOW_Y_START as int,
                WINDOW_Y_END as int,
                id as int,
                max_id as int,
            ) >= -0x1000_0000_0000_0000 && slice_lo(
                WINDOW_Y_START as int,
                WINDOW_Y_END as int,
                id as int,
                max_id as int,
            ) <= 0x1000_0000_0000_0000) by (nonlinear_arith)
                requires
                    1 <= max_id as int <= MAX_WORKERS as int,
                    0 <= id as int,
                    (id as int) < (max_id as int),
            ;
            assert((x as int) * (y as int) <= 0x10000000) by (nonlinear_arith)
                requires
                    0 <= x as int <= MAX_RESOLUTION as int,
                    0 <= y as int <= MAX_RESOLUTION as int,
            ;
            assert((max_id as int) * (DOMAIN_SCALE as int) <= DEN_LIMIT as int && (max_id as int)
                * (DOMAIN_SCALE as int) >= DOMAIN_SCALE as int) by (nonlinear_arith)
                requires
                    1 <= max_id as int <= MAX_WORKERS as int,
            ;
        }
        let window_start = Point { x: WINDOW_X_START * n, y: sl.0 };
        let window_end = Point { x: WINDOW_X_END * n, y: sl.1 };
        let fixels = grid_filled(Fixel::new(), x as usize, y as usize);
        Equart {
            field,
            window_start,
            window_end,
            den: (max_id as u64) * DOMAIN_SCALE,
            fixels,
            nx: x as usize,
            ny: y as usize,
            max_target_depth: MAX_TARGET_DEPTH,
            min_achived_depth: INITIAL_DEPTH,
        }
    }

    /// The color of pixel `(x, y)` from the cell's cached classification.
    pub fn cell_color(&self, x: u32, y: u32) -> (p: Pixel)
        requires
            self.wf(),
        ensures
            p == self.spec_cell_color(x as int, y as int),
    {
        match grid_get(&self.fixels, x as usize, y as usize) {
            Some(c) => {
                proof {
                    lemma_cell_index(x as int, y as int, self.nx as int, self.ny as int);
                }
                color_of(c.root_type(), c.mood)
            },
            None => background(),
        }
    }

    /// The window of cell `(x, y)` as offsets from the window corner: the
    /// exact quarters of the extents under the current resolution.
    pub fn pixel2fixel(&self, x: usize, y: usize) -> (r: (u64, u64, u64, u64))
        requires
            1 <= self.nx <= MAX_RESOLUTION,
            1 <= self.ny <= MAX_RESOLUTION,
            1 <= self.width() <= OFFSET_LIMIT,
            1 <= self.height() <= OFFSET_LIMIT,
            x < self.nx,
            y < self.ny,
        ensures
            r.0 == cell_lo(self.width(), x as int, self.nx as int),
            r.1 == cell_lo(self.height(), y as int, self.ny as int),
            r.2 == cell_lo(self.width(), x as int + 1, self.nx as int),
            r.3 == cell_lo(self.height(), y as int + 1, self.ny as int),
            r.0 <= r.2 <= self.width(),
            r.1 <= r.3 <= self.height(),
    {
        let w = (self.window_end.x - self.window_start.x) as u64;
        let h = (self.window_end.y - self.window_start.y) as u64;
        proof {
            lemma_cell_bounds(w as int, x as int, self.nx as int);
            lemma_cell_bounds(h as int, y as int, self.ny as int);
        }
        let sx = w * (x as u64) / (self.nx as u64);
        let ex = w * ((x as u64) + 1) / (self.nx as u64);
        let sy = h * (y as u64) / (self.ny as u64);
        let ey = h * ((y as u64) + 1) / (self.ny as u64);
        (sx, sy, ex, ey)
    }
}

/// All probes of a row-major prefix of cells, in cell order.
pub open spec fn samples_of(cells: Seq<Fixel>) -> Seq<Sample>
    decreases cells.len(),
{
    if cells.len() == 0 {
        Seq::empty()
    } else {
        samples_of(cells.drop_last()) + cells.last().probes@
    }
}

/// A probe's destination cell under a new grid geometry is `(cx, cy)`.
pub open spec fn lands_at(s: Sample, w: int, h: int, nx: int, ny: int, cx: int, cy: int) -> bool {
    dest_col(s.dx as int, w, nx) == cx && dest_col(s.dy as int, h, ny) == cy
}

/// The predicate selecting the probes that land in cell `(cx, cy)`.
pub open spec fn lands_pred(w: int, h: int, nx: int, ny: int, cx: int, cy: int) -> spec_fn(
    Sample,
) -> bool {
    |s: Sample| lands_at(s, w, h, nx, ny, cx, cy)
}

/// One cell after a refinement pass at depth `d`: the old probes stay as a
/// prefix, the new probes sit at the cell's midpoint inside the cell window
/// `[sx, ex] x [sy, ey]`, and the cached classification is fresh.
pub open spec fn cell_refined(oldc: Fixel, newc: Fixel, sx: int, sy: int, ex: int, ey: int, d: int) -> bool {
    &&& newc.wf()
    &&& newc.depth == (if oldc.depth >= d {
        oldc.depth as int
    } else {
        d
    })
    &&& newc.probes@.len() == oldc.probes@.len() + (if oldc.depth >= d {
        0int
    } else {
        d - oldc.depth
    })
    &&& newc.probes@.take(oldc.probes@.len() as int) == oldc.probes@
    &&& forall|k: int|
        oldc.probes@.len() <= k < newc.probes@.len() ==> {
            &&& (#[trigger] newc.probes@[k]).dx == sx + (ex - sx) / 2
            &&& newc.probes@[k].dy == sy + (ey - sy) / 2
            &&& sx <= newc.probes@[k].dx <= ex
            &&& sy <= newc.probes@[k].dy <= ey
        }
}

/// Filtering a sequence extended by one element keeps the old selection and
/// appends the element exactly when the predicate holds of it.
proof fn lemma_filter_push(s: Seq<Sample>, pred: spec_fn(Sample) -> bool, x: Sample)
    ensures
        s.push(x).filter(pred) == s.filter(pred) + (if pred(x) {
            seq![x]
        } else {
            Seq::<Sample>::empty()
        }),
{
    reveal_with_fuel(Seq::filter, 3);
    assert(s.push(x).drop_last() =~= s);
    assert(s.push(x).last() == x);
    assert(s.push(x).len() == s.len() + 1);
    if pred(x) {
        assert(s.push(x).filter(pred) == s.filter(pred).push(x));
        assert(s.filter(pred).push(x) =~= s.filter(pred) + seq![x]);
    } else {
        assert(s.push(x).filter(pred) == s.filter(pred));
        assert(s.filter(pred) =~= s.filter(pred) + Seq::<Sample>::empty());
    }
}

impl<F: ScalarField> Equart<F> {
    /// One progressive refinement pass: if the depth cap is not reached yet,
    /// the target depth advances by exactly one and every cell is brought to
    /// it; at the cap the grid is left untouched and the frame only redraws.
    pub fn advance_frame(&mut self)
        requires
            old(self).wf(),
        ensures
            final(self).wf(),
            final(self).nx == old(self).nx,
            final(self).ny == old(self).ny,
            final(self).window_start == old(self).window_start,
            final(self).window_end == old(self).window_end,
            final(self).den == old(self).den,
            final(self).field == old(self).field,
            final(self).max_target_depth == old(self).max_target_depth,
            final(self).min_achived_depth == depth_step(
                old(self).min_achived_depth as int,
                old(self).max_target_depth as int,
            ),
            old(self).min_achived_depth >= old(self).max_target_depth ==> final(self).cells()
                == old(self).cells(),
            old(self).min_achived_depth < old(self).max_target_depth ==> forall|a: int, b: int|
                0 <= a < old(self).nx && 0 <= b < old(self).ny ==> cell_refined(
                    old(self).cell_at(a, b),
                    #[trigger] final(self).cell_at(a, b),
                    cell_lo(old(self).width(), a, old(self).nx as int),
                    cell_lo(old(self).height(), b, old(self).ny as int),
                    cell_lo(old(self).width(), a + 1, old(self).nx as int),
                    cell_lo(old(self).height(), b + 1, old(self).ny as int),
                    old(self).min_achived_depth + 1,
                ),
    {
        if self.min_achived_depth >= self.max_target_depth {
            return ;
        }
        self.min_achived_depth = self.min_achived_depth + 1;
        let ghost orig = self.cells();
        let ghost w_s = self.width();
        let ghost h_s = self.height();
        let depth = self.min_achived_depth;
        let mut x: usize = 0;
        while x < self.nx
            invariant
                self.nx == old(self).nx,
                self.ny == old(self).ny,
                self.window_start == old(self).window_start,
                self.window_end == old(self).window_end,
                self.den == old(self).den,
                self.field == old(self).field,
                self.max_target_depth == old(self).max_target_depth,
                self.min_achived_depth == old(self).min_achived_depth + 1,
                self.min_achived_depth <= self.max_target_depth,
                depth == self.min_achived_depth,
                orig == old(self).cells(),
                w_s == self.width(),
                h_s == self.height(),
                old(self).wf(),
                x <= self.nx,
                grid_dims(self.fixels) == (self.nx as int, self.ny as int),
                self.cells().len() == orig.len(),
                orig.len() == self.nx * self.ny,
                forall|a: int, b: int|
                    0 <= a < self.nx && 0 <= b < self.ny && a * self.ny + b < x * self.ny ==> {
                        &&& cell_refined(
                            orig[a * self.ny + b],
                            #[trigger] self.cells()[a * self.ny + b],
                            cell_lo(w_s, a, self.nx as int),
                            cell_lo(h_s, b, self.ny as int),
                            cell_lo(w_s, a + 1, self.nx as int),
                            cell_lo(h_s, b + 1, self.ny as int),
                            depth as int,
                        )
                        &&& probes_in_window(self.cells()[a * self.ny + b].probes@, w_s, h_s)
                    },
                forall|i: int|
                    x * self.ny <= i < orig.len() ==> #[trigger] self.cells()[i] == orig[i],
            decreases self.nx - x,
        {
            let mut y: usize = 0;
            while y < self.ny
                invariant
                    self.nx == old(self).nx,
                    self.ny == old(self).ny,
                    self.window_start == old(self).window_start,
                    self.window_end == old(self).window_end,
                    self.den == old(self).den,
                    self.field == old(self).field,
                    self.max_target_depth == old(self).max_target_depth,
                    self.min_achived_depth == old(self).min_achived_depth + 1,
                    self.min_achived_depth <= self.max_target_depth,
                    depth == self.min_achived_depth,
                    orig == old(self).cells(),
                    w_s == self.width(),
                    h_s == self.height(),
                    old(self).wf(),
                    x < self.nx,
                    y <= self.ny,
                    grid_dims(self.fixels) == (self.nx as int, self.ny as int),
                    self.cells().len() == orig.len(),
                    orig.len() == self.nx * self.ny,
                    forall|a: int, b: int|
                        0 <= a < self.nx && 0 <= b < self.ny && a * self.ny + b < x * self.ny
                            + y ==> {
                            &&& cell_refined(
                                orig[a * self.ny + b],
                                #[trigger] self.cells()[a * self.ny + b],
                                cell_lo(w_s, a, self.nx as int),
                                cell_lo(h_s, b, self.ny as int),
                                cell_lo(w_s, a + 1, self.nx as int),
                                cell_lo(h_s, b + 1, self.ny as int),
                                depth as int,
                            )
                            &&& probes_in_window(self.cells()[a * self.ny + b].probes@, w_s, h_s)
                        },
                    forall|i: int|
                        x * self.ny + y <= i < orig.len() ==> #[trigger] self.cells()[i]
                            == orig[i],
                decreases self.ny - y,
            {
                proof {
                    lemma_cell_index(x as int, y as int, self.nx as int, self.ny as int);
                }
                let (sx, sy, ex, ey) = self.pixel2fixel(x, y);
                let ox = self.window_start.x;
                let oy = self.window_start.y;
                let den = self.den;
                let ghost before = self.cells();
                match grid_get(&self.fixels, x, y) {
                    Some(c) => {
                        let mut c2 = c.duplicate();
                        proof {
                            assert(before[x as int * self.ny + y as int] == orig[x as int * self.ny
                                + y as int]);
                            assert(c2.wf());
                        }
                        c2.add_samples(&self.field, ox, oy, den, sx, sy, ex, ey, depth);
                        let _ok = grid_set(&mut self.fixels, x, y, c2);
                        proof {
                            let idx0 = x as int * self.ny + y as int;
                            assert(self.cells() == before.update(idx0, c2));
                            assert forall|a: int, b: int|
                                0 <= a < self.nx && 0 <= b < self.ny && a * self.ny + b < x
                                    as int * self.ny + y + 1 implies {
                                &&& cell_refined(
                                    orig[a * self.ny + b],
                                    #[trigger] self.cells()[a * self.ny + b],
                                    cell_lo(w_s, a, self.nx as int),
                                    cell_lo(h_s, b, self.ny as int),
                                    cell_lo(w_s, a + 1, self.nx as int),
                                    cell_lo(h_s, b + 1, self.ny as int),
                                    depth as int,
                                )
                                &&& probes_in_window(
                                    self.cells()[a * self.ny + b].probes@,
                                    w_s,
                                    h_s,
                                )
                            } by {
                                lemma_cell_index(a, b, self.nx as int, self.ny as int);
                                if a == x as int && b == y as int {
                                    assert(self.cells()[idx0] == c2);
                                    assert(probes_in_window(orig[idx0].probes@, w_s, h_s));
                                    let n0 = orig[idx0].probes@.len() as int;
                                    assert forall|j: int|
                                        0 <= j < c2.probes@.len() implies (
                                    #[trigger] c2.probes@[j]).dx <= w_s && c2.probes@[j].dy
                                        <= h_s by {
                                        if j < n0 {
                                            assert(c2.probes@[j] == c2.probes@.take(n0)[j]);
                                            assert(orig[idx0].probes@[j].dx <= w_s);
                                        }
                                    }
                                } else {
                                    lemma_cell_index_injective(
                                        a,
                                        b,
                                        x as int,
                                        y as int,
                                        self.nx as int,
                                        self.ny as int,
                                    );
                                    assert(a * self.ny + b < x as int * self.ny + y as int)
                                        by (nonlinear_arith)
                                        requires
                                            0 <= a,
                                            0 <= b < self.ny as int,
                                            0 <= y as int,
                                            (y as int) < (self.ny as int),
                                            a * self.ny + b < x as int * self.ny + y + 1,
                                            a * self.ny + b != x as int * self.ny + y as int,
                                    ;
                                }
                            }
                        }
                    },
                    None => {
                        proof {
                            assert(false);
                        }
                    },
                }
                y = y + 1;
            }
            proof {
                assert(x as int * self.ny + self.ny as int == (x as int + 1) * self.ny)
                    by (nonlinear_arith);
            }
            x = x + 1;
        }
        proof {
            assert forall|a: int, b: int| 0 <= a < self.nx && 0 <= b < self.ny implies cell_refined(
                orig[a * self.ny + b],
                #[trigger] self.cells()[a * self.ny + b],
                cell_lo(w_s, a, self.nx as int),
                cell_lo(h_s, b, self.ny as int),
                cell_lo(w_s, a + 1, self.nx as int),
                cell_lo(h_s, b + 1, self.ny as int),
                depth as int,
            ) && probes_in_window(self.cells()[a * self.ny + b].probes@, w_s, h_s) by {
                lemma_cell_index(a, b, self.nx as int, self.ny as int);
            }
            assert forall|i: int| 0 <= i < self.cells().len() implies (
            #[trigger] self.cells()[i]).wf() && probes_in_window(
                self.cells()[i].probes@,
                self.width(),
                self.height(),
            ) by {
                lemma_flat_to_pair(i, self.nx as int, self.ny as int);
                let a = i / (self.ny as int);
                let b = i % (self.ny as int);
                assert(self.cells()[a * (self.ny as int) + b] == self.cells()[i]);
            }
        }
    }
}

impl<F: ScalarField> Equart<F> {
    /// Reflow after a resolution change: allocates a fresh grid of the new
    /// dimensions, relocates every accumulated probe into the cell its
    /// window offsets map to under the new cell size (dropping the ones
    /// whose candidate lies outside the new grid), reclassifies every new
    /// cell from the probes it received, and installs the new grid. Each new
    /// cell ends up with exactly the probes of the whole old grid, in
    /// row-major probe order, that land in it.
    pub fn redistribute(&mut self, new_x: u32, new_y: u32)
        requires
            old(self).wf(),
            1 <= new_x <= MAX_RESOLUTION as u32,
            1 <= new_y <= MAX_RESOLUTION as u32,
        ensures
            final(self).wf(),
            final(self).nx == new_x,
            final(self).ny == new_y,
            final(self).window_start == old(self).window_start,
            final(self).window_end == old(self).window_end,
            final(self).den == old(self).den,
            final(self).field == old(self).field,
            final(self).max_target_depth == old(self).max_target_depth,
            final(self).min_achived_depth == old(self).min_achived_depth,
            forall|cx: int, cy: int|
                0 <= cx < new_x && 0 <= cy < new_y ==> (#[trigger] final(self).cell_at(
                    cx,
                    cy,
                )).probes@ == samples_of(old(self).cells()).filter(
                    lands_pred(
                        old(self).width(),
                        old(self).height(),
                        new_x as int,
                        new_y as int,
                        cx,
                        cy,
                    ),
                ),
    {
        let nnx = new_x as usize;
        let nny = new_y as usize;
        let w = (self.window_end.x - self.window_start.x) as u64;
        let h = (self.window_end.y - self.window_start.y) as u64;
        let ghost w_s = self.width();
        let ghost h_s = self.height();
        let ghost orig = self.cells();
        proof {
            assert((nnx as int) * (nny as int) <= 0x10000000) by (nonlinear_arith)
                requires
                    0 <= nnx as int <= MAX_RESOLUTION as int,
                    0 <= nny as int <= MAX_RESOLUTION as int,
            ;
        }
        let mut ngrid = grid_filled(Fixel::empty_at_depth(self.min_achived_depth), nnx, nny);
        proof {
            assert(orig.take(0) =~= Seq::<Fixel>::empty());
            assert(samples_of(orig.take(0)) =~= Seq::<Sample>::empty());
            assert forall|cx: int, cy: int| 0 <= cx < nnx && 0 <= cy < nny implies (
            #[trigger] grid_cells(ngrid)[cx * nny + cy]).probes@ == samples_of(orig.take(0)).filter(
                lands_pred(w_s, h_s, nnx as int, nny as int, cx, cy),
            ) && probes_in_window(grid_cells(ngrid)[cx * nny + cy].probes@, w_s, h_s) by {
                lemma_cell_index(cx, cy, nnx as int, nny as int);
            }
        }
        proof {
            assert((self.nx as int) * (self.ny as int) <= 0x10000000) by (nonlinear_arith)
                requires
                    0 <= self.nx as int <= MAX_RESOLUTION as int,
                    0 <= self.ny as int <= MAX_RESOLUTION as int,
            ;
        }
        let total = self.nx * self.ny;
        let mut i: usize = 0;
        while i < total
            invariant
                self.wf(),
                orig == self.cells(),
                w_s == self.width(),
                h_s == self.height(),
                w == w_s,
                h == h_s,
                1 <= nnx <= MAX_RESOLUTION,
                1 <= nny <= MAX_RESOLUTION,
                total == self.nx * self.ny,
                i <= total,
                grid_dims(ngrid) == (nnx as int, nny as int),
                grid_cells(ngrid).len() == nnx * nny,
                forall|cx: int, cy: int|
                    0 <= cx < nnx && 0 <= cy < nny ==> (#[trigger] grid_cells(ngrid)[cx * nny
                        + cy]).probes@ == samples_of(orig.take(i as int)).filter(
                        lands_pred(w_s, h_s, nnx as int, nny as int, cx, cy),
                    ) && probes_in_window(grid_cells(ngrid)[cx * nny + cy].probes@, w_s, h_s),
            decreases total - i,
        {
            if let Some(c) = grid_get_flat(&self.fixels, i) {
                let mut j: usize = 0;
                while j < c.probes.len()
                    invariant
                        self.wf(),
                        orig == self.cells(),
                        w_s == self.width(),
                        h_s == self.height(),
                        w == w_s,
                        h == h_s,
                        1 <= nnx <= MAX_RESOLUTION,
                        1 <= nny <= MAX_RESOLUTION,
                        total == self.nx * self.ny,
                        i < total,
                        *c == orig[i as int],
                        j <= c.probes.len(),
                        grid_dims(ngrid) == (nnx as int, nny as int),
                        grid_cells(ngrid).len() == nnx * nny,
                        forall|cx: int, cy: int|
                            0 <= cx < nnx && 0 <= cy < nny ==> (#[trigger] grid_cells(ngrid)[cx
                                * nny + cy]).probes@ == (samples_of(orig.take(i as int))
                                + c.probes@.take(j as int)).filter(
                                lands_pred(w_s, h_s, nnx as int, nny as int, cx, cy),
                            ) && probes_in_window(
                                grid_cells(ngrid)[cx * nny + cy].probes@,
                                w_s,
                                h_s,
                            ),
                    decreases c.probes.len() - j,
                {
                    let s = c.probes[j];
                    proof {
                        assert(probes_in_window(orig[i as int].probes@, w_s, h_s));
                        assert(s.dx <= w_s && s.dy <= h_s);
                    }
                    let locs = s.gen_locations(w, h, nnx, nny);
                    let loc = locs[0];
                    let ghost prevseq = samples_of(orig.take(i as int)) + c.probes@.take(j as int);
                    let ghost newseq = samples_of(orig.take(i as int)) + c.probes@.take(
                        j as int + 1,
                    );
                    proof {
                        assert(c.probes@.take(j as int + 1) =~= c.probes@.take(j as int).push(s));
                        assert(newseq =~= prevseq.push(s));
                    }
                    if loc.0 < nnx && loc.1 < nny {
                        proof {
                            lemma_cell_index(loc.0 as int, loc.1 as int, nnx as int, nny as int);
                            assert((nnx as int) * (nny as int) <= 0x10000000) by (nonlinear_arith)
                                requires
                                    0 <= nnx as int <= MAX_RESOLUTION as int,
                                    0 <= nny as int <= MAX_RESOLUTION as int,
                            ;
                        }
                        let flat0 = loc.0 * nny + loc.1;
                        if let Some(oldc) = grid_get_flat(&ngrid, flat0) {
                            let mut c2 = oldc.duplicate();
                            c2.transfer_probe(s);
                            let ghost gbefore = grid_cells(ngrid);
                            let _ok = grid_set_flat(&mut ngrid, flat0, c2);
                            proof {
                                assert forall|cx: int, cy: int|
                                    0 <= cx < nnx && 0 <= cy < nny implies (
                                #[trigger] grid_cells(ngrid)[cx * nny + cy]).probes@
                                    == newseq.filter(
                                    lands_pred(w_s, h_s, nnx as int, nny as int, cx, cy),
                                ) && probes_in_window(
                                    grid_cells(ngrid)[cx * nny + cy].probes@,
                                    w_s,
                                    h_s,
                                ) by {
                                    lemma_cell_index(cx, cy, nnx as int, nny as int);
                                    let pred = lands_pred(w_s, h_s, nnx as int, nny as int, cx, cy);
                                    lemma_filter_push(prevseq, pred, s);
                                    if cx == loc.0 as int && cy == loc.1 as int {
                                        assert(pred(s));
                                        assert(grid_cells(ngrid)[cx * nny + cy] == c2);
                                        assert(c2.probes@ =~= gbefore[flat0 as int].probes@ + seq![
                                            s,
                                        ]);
                                    } else {
                                        lemma_cell_index_injective(
                                            cx,
                                            cy,
                                            loc.0 as int,
                                            loc.1 as int,
                                            nnx as int,
                                            nny as int,
                                        );
                                        assert(!pred(s));
                                        assert(grid_cells(ngrid)[cx * nny + cy] == gbefore[cx * nny
                                            + cy]);
                                    }
                                }
                            }
                        } else {
                            proof {
                                assert(false);
                            }
                        }
                    } else {
                        proof {
                            assert forall|cx: int, cy: int|
                                0 <= cx < nnx && 0 <= cy < nny implies (
                            #[trigger] grid_cells(ngrid)[cx * nny + cy]).probes@ == newseq.filter(
                                lands_pred(w_s, h_s, nnx as int, nny as int, cx, cy),
                            ) && probes_in_window(
                                grid_cells(ngrid)[cx * nny + cy].probes@,
                                w_s,
                                h_s,
                            ) by {
                                lemma_cell_index(cx, cy, nnx as int, nny as int);
                                let pred = lands_pred(w_s, h_s, nnx as int, nny as int, cx, cy);
                                lemma_filter_push(prevseq, pred, s);
                                assert(!pred(s));
                            }
                        }
                    }
                    j = j + 1;
                }
                proof {
                    assert(c.probes@.take(c.probes@.len() as int) =~= c.probes@);
                    assert(orig.take(i as int + 1).drop_last() =~= orig.take(i as int));
                    assert(orig.take(i as int + 1).last() == orig[i as int]);
                    assert(samples_of(orig.take(i as int + 1)) == samples_of(orig.take(i as int))
                        + orig[i as int].probes@);
                }
            } else {
                proof {
                    assert(false);
                }
            }
            i = i + 1;
        }
        proof {
            assert(orig.take(total as int) =~= orig);
        }
        let ghost mid = grid_cells(ngrid);
        proof {
            assert((nnx as int) * (nny as int) <= 0x10000000) by (nonlinear_arith)
                requires
                    0 <= nnx as int <= MAX_RESOLUTION as int,
                    0 <= nny as int <= MAX_RESOLUTION as int,
            ;
        }
        let nt = nnx * nny;
        let mut k: usize = 0;
        while k < nt
            invariant
                k <= nt,
                nt == nnx * nny,
                grid_dims(ngrid) == (nnx as int, nny as int),
                grid_cells(ngrid).len() == nnx * nny,
                mid.len() == nnx * nny,
                forall|idx: int|
                    0 <= idx < k ==> (#[trigger] grid_cells(ngrid)[idx]).wf() && grid_cells(
                        ngrid,
                    )[idx].probes@ == mid[idx].probes@,
                forall|idx: int|
                    k <= idx < nnx * nny ==> #[trigger] grid_cells(ngrid)[idx] == mid[idx],
            decreases nt - k,
        {
            if let Some(c) = grid_get_flat(&ngrid, k) {
                let mut c2 = c.duplicate();
                c2.search_roots();
                let _ok = grid_set_flat(&mut ngrid, k, c2);
            } else {
                proof {
                    assert(false);
                }
            }
            k = k + 1;
        }
        self.fixels = ngrid;
        self.nx = nnx;
        self.ny = nny;
        proof {
            assert forall|idx: int| 0 <= idx < self.cells().len() implies (
            #[trigger] self.cells()[idx]).wf() && probes_in_window(
                self.cells()[idx].probes@,
                self.width(),
                self.height(),
            ) by {
                lemma_flat_to_pair(idx, nnx as int, nny as int);
                let a = idx / (nny as int);
                let b = idx % (nny as int);
                assert(grid_cells(self.fixels)[a * (nny as int) + b] == self.cells()[idx]);
                assert(mid[a * (nny as int) + b] == mid[idx]);
            }
            assert forall|cx: int, cy: int| 0 <= cx < new_x && 0 <= cy < new_y implies (
            #[trigger] self.cell_at(cx, cy)).probes@ == samples_of(orig).filter(
                lands_pred(w_s, h_s, new_x as int, new_y as int, cx, cy),
            ) by {
                lemma_cell_index(cx, cy, nnx as int, nny as int);
                let idx = cx * (nny as int) + cy;
                assert(grid_cells(self.fixels)[idx].probes@ == mid[idx].probes@);
                assert(mid[idx].probes@ == samples_of(orig.take(total as int)).filter(
                    lands_pred(w_s, h_s, nnx as int, nny as int, cx, cy),
                ));
                assert(samples_of(orig.take(total as int)) == samples_of(orig));
            }
        }
    }
}

/// Reflow conservation: under any new grid geometry, a probe of the old
/// grid is selected by exactly one cell's predicate — the cell its offsets
/// map to — and by no other; when that cell lies outside the new grid, no
/// cell selects it. Together with the reflow's own contract this says every
/// probe lands in exactly one in-bounds cell or is dropped, never duplicated
/// and never lost while in bounds.
pub proof fn lemma_reflow_conservation(all: Seq<Sample>, w: int, h: int, nx: int, ny: int, k: int)
    requires
        0 <= k < all.len(),
        1 <= nx,
        1 <= ny,
    ensures
        forall|a: int, b: int|
            !(a == dest_col(all[k].dx as int, w, nx) && b == dest_col(all[k].dy as int, h, ny))
                ==> !all.filter(#[trigger] lands_pred(w, h, nx, ny, a, b)).contains(all[k]),
        0 <= dest_col(all[k].dx as int, w, nx) < nx && 0 <= dest_col(all[k].dy as int, h, ny) < ny
            ==> all.filter(
            lands_pred(
                w,
                h,
                nx,
                ny,
                dest_col(all[k].dx as int, w, nx),
                dest_col(all[k].dy as int, h, ny),
            ),
        ).contains(all[k]),
{
    let s = all[k];
    let cx = dest_col(s.dx as int, w, nx);
    let cy = dest_col(s.dy as int, h, ny);
    assert forall|a: int, b: int| !(a == cx && b == cy) implies !all.filter(
        #[trigger] lands_pred(w, h, nx, ny, a, b),
    ).contains(all[k]) by {
        let pred = lands_pred(w, h, nx, ny, a, b);
        all.filter_lemma(pred);
        if all.filter(pred).contains(s) {
            let idx = choose|idx: int|
                0 <= idx < all.filter(pred).len() && all.filter(pred)[idx] == s;
            assert(pred(all.filter(pred)[idx]));
        }
    }
    if 0 <= cx < nx && 0 <= cy < ny {
        let pred = lands_pred(w, h, nx, ny, cx, cy);
        all.filter_lemma(pred);
        assert(pred(all[k]));
    }
}

/// The probes whose destination cell exists in an `nx` by `ny` grid: the
/// ones a reflow keeps; the rest are dropped.
pub open spec fn in_bounds_pred(w: int, h: int, nx: int, ny: int) -> spec_fn(Sample) -> bool {
    |s: Sample| 0 <= dest_col(s.dx as int, w, nx) < nx && 0 <= dest_col(s.dy as int, h, ny) < ny
}

/// The total number of probes of `all` landing in the first `k` cells of an
/// `nx` by `ny` grid, in row-major cell order.
pub open spec fn landed_count(all: Seq<Sample>, w: int, h: int, nx: int, ny: int, k: int) -> int
    decreases k,
{
    if k <= 0 {
        0
    } else {
        landed_count(all, w, h, nx, ny, k - 1) + all.filter(
            lands_pred(w, h, nx, ny, (k - 1) / ny, (k - 1) % ny),
        ).len()
    }
}

proof fn lemma_landed_empty(w: int, h: int, nx: int, ny: int, k: int)
    requires
        1 <= ny,
    ensures
        landed_count(Seq::<Sample>::empty(), w, h, nx, ny, k) == 0,
    decreases k,
{
    if k > 0 {
        lemma_landed_empty(w, h, nx, ny, k - 1);
        reveal_with_fuel(Seq::filter, 2);
        assert(Seq::<Sample>::empty().filter(
            lands_pred(w, h, nx, ny, (k - 1) / ny, (k - 1) % ny),
        ).len() == 0);
    }
}

/// One more probe raises the landed count of the first `k` cells by one
/// exactly when its destination cell lies among them.
proof fn lemma_landed_push(
    all: Seq<Sample>,
    s: Sample,
    w: int,
    h: int,
    nx: int,
    ny: int,
    k: int,
)
    requires
        1 <= nx,
        1 <= ny,
        0 <= k <= nx * ny,
    ensures
        landed_count(all.push(s), w, h, nx, ny, k) == landed_count(all, w, h, nx, ny, k) + (
        if (in_bounds_pred(w, h, nx, ny))(s) && dest_col(s.dx as int, w, nx) * ny + dest_col(
            s.dy as int,
            h,
            ny,
        ) < k {
            1int
        } else {
            0int
        }),
    decreases k,
{
    if k > 0 {
        lemma_landed_push(all, s, w, h, nx, ny, k - 1);
        lemma_flat_to_pair(k - 1, nx, ny);
        let cx = (k - 1) / ny;
        let cy = (k - 1) % ny;
        lemma_filter_push(all, lands_pred(w, h, nx, ny, cx, cy), s);
        let dx = dest_col(s.dx as int, w, nx);
        let dy = dest_col(s.dy as int, h, ny);
        if lands_at(s, w, h, nx, ny, cx, cy) {
            assert(dx * ny + dy == k - 1);
            assert((in_bounds_pred(w, h, nx, ny))(s));
        } else {
            if (in_bounds_pred(w, h, nx, ny))(s) && dx * ny + dy == k - 1 {
                vstd::arithmetic::div_mod::lemma_fundamental_div_mod_converse(k - 1, ny, dx, dy);
                assert(false);
            }
        }
    }
}

proof fn lemma_landed_full(all: Seq<Sample>, w: int, h: int, nx: int, ny: int)
    requires
        1 <= nx,
        1 <= ny,
    ensures
        landed_count(all, w, h, nx, ny, nx * ny) == all.filter(in_bounds_pred(w, h, nx, ny)).len(),
    decreases all.len(),
{
    assert(nx * ny >= 1) by (nonlinear_arith)
        requires
            1 <= nx,
            1 <= ny,
    ;
    if all.len() == 0 {
        assert(all =~= Seq::<Sample>::empty());
        lemma_landed_empty(w, h, nx, ny, nx * ny);
        reveal_with_fuel(Seq::filter, 2);
        assert(all.filter(in_bounds_pred(w, h, nx, ny)).len() == 0);
    } else {
        let a = all.drop_last();
        let s = all.last();
        assert(all =~= a.push(s));
        lemma_landed_full(a, w, h, nx, ny);
        lemma_landed_push(a, s, w, h, nx, ny, nx * ny);
        lemma_filter_push(a, in_bounds_pred(w, h, nx, ny), s);
        if (in_bounds_pred(w, h, nx, ny))(s) {
            lemma_cell_index(
                dest_col(s.dx as int, w, nx),
                dest_col(s.dy as int, h, ny),
                nx,
                ny,
            );
            assert(a.push(s).filter(in_bounds_pred(w, h, nx, ny)).len() == a.filter(
                in_bounds_pred(w, h, nx, ny),
            ).len() + 1);
            assert(landed_count(a.push(s), w, h, nx, ny, nx * ny) == landed_count(
                a,
                w,
                h,
                nx,
                ny,
                nx * ny,
            ) + 1);
        } else {
            assert(a.push(s).filter(in_bounds_pred(w, h, nx, ny)).len() == a.filter(
                in_bounds_pred(w, h, nx, ny),
            ).len());
            assert(landed_count(a.push(s), w, h, nx, ny, nx * ny) == landed_count(
                a,
                w,
                h,
                nx,
                ny,
                nx * ny,
            ));
        }
        assert(landed_count(all, w, h, nx, ny, nx * ny) == landed_count(
            a.push(s),
            w,
            h,
            nx,
            ny,
            nx * ny,
        ));
    }
}

proof fn lemma_samples_prefix(
    cells: Seq<Fixel>,
    all: Seq<Sample>,
    w: int,
    h: int,
    nx: int,
    ny: int,
    k: int,
)
    requires
        1 <= nx,
        1 <= ny,
        cells.len() == nx * ny,
        0 <= k <= cells.len(),
        forall|cx: int, cy: int|
            0 <= cx < nx && 0 <= cy < ny ==> (#[trigger] cells[cx * ny + cy]).probes@
                == all.filter(lands_pred(w, h, nx, ny, cx, cy)),
    ensures
        samples_of(cells.take(k)).len() == landed_count(all, w, h, nx, ny, k),
    decreases k,
{
    if k > 0 {
        lemma_samples_prefix(cells, all, w, h, nx, ny, k - 1);
        assert(cells.take(k).drop_last() =~= cells.take(k - 1));
        assert(cells.take(k).last() == cells[k - 1]);
        lemma_flat_to_pair(k - 1, nx, ny);
        let cx = (k - 1) / ny;
        let cy = (k - 1) % ny;
        assert(cells[cx * ny + cy].probes@ == all.filter(lands_pred(w, h, nx, ny, cx, cy)));
    }
}

/// Reflow counting: a grid whose every cell holds exactly the probes that
/// land in it owns, in total, exactly the probes whose destination exists —
/// the old total minus the dropped ones; nothing else is lost and nothing is
/// counted twice. `Equart::redistribute`'s contract supplies the premise for
/// its new grid over the old grid's probes.
pub proof fn lemma_reflow_count(
    cells: Seq<Fixel>,
    all: Seq<Sample>,
    w: int,
    h: int,
    nx: int,
    ny: int,
)
    requires
        1 <= nx,
        1 <= ny,
        cells.len() == nx * ny,
        forall|cx: int, cy: int|
            0 <= cx < nx && 0 <= cy < ny ==> (#[trigger] cells[cx * ny + cy]).probes@
                == all.filter(lands_pred(w, h, nx, ny, cx, cy)),
    ensures
        samples_of(cells).len() == all.filter(in_bounds_pred(w, h, nx, ny)).len(),
{
    lemma_samples_prefix(cells, all, w, h, nx, ny, cells.len() as int);
    assert(cells.take(cells.len() as int) =~= cells);
    lemma_landed_full(all, w, h, nx, ny);
}

/// A row-major index below `nx * ny` splits into an in-range cell pair by
/// division and remainder.
proof fn lemma_flat_to_pair(i: int, nx: int, ny: int)
    requires
        1 <= nx,
        1 <= ny,
        0 <= i < nx * ny,
    ensures
        0 <= i / ny < nx,
        0 <= i % ny < ny,
        (i / ny) * ny + (i % ny) == i,
{
    vstd::arithmetic::div_mod::lemma_fundamental_div_mod(i, ny);
    vstd::arithmetic::div_mod::lemma_mod_bound(i, ny);
    vstd::arithmetic::div_mod::lemma_div_pos_is_pos(i, ny);
    assert((i / ny) * ny + (i % ny) == i && i / ny < nx) by (nonlinear_arith)
        requires
            i == ny * (i / ny) + (i % ny),
            0 <= i % ny < ny,
            0 <= i / ny,
            0 <= i < nx * ny,
            1 <= nx,
            1 <= ny,
    ;
}

impl<F: ScalarField> DrawingApp for Equart<F> {
    open spec fn inv(&self) -> bool {
        self.wf()
    }

    open spec fn width_px(&self) -> int {
        self.nx as int
    }

    open spec fn height_px(&self) -> int {
        self.ny as int
    }

    open spec fn depth(&self) -> int {
        self.min_achived_depth as int
    }

    open spec fn max_depth(&self) -> int {
        self.max_target_depth as int
    }

    open spec fn pixel_at(&self, x: int, y: int) -> Pixel {
        self.spec_cell_color(x, y)
    }

    fn new(id: usize, max_id: usize, x: u32, y: u32) -> Self {
        Equart::with_field(F::new_field(), id, max_id, x, y)
    }

    fn get_pixel(&mut self, x: u32, y: u32) -> Pixel {
        self.cell_color(x, y)
    }

    fn next_line(&mut self, _y: u32) {
    }

    fn next_frame(&mut self) {
        self.advance_frame()
    }

    fn resize(&mut self, new_x: u32, new_y: u32) {
        self.redistribute(new_x, new_y)
    }
}

/// Cell `(x, y)` of an `nx` by `ny` grid sits at a row-major index inside
/// the store.
proof fn lemma_cell_index(x: int, y: int, nx: int, ny: int)
    requires
        0 <= x < nx,
        0 <= y < ny,
    ensures
        0 <= x * ny + y < nx * ny,
{
    assert(0 <= x * ny + y < nx * ny) by (nonlinear_arith)
        requires
            0 <= x < nx,
            0 <= y < ny,
    ;
}

/// Distinct cells of one grid sit at distinct row-major indices.
proof fn lemma_cell_index_injective(a: int, b: int, x: int, y: int, nx: int, ny: int)
    requires
        0 <= a < nx,
        0 <= b < ny,
        0 <= x < nx,
        0 <= y < ny,
        !(a == x && b == y),
    ensures
        a * ny + b != x * ny + y,
{
    assert(a * ny + b != x * ny + y) by (nonlinear_arith)
        requires
            0 <= b < ny,
            0 <= y < ny,
            !(a == x && b == y),
    ;
}

/// The exact cell boundaries along one axis are ordered, stay inside the
/// extent, and their products stay inside the machine's range.
proof fn lemma_cell_bounds(e: int, k: int, n: int)
    requires
        1 <= e <= OFFSET_LIMIT,
        1 <= n <= MAX_RESOLUTION,
        0 <= k < n,
    ensures
        0 <= e * k <= e * (k + 1) <= e * n,
        e * n <= 0x4000_0000_0000_0000,
        0 <= cell_lo(e, k, n) <= cell_lo(e, k + 1, n) <= e,
{
    assert(0 <= e * k <= e * (k + 1) <= e * n && e * n <= 0x4000_0000_0000_0000)
        by (nonlinear_arith)
        requires
            1 <= e <= OFFSET_LIMIT,
            1 <= n <= MAX_RESOLUTION,
            0 <= k < n,
    ;
    lemma_div_pos_is_pos(e * k, n);
    lemma_div_is_ordered(e * k, e * (k + 1), n);
    lemma_div_is_ordered(e * (k + 1), e * n, n);
    lemma_div_multiples_vanish(e, n);
    assert(e * n == n * e) by (nonlinear_arith);
}

} // verus!
