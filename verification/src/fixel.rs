use vstd::arithmetic::div_mod::lemma_div_is_ordered;
use vstd::arithmetic::div_mod::lemma_div_multiples_vanish;
use vstd::arithmetic::div_mod::lemma_div_pos_is_pos;
use vstd::arithmetic::mul::lemma_mul_inequality;
use vstd::prelude::*;

verus! {

/// Largest window extent numerator a worker may carry; keeps the cell-mapping
/// products inside `u64`.
pub const OFFSET_LIMIT: u64 = 0x10_0000_0000;

/// Largest pixel resolution on one axis.
pub const MAX_RESOLUTION: usize = 16384;

/// Largest magnitude of a window corner numerator; far below what overflows
/// an `i64` when an offset inside the window is added.
pub const WINDOW_NUM_LIMIT: i64 = 0x1000_0000_0000_0000;

/// Largest magnitude of a coordinate numerator handed to a scalar field.
pub const EVAL_COORD_LIMIT: i64 = 0x2000_0000_0000_0000;

/// Largest denominator handed to a scalar field.
pub const DEN_LIMIT: u64 = 0x1_0000_0000_0000;

/// The sign class of one evaluated probe: the only part of a scalar field's
/// value the classification reads. A non-finite evaluation is kept as its own
/// class and later classifies the cell as out-of-domain.
#[derive(Clone, Copy, PartialEq, Eq, Structural, Debug)]
pub enum Sign {
    Positive,
    Negative,
    Zero,
    NonFinite,
}

/// A scalar field sampled by the renderer. Coordinates arrive as exact
/// numerators over `den`: the point evaluated is `(x_num / den, y_num / den)`
/// in domain units. Implementations decide the field; nothing is assumed of
/// the sign that comes back.
pub trait ScalarField: Sized {
    /// A fresh instance of the field, so a worker pool can build one per
    /// worker.
    fn new_field() -> Self;

    /// The sign class of the field at the given exact point.
    fn eval(&self, x_num: i64, y_num: i64, den: u64) -> Sign
        requires
            -EVAL_COORD_LIMIT <= x_num <= EVAL_COORD_LIMIT,
            -EVAL_COORD_LIMIT <= y_num <= EVAL_COORD_LIMIT,
            1 <= den <= DEN_LIMIT,
    ;
}

/// One probe of the scalar field: a position inside the owning worker's
/// window (stored as offsets from the window's lower corner, on the window's
/// denominator), the refinement depth that produced it, and the sign that the
/// evaluation returned.
#[derive(Clone, Copy, PartialEq, Eq, Structural, Debug)]
pub struct Sample {
    pub dx: u64,
    pub dy: u64,
    pub depth: u32,
    pub sign: Sign,
}

/// Root classification of a cell, derived from its probes.
#[derive(Clone, Copy, PartialEq, Eq, Structural, Debug)]
pub enum RootType {
    NoRoot,
    Root,
    OutOfDomain,
}

/// Sign classification of a cell's probes: the dominant sign, or no-data when
/// the probes are empty or mixed.
#[derive(Clone, Copy, PartialEq, Eq, Structural, Debug)]
pub enum Mood {
    NoData,
    Positive,
    Negative,
}

pub open spec fn has_sign(s: Seq<Sample>, g: Sign) -> bool {
    exists|i: int| 0 <= i < s.len() && s[i].sign == g
}

/// What a probe set says about roots: any non-finite probe marks the cell
/// out-of-domain; otherwise an exact zero or a sign change marks a root; an
/// empty probe set never claims anything.
pub open spec fn spec_root_type(s: Seq<Sample>) -> RootType {
    if has_sign(s, Sign::NonFinite) {
        RootType::OutOfDomain
    } else if has_sign(s, Sign::Zero) || (has_sign(s, Sign::Positive) && has_sign(
        s,
        Sign::Negative,
    )) {
        RootType::Root
    } else {
        RootType::NoRoot
    }
}

/// The dominant sign of a probe set: a sign that occurs while its opposite
/// does not; anything else (no probes, mixed signs) is no-data.
pub open spec fn spec_mood(s: Seq<Sample>) -> Mood {
    if has_sign(s, Sign::Positive) && !has_sign(s, Sign::Negative) {
        Mood::Positive
    } else if has_sign(s, Sign::Negative) && !has_sign(s, Sign::Positive) {
        Mood::Negative
    } else {
        Mood::NoData
    }
}

/// No-sample classification: a cell with zero owned probes classifies as
/// no-data, never as a root and never as out-of-domain.
pub proof fn lemma_empty_cell_is_no_data(s: Seq<Sample>)
    requires
        s.len() == 0,
    ensures
        spec_root_type(s) == RootType::NoRoot,
        spec_mood(s) == Mood::NoData,
{
}

/// The destination column of a probe after a resolution change: its window
/// offset mapped into `nx` equal cells over a window of extent `width`.
pub open spec fn dest_col(dx: int, width: int, nx: int) -> int {
    dx * nx / width
}

/// One grid cell ("fixel"): an unordered collection of probes with a cached
/// classification. The cache is valid when `wf()` holds; probe transfer
/// leaves it stale until `search_roots` reclassifies.
#[derive(Clone, Debug)]
pub struct Fixel {
    pub probes: Vec<Sample>,
    pub root: RootType,
    pub mood: Mood,
    /// The refinement depth this cell has already achieved; requesting the
    /// same depth again adds nothing.
    pub depth: u32,
}

impl Fixel {
    /// The cached classification matches the probes the cell owns.
    pub open spec fn wf(self) -> bool {
        self.root == spec_root_type(self.probes@) && self.mood == spec_mood(self.probes@)
    }

    /// An empty cell: no probes, classified as no-data.
    pub fn new() -> (f: Fixel)
        ensures
            f.probes@ == Seq::<Sample>::empty(),
            f.depth == 0,
            f.wf(),
    {
        let f = Fixel { probes: Vec::new(), root: RootType::NoRoot, mood: Mood::NoData, depth: 0 };
        proof {
            lemma_empty_cell_is_no_data(f.probes@);
        }
        f
    }

    /// An empty cell that considers the given refinement depth already
    /// achieved, so refinement after a reflow continues from the worker's
    /// current depth instead of starting over.
    pub fn empty_at_depth(depth: u32) -> (f: Fixel)
        ensures
            f.probes@ == Seq::<Sample>::empty(),
            f.depth == depth,
            f.wf(),
    {
        let f = Fixel { probes: Vec::new(), root: RootType::NoRoot, mood: Mood::NoData, depth };
        proof {
            lemma_empty_cell_is_no_data(f.probes@);
        }
        f
    }

    /// Brings this cell to the requested refinement depth: one new probe of
    /// the scalar field per missing depth level, placed at the cell's
    /// midpoint, each recorded with the level that produced it. Requesting a
    /// depth already achieved adds nothing, so the call is idempotent per
    /// depth. The cell window is handed in as offsets `[sx, ex] x [sy, ey]`
    /// from the worker window's corner `(origin_x, origin_y)`, on the
    /// denominator `den`.
    pub fn add_samples<F: ScalarField>(
        &mut self,
        field: &F,
        origin_x: i64,
        origin_y: i64,
        den: u64,
        sx: u64,
        sy: u64,
        ex: u64,
        ey: u64,
        depth: u32,
    )
        requires
            old(self).wf(),
            sx <= ex <= OFFSET_LIMIT,
            sy <= ey <= OFFSET_LIMIT,
            -WINDOW_NUM_LIMIT <= origin_x <= WINDOW_NUM_LIMIT,
            -WINDOW_NUM_LIMIT <= origin_y <= WINDOW_NUM_LIMIT,
            1 <= den <= DEN_LIMIT,
        ensures
            final(self).wf(),
            final(self).depth == (if old(self).depth >= depth {
                old(self).depth
            } else {
                depth
            }),
            final(self).probes@.len() == old(self).probes@.len() + (if old(self).depth >= depth {
                0int
            } else {
                depth - old(self).depth
            }),
            final(self).probes@.take(old(self).probes@.len() as int) == old(self).probes@,
            forall|k: int|
                old(self).probes@.len() <= k < final(self).probes@.len() ==> {
                    &&& (#[trigger] final(self).probes@[k]).dx == sx + (ex - sx) / 2
                    &&& final(self).probes@[k].dy == sy + (ey - sy) / 2
                    &&& final(self).probes@[k].depth == old(self).depth + (k - old(
                        self,
                    ).probes@.len()) + 1
                    &&& sx <= final(self).probes@[k].dx <= ex
                    &&& sy <= final(self).probes@[k].dy <= ey
                },
    {
        proof {
            vstd::arithmetic::div_mod::lemma_div_nonincreasing(ex as int - sx as int, 2);
            vstd::arithmetic::div_mod::lemma_div_pos_is_pos(ex as int - sx as int, 2);
            vstd::arithmetic::div_mod::lemma_div_nonincreasing(ey as int - sy as int, 2);
            vstd::arithmetic::div_mod::lemma_div_pos_is_pos(ey as int - sy as int, 2);
        }
        let dx = sx + (ex - sx) / 2;
        let dy = sy + (ey - sy) / 2;
        while self.depth < depth
            invariant
                sx <= ex <= OFFSET_LIMIT,
                sy <= ey <= OFFSET_LIMIT,
                1 <= den <= DEN_LIMIT,
                dx <= ex,
                dy <= ey,
                -WINDOW_NUM_LIMIT <= origin_x <= WINDOW_NUM_LIMIT,
                -WINDOW_NUM_LIMIT <= origin_y <= WINDOW_NUM_LIMIT,
                dx == sx + (ex - sx) / 2,
                dy == sy + (ey - sy) / 2,
                old(self).depth <= self.depth,
                old(self).depth >= depth ==> self.depth == old(self).depth,
                old(self).depth < depth ==> self.depth <= depth,
                self.root == old(self).root,
                self.mood == old(self).mood,
                self.probes@.len() == old(self).probes@.len() + (self.depth - old(self).depth),
                self.probes@.take(old(self).probes@.len() as int) == old(self).probes@,
                forall|k: int|
                    old(self).probes@.len() <= k < self.probes@.len() ==> {
                        &&& (#[trigger] self.probes@[k]).dx == sx + (ex - sx) / 2
                        &&& self.probes@[k].dy == sy + (ey - sy) / 2
                        &&& self.probes@[k].depth == old(self).depth + (k - old(
                            self,
                        ).probes@.len()) + 1
                    },
            decreases depth - self.depth,
        {
            let x_num = origin_x + (dx as i64);
            let y_num = origin_y + (dy as i64);
            let sign = field.eval(x_num, y_num, den);
            self.depth = self.depth + 1;
            let ghost before = self.probes@;
            self.probes.push(Sample { dx, dy, depth: self.depth, sign });
            proof {
                assert(self.probes@.take(old(self).probes@.len() as int) == before.take(
                    old(self).probes@.len() as int,
                ));
            }
        }
        self.search_roots();
    }

    /// The cached root classification.
    pub fn root_type(&self) -> (r: RootType)
        ensures
            r == self.root,
    {
        self.root
    }

    /// An owned copy of this cell with the same probes, cache, and depth.
    pub fn duplicate(&self) -> (f: Fixel)
        ensures
            f.probes@ == self.probes@,
            f.root == self.root,
            f.mood == self.mood,
            f.depth == self.depth,
    {
        let mut probes: Vec<Sample> = Vec::new();
        let mut i: usize = 0;
        while i < self.probes.len()
            invariant
                i <= self.probes.len(),
                probes@ == self.probes@.take(i as int),
            decreases self.probes.len() - i,
        {
            probes.push(self.probes[i]);
            proof {
                assert(self.probes@.take(i + 1 as int) == self.probes@.take(i as int).push(
                    self.probes@[i as int],
                ));
            }
            i = i + 1;
        }
        proof {
            assert(self.probes@.take(self.probes@.len() as int) == self.probes@);
        }
        Fixel { probes, root: self.root, mood: self.mood, depth: self.depth }
    }

    /// Takes ownership of one probe. The cached classification goes stale;
    /// the caller reclassifies with `search_roots` once all transfers are
    /// done.
    pub fn transfer_probe(&mut self, p: Sample)
        ensures
            final(self).probes@ == old(self).probes@.push(p),
            final(self).root == old(self).root,
            final(self).mood == old(self).mood,
            final(self).depth == old(self).depth,
    {
        self.probes.push(p);
    }

    /// Recomputes the cached classification from the probes currently owned.
    pub fn search_roots(&mut self)
        ensures
            final(self).probes@ == old(self).probes@,
            final(self).depth == old(self).depth,
            final(self).wf(),
    {
        let mut pos = false;
        let mut neg = false;
        let mut zero = false;
        let mut ood = false;
        let mut i: usize = 0;
        while i < self.probes.len()
            invariant
                i <= self.probes.len(),
                pos == has_sign(self.probes@.take(i as int), Sign::Positive),
                neg == has_sign(self.probes@.take(i as int), Sign::Negative),
                zero == has_sign(self.probes@.take(i as int), Sign::Zero),
                ood == has_sign(self.probes@.take(i as int), Sign::NonFinite),
            decreases self.probes.len() - i,
        {
            let s = self.probes[i].sign;
            proof {
                let t0 = self.probes@.take(i as int);
                let t1 = self.probes@.take(i + 1 as int);
                assert(t1 == t0.push(self.probes@[i as int]));
                assert forall|g: Sign| has_sign(t0, g) implies has_sign(t1, g) by {
                    let j = choose|j: int| 0 <= j < t0.len() && t0[j].sign == g;
                    assert(t1[j].sign == g);
                }
                assert forall|g: Sign|
                    has_sign(t1, g) && self.probes@[i as int].sign != g implies has_sign(
                    t0,
                    g,
                ) by {
                    let j = choose|j: int| 0 <= j < t1.len() && t1[j].sign == g;
                    assert(t0[j].sign == g);
                }
                assert(has_sign(t1, self.probes@[i as int].sign)) by {
                    assert(t1[i as int].sign == self.probes@[i as int].sign);
                }
            }
            match s {
                Sign::Positive => pos = true,
                Sign::Negative => neg = true,
                Sign::Zero => zero = true,
                Sign::NonFinite => ood = true,
            }
            i = i + 1;
        }
        proof {
            assert(self.probes@.take(self.probes@.len() as int) == self.probes@);
        }
        self.root = if ood {
            RootType::OutOfDomain
        } else if zero || (pos && neg) {
            RootType::Root
        } else {
            RootType::NoRoot
        };
        self.mood = if pos && !neg {
            Mood::Positive
        } else if neg && !pos {
            Mood::Negative
        } else {
            Mood::NoData
        };
    }
}

impl Sample {
    /// The candidate destination cells of this probe in a grid of `nx` by
    /// `ny` cells over a window of extent `width` by `height`: the cell its
    /// offset falls into under the new cell size. A candidate may lie outside
    /// the grid (a probe sitting on the window's far edge); the reflow drops
    /// those.
    pub fn gen_locations(&self, width: u64, height: u64, nx: usize, ny: usize) -> (v: Vec<
        (usize, usize),
    >)
        requires
            1 <= width <= OFFSET_LIMIT,
            1 <= height <= OFFSET_LIMIT,
            1 <= nx <= MAX_RESOLUTION,
            1 <= ny <= MAX_RESOLUTION,
            self.dx <= width,
            self.dy <= height,
        ensures
            v@.len() == 1,
            v@[0].0 == dest_col(self.dx as int, width as int, nx as int),
            v@[0].1 == dest_col(self.dy as int, height as int, ny as int),
            v@[0].0 <= nx,
            v@[0].1 <= ny,
    {
        proof {
            lemma_mul_inequality(self.dx as int, width as int, nx as int);
            lemma_div_is_ordered(self.dx as int * nx as int, width as int * nx as int, width as int);
            lemma_div_multiples_vanish(nx as int, width as int);
            lemma_div_pos_is_pos(self.dx as int * nx as int, width as int);
            lemma_mul_inequality(self.dy as int, height as int, ny as int);
            lemma_div_is_ordered(
                self.dy as int * ny as int,
                height as int * ny as int,
                height as int,
            );
            lemma_div_multiples_vanish(ny as int, height as int);
            lemma_div_pos_is_pos(self.dy as int * ny as int, height as int);
            assert(self.dx as int * nx as int <= OFFSET_LIMIT as int * MAX_RESOLUTION as int)
                by (nonlinear_arith)
                requires
                    0 <= self.dx as int <= OFFSET_LIMIT as int,
                    0 <= nx as int <= MAX_RESOLUTION as int,
            ;
            assert(self.dy as int * ny as int <= OFFSET_LIMIT as int * MAX_RESOLUTION as int)
                by (nonlinear_arith)
                requires
                    0 <= self.dy as int <= OFFSET_LIMIT as int,
                    0 <= ny as int <= MAX_RESOLUTION as int,
            ;
        }
        let col = (self.dx * nx as u64) / width;
        let row = (self.dy * ny as u64) / height;
        let mut v: Vec<(usize, usize)> = Vec::new();
        v.push((col as usize, row as usize));
        v
    }
}

} // verus!
