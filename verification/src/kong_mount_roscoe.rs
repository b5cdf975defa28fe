//! The Kong–Mount–Roscoe rectangle decomposition: shape-parameter solver,
//! case selector, tile generator, decomposition entry point and digitizer.

use vstd::prelude::*;

use crate::rat::{Rat, Q, OP_BOUND};
use crate::rat::{q_wf, q_int, q_div, q_mul_int, q_div_int, q_add, q_sub, q_mul};
use crate::rat::{q_le, q_lt, q_pos, q_min, q_max, q_bounded, q_bounds};
use crate::rat::{sqrt_floor_cap, lemma_sqrt_floor_cap_props, lemma_abs_mul_bound};
use crate::{Cuboid, QRect, qrect_width, qrect_height, qrect_bounded, qrect_ordered, rects_view};
use crate::{qrect_contains_mid, qrect_mid0, qrect_mid1, Rectangle};
use crate::{qrect_contained_in, qrect_interiors_disjoint, qrect_area};
use crate::rat::q_eqv;
use crate::laws::spec_area_sum;
use vstd::arithmetic::div_mod::lemma_fundamental_div_mod_converse;

verus! {

/// Magnitude bound on the numerators and denominators of the corner
/// coordinates accepted by the decomposition entry points; it keeps every
/// intermediate product of the exact arithmetic within `i128`.
pub const INPUT_BOUND: i128 = 0x1_0000;

/// Magnitude bound on the numerator of a side length computed from
/// `INPUT_BOUND`-bounded corners.
pub const SIDE_NUM_BOUND: i128 = 0x2_0000_0000;

/// Bound on the denominator of a side length computed from
/// `INPUT_BOUND`-bounded corners.
pub const SIDE_DEN_BOUND: i128 = 0x1_0000_0000;

/// Largest accepted subdomain count.
pub const COUNT_MAX: usize = 4096;

/// Magnitude bound on the bound candidates `C` and `S` of the solver.
pub const CS_BOUND: i128 = 0x2000_0000_0000;

/// Magnitude bound on the corner coordinates of a digit handed to the
/// digitizer.
pub const DIGIT_BOUND: i128 = 0x4000_0000;

/// Error variants of decomposition or digitization.
#[derive(Clone, Copy, Debug, PartialEq, Eq, Structural)]
pub enum Error {
    /// The case selector found no applicable rule for the computed shape
    /// parameters (the rule table of the source paper is not known to be
    /// exhaustive).
    Decompose,
    /// A digit's centroid fell outside every generated subdomain.
    Indexing,
}

impl Error {
    /// A human-readable description of the error.
    pub fn message(&self) -> (r: &'static str)
        ensures
            *self == Error::Decompose ==> r@ == "Could not find suitable subdomain for given digit"@,
            *self == Error::Indexing ==> r@ == "Could not assign index to subdomain"@,
    {
        match self {
            Error::Decompose => "Could not find suitable subdomain for given digit",
            Error::Indexing => "Could not assign index to subdomain",
        }
    }
}

/// Mathematical value of the solved shape parameters: the row-count
/// bracket `h1..h2`, the column-count bracket `k1..k2`, the side lengths
/// `A` (height) and `B` (width), and the bound candidates `C` and `S`.
#[allow(non_snake_case)]
pub ghost struct QKmrValues {
    pub p: int,
    pub h1: int,
    pub h2: int,
    pub k1: int,
    pub k2: int,
    pub A: Q,
    pub B: Q,
    pub C: Q,
    pub S: Q,
}

/// One probe of the exhaustive search for the bound candidates: the pair
/// `(h, k)` lowers `C` when an `h x k`-ish grid can still realize `p`
/// cells, and raises `S` when such a grid cannot exceed `p` cells.
pub open spec fn spec_cs_step(a: Q, b: Q, p: int, h: int, k: int, c: Q, s: Q) -> (Q, Q) {
    let ah = q_div_int(a, h);
    let bk = q_div_int(b, k);
    let c1 = if (h - 1) * (k - 1) < p {
        q_min(c, q_max(ah, bk))
    } else {
        c
    };
    let s1 = if p < (h + 1) * (k + 1) {
        q_max(s, q_min(ah, bk))
    } else {
        s
    };
    (c1, s1)
}

/// The search state after probing the pairs `(h', k)` for all `1 <= h' < h_end`.
pub open spec fn spec_cs_inner(a: Q, b: Q, p: int, k: int, h_end: int, c: Q, s: Q) -> (Q, Q)
    decreases h_end,
{
    if h_end <= 1 {
        (c, s)
    } else {
        let prev = spec_cs_inner(a, b, p, k, h_end - 1, c, s);
        spec_cs_step(a, b, p, h_end - 1, k, prev.0, prev.1)
    }
}

/// The search state after running the full inner loop for all `1 <= k' < k_end`.
pub open spec fn spec_cs_outer(a: Q, b: Q, p: int, k_end: int, c: Q, s: Q) -> (Q, Q)
    decreases k_end,
{
    if k_end <= 1 {
        (c, s)
    } else {
        let prev = spec_cs_outer(a, b, p, k_end - 1, c, s);
        spec_cs_inner(a, b, p, k_end - 1, p, prev.0, prev.1)
    }
}

/// The solved shape parameters for height `a`, width `b` and count `p`:
/// `h1 = floor(sqrt(a*p/b))`, `h2 = ceil(sqrt(a*p/b))`, symmetrically for
/// `k1`, `k2`, and `C` and `S` from the exhaustive pair search. The `C`
/// search starts at `max(a, b)`, the candidate of the always-admissible
/// pair `(1, 1)`, so `C` is the plain minimum over the admissible pairs;
/// the `S` search starts at zero, below every candidate.
pub open spec fn spec_calculate(a: Q, b: Q, p: int) -> QKmrValues {
    let qa = q_div(q_mul_int(a, p), b);
    let qb = q_div(q_mul_int(b, p), a);
    let h1 = sqrt_floor_cap(qa.n, qa.d, p);
    let h2 = if h1 * h1 * qa.d == qa.n {
        h1
    } else {
        h1 + 1
    };
    let k1 = sqrt_floor_cap(qb.n, qb.d, p);
    let k2 = if k1 * k1 * qb.d == qb.n {
        k1
    } else {
        k1 + 1
    };
    let cs = spec_cs_outer(a, b, p, p, q_max(a, b), q_int(0));
    QKmrValues { p, h1, h2, k1, k2, A: a, B: b, C: cs.0, S: cs.1 }
}

/// The shape of values produced by the solver on its accepted inputs:
/// both brackets are nonempty and lie in `[1, p]`, the sides are positive
/// and bounded, and `C` and `S` are bounded.
pub open spec fn kmr_values_wf(v: QKmrValues) -> bool {
    &&& 2 <= v.p <= COUNT_MAX as int
    &&& 1 <= v.h1 <= v.h2 <= v.p
    &&& 1 <= v.k1 <= v.k2 <= v.p
    &&& q_bounds(v.A, SIDE_NUM_BOUND as int, SIDE_DEN_BOUND as int)
    &&& q_bounds(v.B, SIDE_NUM_BOUND as int, SIDE_DEN_BOUND as int)
    &&& q_pos(v.A)
    &&& q_pos(v.B)
    &&& q_bounded(v.C, CS_BOUND as int)
    &&& q_bounded(v.S, CS_BOUND as int)
}

/// The solved shape parameters of the near-square tiling search.
#[allow(non_snake_case)]
pub struct KongMountRoscoeValues {
    pub p: u64,
    pub h1: u64,
    pub h2: u64,
    pub k1: u64,
    pub k2: u64,
    pub A: Rat,
    pub B: Rat,
    pub C: Rat,
    pub S: Rat,
}

impl View for KongMountRoscoeValues {
    type V = QKmrValues;

    open spec fn view(&self) -> QKmrValues {
        QKmrValues {
            p: self.p as int,
            h1: self.h1 as int,
            h2: self.h2 as int,
            k1: self.k1 as int,
            k2: self.k2 as int,
            A: self.A@,
            B: self.B@,
            C: self.C@,
            S: self.S@,
        }
    }
}

impl KongMountRoscoeValues {
    /// Solves the shape parameters for a domain of height `A`, width `B`
    /// and target subdomain count `n_subdomains`. The count must strictly
    /// exceed both aspect ratios (the decomposition entry point diverts
    /// flatter domains to the one-dimensional shortcut before solving).
    #[allow(non_snake_case)]
    #[verifier::loop_isolation(false)]
    pub fn calculate(A: Rat, B: Rat, n_subdomains: usize) -> (r: KongMountRoscoeValues)
        requires
            q_bounds(A@, SIDE_NUM_BOUND as int, SIDE_DEN_BOUND as int),
            q_bounds(B@, SIDE_NUM_BOUND as int, SIDE_DEN_BOUND as int),
            q_pos(A@),
            q_pos(B@),
            2 <= n_subdomains <= COUNT_MAX,
            q_lt(q_div(A@, B@), q_int(n_subdomains as int)),
            q_lt(q_div(B@, A@), q_int(n_subdomains as int)),
        ensures
            r@ == spec_calculate(A@, B@, n_subdomains as int),
            kmr_values_wf(r@),
    {
        let p: u64 = n_subdomains as u64;
        proof {
            lemma_abs_mul_bound(A@.n, p as int, SIDE_NUM_BOUND as int, COUNT_MAX as int);
            lemma_abs_mul_bound(B@.n, p as int, SIDE_NUM_BOUND as int, COUNT_MAX as int);
        }
        let ap: Rat = A.mul_int(p);
        let bp: Rat = B.mul_int(p);
        let qa: Rat = ap.div(&B);
        let qb: Rat = bp.div(&A);
        proof {
            lemma_abs_mul_bound(ap@.n, B@.d, SIDE_NUM_BOUND as int * COUNT_MAX as int, SIDE_DEN_BOUND as int);
            lemma_abs_mul_bound(A@.d, B@.n, SIDE_DEN_BOUND as int, SIDE_NUM_BOUND as int);
            lemma_abs_mul_bound(bp@.n, A@.d, SIDE_NUM_BOUND as int * COUNT_MAX as int, SIDE_DEN_BOUND as int);
            lemma_abs_mul_bound(B@.d, A@.n, SIDE_DEN_BOUND as int, SIDE_NUM_BOUND as int);
            assert(qa@.n >= 1 && qb@.n >= 1) by (nonlinear_arith)
                requires
                    A@.n >= 1,
                    B@.n >= 1,
                    A@.d >= 1,
                    B@.d >= 1,
                    p >= 2,
                    qa@.n == (A@.n * (p as int)) * B@.d,
                    qb@.n == (B@.n * (p as int)) * A@.d,
            ;
        }
        let h1: u64 = qa.sqrt_floor_capped(p);
        let k1: u64 = qb.sqrt_floor_capped(p);
        proof {
            lemma_sqrt_floor_cap_props(qa@.n, qa@.d, p as int);
            lemma_sqrt_floor_cap_props(qb@.n, qb@.d, p as int);
            // The count exceeds both aspect ratios, so each bracket starts
            // at 1 at least and the ceiling stays within p.
            assert(qa@.d <= qa@.n && qa@.n < (p as int * p as int) * qa@.d) by (nonlinear_arith)
                requires
                    qa@.n == (A@.n * (p as int)) * B@.d,
                    qa@.d == A@.d * B@.n,
                    B@.n * A@.d < (p as int) * (B@.d * A@.n),
                    A@.n * B@.d < (p as int) * (A@.d * B@.n),
                    p >= 2,
                    A@.n >= 1,
                    B@.n >= 1,
                    A@.d >= 1,
                    B@.d >= 1,
            ;
            assert(qb@.d <= qb@.n && qb@.n < (p as int * p as int) * qb@.d) by (nonlinear_arith)
                requires
                    qb@.n == (B@.n * (p as int)) * A@.d,
                    qb@.d == B@.d * A@.n,
                    B@.n * A@.d < (p as int) * (B@.d * A@.n),
                    A@.n * B@.d < (p as int) * (A@.d * B@.n),
                    p >= 2,
                    A@.n >= 1,
                    B@.n >= 1,
                    A@.d >= 1,
                    B@.d >= 1,
            ;
            if h1 == 0 {
                assert((1 * 1) * qa@.d > qa@.n);
                assert(false);
            }
            if h1 == p {
                assert((p as int * p as int) * qa@.d <= qa@.n) by (nonlinear_arith)
                    requires
                        h1 == p,
                        (h1 as int) * (h1 as int) * qa@.d <= qa@.n,
                ;
                assert(false);
            }
            if k1 == 0 {
                assert((1 * 1) * qb@.d > qb@.n);
                assert(false);
            }
            if k1 == p {
                assert((p as int * p as int) * qb@.d <= qb@.n) by (nonlinear_arith)
                    requires
                        k1 == p,
                        (k1 as int) * (k1 as int) * qb@.d <= qb@.n,
                ;
                assert(false);
            }
        }
        let h2: u64 = if qa.sqrt_is_exact(h1) {
            h1
        } else {
            h1 + 1
        };
        let k2: u64 = if qb.sqrt_is_exact(k1) {
            k1
        } else {
            k1 + 1
        };
        let ghost c_init: Q = q_max(A@, B@);
        let ghost s_init: Q = q_int(0);
        let mut C: Rat = if A.le(&B) {
            B
        } else {
            A
        };
        let mut S: Rat = Rat::from_int(0);
        let mut k: u64 = 1;
        while k < p
            invariant
                1 <= k <= p,
                (C@, S@) == spec_cs_outer(A@, B@, p as int, k as int, c_init, s_init),
                q_bounded(C@, CS_BOUND as int),
                q_bounded(S@, CS_BOUND as int),
            decreases p - k,
        {
            let ghost c_entry: Q = C@;
            let ghost s_entry: Q = S@;
            let mut h: u64 = 1;
            while h < p
                invariant
                    1 <= h <= p,
                    1 <= k < p,
                    (C@, S@) == spec_cs_inner(A@, B@, p as int, k as int, h as int, c_entry, s_entry),
                    q_bounded(C@, CS_BOUND as int),
                    q_bounded(S@, CS_BOUND as int),
                decreases p - h,
            {
                proof {
                    lemma_abs_mul_bound(A@.d, h as int, SIDE_DEN_BOUND as int, COUNT_MAX as int);
                    lemma_abs_mul_bound(B@.d, k as int, SIDE_DEN_BOUND as int, COUNT_MAX as int);
                    lemma_abs_mul_bound((h - 1) as int, (k - 1) as int, COUNT_MAX as int, COUNT_MAX as int);
                    lemma_abs_mul_bound((h + 1) as int, (k + 1) as int, COUNT_MAX as int + 1, COUNT_MAX as int + 1);
                }
                let ah: Rat = A.div_int(h);
                let bk: Rat = B.div_int(k);
                let ghost c0: Q = C@;
                let ghost s0: Q = S@;
                if (h - 1) * (k - 1) < p {
                    let ci: Rat = if ah.le(&bk) {
                        bk
                    } else {
                        ah
                    };
                    if !C.le(&ci) {
                        C = ci;
                    }
                }
                if p < (h + 1) * (k + 1) {
                    let si: Rat = if ah.le(&bk) {
                        ah
                    } else {
                        bk
                    };
                    if S.le(&si) {
                        S = si;
                    }
                }
                proof {
                    assert((C@, S@) == spec_cs_step(A@, B@, p as int, h as int, k as int, c0, s0));
                }
                h = h + 1;
            }
            k = k + 1;
        }
        KongMountRoscoeValues { p, h1, h2, k1, k2, A, B, C, S }
    }
}

/// Mathematical value of a selector outcome: split into `count` rows
/// (`row` true) or `count` columns (`row` false).
pub ghost struct QSplit {
    pub row: bool,
    pub count: int,
}

/// Outcome of the case selector: split the domain into the carried number
/// of rows of equal height, or of columns of equal width.
#[derive(Clone, Copy, Debug, PartialEq, Eq, Structural)]
pub enum Decomposition {
    Row(u64),
    Col(u64),
}

impl View for Decomposition {
    type V = QSplit;

    open spec fn view(&self) -> QSplit {
        match self {
            Decomposition::Row(h) => QSplit { row: true, count: *h as int },
            Decomposition::Col(k) => QSplit { row: false, count: *k as int },
        }
    }
}

/// The fixed rule table of the case selector, evaluated in priority order:
/// the exact-grid rule, then the four rules of the source paper's
/// Lemma 2.9, then the four boundary rules of its Lemma 2.10. `None` when
/// no rule applies (the table is not known to be exhaustive).
pub open spec fn spec_figure_out(v: QKmrValues) -> Option<QSplit> {
    let h0 = v.p / v.k2;
    let h3 = (v.p + v.k1 - 1) / v.k1;
    let k0 = v.p / v.h2;
    let k3 = (v.p + v.h1 - 1) / v.h1;
    if v.h1 == v.h2 && v.k1 == v.k2 {
        Some(QSplit { row: false, count: v.h1 })
    } else if h0 < v.h1 && q_le(q_div_int(v.B, k0), v.S) {
        Some(QSplit { row: true, count: v.h2 })
    } else if k3 > v.k2 && q_le(v.C, q_div_int(v.A, h0)) {
        Some(QSplit { row: true, count: v.h1 })
    } else if h0 < v.h1 && q_le(q_div_int(v.A, h0), v.S) {
        Some(QSplit { row: false, count: v.k2 })
    } else if h3 > v.h2 && q_le(v.C, q_div_int(v.A, h3)) {
        Some(QSplit { row: false, count: v.k1 })
    } else if h0 == v.h1 && q_le(q_div_int(v.A, v.h1), v.S) && q_le(v.C, q_div_int(v.A, v.h2)) {
        Some(QSplit { row: false, count: v.k2 })
    } else if h3 == v.h2 && q_le(q_div_int(v.A, v.h1), v.S) && q_le(v.C, q_div_int(v.A, v.h2)) {
        Some(QSplit { row: false, count: v.k1 })
    } else if k0 == v.k1 && q_le(q_div_int(v.B, v.k1), v.S) && q_le(v.C, q_div_int(v.B, v.k2)) {
        Some(QSplit { row: true, count: v.h2 })
    } else if k3 == v.k2 && q_le(q_div_int(v.B, v.k1), v.S) && q_le(v.C, q_div_int(v.B, v.k2)) {
        Some(QSplit { row: true, count: v.h1 })
    } else {
        None
    }
}

impl Decomposition {
    /// Runs the case selector on solved shape parameters.
    pub fn figure_out(values: &KongMountRoscoeValues) -> (r: Option<Decomposition>)
        requires
            kmr_values_wf(values@),
        ensures
            match r {
                Some(d) => Some(d@) == spec_figure_out(values@) && 1 <= d@.count <= values@.p,
                None => spec_figure_out(values@) is None,
            },
    {
        let p: u64 = values.p;
        let h0: u64 = p / values.k2;
        let h3: u64 = (p + values.k1 - 1) / values.k1;
        let k0: u64 = p / values.h2;
        let k3: u64 = (p + values.h1 - 1) / values.h1;
        proof {
            assert(1 <= h0 <= p && 1 <= h3 <= p && 1 <= k0 <= p && 1 <= k3 <= p) by (nonlinear_arith)
                requires
                    h0 == p as int / values@.k2,
                    h3 == (p as int + values@.k1 - 1) / values@.k1,
                    k0 == p as int / values@.h2,
                    k3 == (p as int + values@.h1 - 1) / values@.h1,
                    1 <= values@.h1 <= values@.h2 <= p as int,
                    1 <= values@.k1 <= values@.k2 <= p as int,
                    2 <= p as int,
            ;
            lemma_abs_mul_bound(values@.B.d, k0 as int, SIDE_DEN_BOUND as int, COUNT_MAX as int);
            lemma_abs_mul_bound(values@.A.d, h0 as int, SIDE_DEN_BOUND as int, COUNT_MAX as int);
            lemma_abs_mul_bound(values@.A.d, h3 as int, SIDE_DEN_BOUND as int, COUNT_MAX as int);
            lemma_abs_mul_bound(values@.A.d, values@.h1, SIDE_DEN_BOUND as int, COUNT_MAX as int);
            lemma_abs_mul_bound(values@.A.d, values@.h2, SIDE_DEN_BOUND as int, COUNT_MAX as int);
            lemma_abs_mul_bound(values@.B.d, values@.k1, SIDE_DEN_BOUND as int, COUNT_MAX as int);
            lemma_abs_mul_bound(values@.B.d, values@.k2, SIDE_DEN_BOUND as int, COUNT_MAX as int);
        }
        if values.h1 == values.h2 && values.k1 == values.k2 {
            return Some(Decomposition::Col(values.h1));
        }
        // The four rules of Lemma 2.9.
        if h0 < values.h1 && values.B.div_int(k0).le(&values.S) {
            return Some(Decomposition::Row(values.h2));
        }
        if k3 > values.k2 && values.C.le(&values.A.div_int(h0)) {
            return Some(Decomposition::Row(values.h1));
        }
        if h0 < values.h1 && values.A.div_int(h0).le(&values.S) {
            return Some(Decomposition::Col(values.k2));
        }
        if h3 > values.h2 && values.C.le(&values.A.div_int(h3)) {
            return Some(Decomposition::Col(values.k1));
        }
        // The four boundary rules of Lemma 2.10.
        if h0 == values.h1 && values.A.div_int(values.h1).le(&values.S) && values.C.le(
            &values.A.div_int(values.h2),
        ) {
            return Some(Decomposition::Col(values.k2));
        }
        if h3 == values.h2 && values.A.div_int(values.h1).le(&values.S) && values.C.le(
            &values.A.div_int(values.h2),
        ) {
            return Some(Decomposition::Col(values.k1));
        }
        if k0 == values.k1 && values.B.div_int(values.k1).le(&values.S) && values.C.le(
            &values.B.div_int(values.k2),
        ) {
            return Some(Decomposition::Row(values.h2));
        }
        if k3 == values.k2 && values.B.div_int(values.k1).le(&values.S) && values.C.le(
            &values.B.div_int(values.k2),
        ) {
            return Some(Decomposition::Row(values.h1));
        }
        None
    }
}

/// Bound on the denominator of a tile step (a side length divided by a
/// grid count).
pub const STEP_DEN_BOUND: i128 = 0x1000_0000_0000;

/// Bound on the denominator of a generated corner coordinate.
pub const COORD_DEN_BOUND: i128 = 0x1000_0000_0000_0000;

/// The tile at `(row, col)` of a grid anchored at `(x0, y0)` with column
/// width `dc` and row height `dr`.
pub open spec fn spec_tile(x0: Q, y0: Q, dc: Q, dr: Q, row: int, col: int) -> QRect {
    QRect {
        min0: q_add(x0, q_mul_int(dc, col)),
        min1: q_add(y0, q_mul_int(dr, row)),
        max0: q_add(x0, q_mul_int(dc, col + 1)),
        max1: q_add(y0, q_mul_int(dr, row + 1)),
    }
}

/// The tiles of the grid rows `row_off..row_off + n_rows` by columns
/// `col_off..col_off + n_cols`, emitted in row-major scan order.
pub open spec fn spec_grid(
    x0: Q,
    y0: Q,
    dc: Q,
    dr: Q,
    row_off: int,
    n_rows: int,
    col_off: int,
    n_cols: int,
) -> Seq<QRect> {
    Seq::new(
        (n_rows * n_cols) as nat,
        |t: int| spec_tile(x0, y0, dc, dr, row_off + t / n_cols, col_off + t % n_cols),
    )
}

fn make_tile(x0_col: &Rat, x0_row: &Rat, dx_col: &Rat, dx_row: &Rat, row: u64, col: u64) -> (c:
    Cuboid)
    requires
        q_bounds(dx_row@, SIDE_NUM_BOUND as int, STEP_DEN_BOUND as int),
        q_bounds(dx_col@, SIDE_NUM_BOUND as int, STEP_DEN_BOUND as int),
        q_bounds(x0_row@, INPUT_BOUND as int, INPUT_BOUND as int),
        q_bounds(x0_col@, INPUT_BOUND as int, INPUT_BOUND as int),
        row < COUNT_MAX,
        col < COUNT_MAX,
    ensures
        c@ == spec_tile(x0_col@, x0_row@, dx_col@, dx_row@, row as int, col as int),
        qrect_bounded(c@, OP_BOUND as int),
{
    proof {
        lemma_coord_bounds(x0_col@, dx_col@, col as int);
        lemma_coord_bounds(x0_col@, dx_col@, col as int + 1);
        lemma_coord_bounds(x0_row@, dx_row@, row as int);
        lemma_coord_bounds(x0_row@, dx_row@, row as int + 1);
    }
    let min0: Rat = x0_col.add(&dx_col.mul_int(col));
    let min1: Rat = x0_row.add(&dx_row.mul_int(row));
    let max0: Rat = x0_col.add(&dx_col.mul_int(col + 1));
    let max1: Rat = x0_row.add(&dx_row.mul_int(row + 1));
    Cuboid { min: [min0, min1], max: [max0, max1] }
}

/// A grid corner coordinate `x0 + i * dx` stays within the output bounds.
proof fn lemma_coord_bounds(x0: Q, dx: Q, i: int)
    requires
        q_bounds(dx, SIDE_NUM_BOUND as int, STEP_DEN_BOUND as int),
        q_bounds(x0, INPUT_BOUND as int, INPUT_BOUND as int),
        0 <= i <= COUNT_MAX,
    ensures
        q_bounds(q_mul_int(dx, i), OP_BOUND as int, STEP_DEN_BOUND as int),
        q_bounds(q_add(x0, q_mul_int(dx, i)), OP_BOUND as int, COORD_DEN_BOUND as int),
{
    lemma_abs_mul_bound(dx.n, i, SIDE_NUM_BOUND as int, COUNT_MAX as int);
    let s = q_mul_int(dx, i);
    lemma_abs_mul_bound(x0.n, s.d, INPUT_BOUND as int, STEP_DEN_BOUND as int);
    lemma_abs_mul_bound(s.n, x0.d, SIDE_NUM_BOUND as int * COUNT_MAX as int, INPUT_BOUND as int);
    lemma_abs_mul_bound(x0.d, s.d, INPUT_BOUND as int, STEP_DEN_BOUND as int);
    assert(x0.d * s.d >= 1) by (nonlinear_arith)
        requires
            x0.d >= 1,
            s.d >= 1,
    ;
}

/// Fills the grid rows `rows_start..rows_end` by columns
/// `cols_start..cols_end` with tiles of width `dx_col` and height
/// `dx_row`, anchored at `(x0_col, x0_row)`, in row-major scan order.
#[verifier::loop_isolation(false)]
pub fn create_rectangles(
    rows_start: u64,
    rows_end: u64,
    cols_start: u64,
    cols_end: u64,
    dx_row: &Rat,
    dx_col: &Rat,
    x0_row: &Rat,
    x0_col: &Rat,
) -> (r: Vec<Cuboid>)
    requires
        rows_start <= rows_end <= COUNT_MAX,
        cols_start <= cols_end <= COUNT_MAX,
        q_bounds(dx_row@, SIDE_NUM_BOUND as int, STEP_DEN_BOUND as int),
        q_bounds(dx_col@, SIDE_NUM_BOUND as int, STEP_DEN_BOUND as int),
        q_bounds(x0_row@, INPUT_BOUND as int, INPUT_BOUND as int),
        q_bounds(x0_col@, INPUT_BOUND as int, INPUT_BOUND as int),
    ensures
        r@.len() == (rows_end - rows_start) * (cols_end - cols_start),
        forall|t: int|
            0 <= t < r@.len() ==> r@[t]@ == spec_grid(
                x0_col@,
                x0_row@,
                dx_col@,
                dx_row@,
                rows_start as int,
                (rows_end - rows_start) as int,
                cols_start as int,
                (cols_end - cols_start) as int,
            )[t],
        forall|t: int| 0 <= t < r@.len() ==> qrect_bounded(#[trigger] r@[t]@, OP_BOUND as int),
{
    let n_cols: u64 = cols_end - cols_start;
    let ghost grid: Seq<QRect> = spec_grid(
        x0_col@,
        x0_row@,
        dx_col@,
        dx_row@,
        rows_start as int,
        (rows_end - rows_start) as int,
        cols_start as int,
        n_cols as int,
    );
    let mut r: Vec<Cuboid> = Vec::new();
    if n_cols == 0 {
        proof {
            assert(grid.len() == 0) by (nonlinear_arith)
                requires
                    grid.len() == (rows_end - rows_start) * (cols_end - cols_start),
                    cols_end == cols_start,
            ;
        }
        return r;
    }
    let mut row: u64 = rows_start;
    while row < rows_end
        invariant
            rows_start <= row <= rows_end,
            n_cols >= 1,
            r@.len() == (row - rows_start) * n_cols,
            forall|t: int| 0 <= t < r@.len() ==> r@[t]@ == grid[t],
            forall|t: int| 0 <= t < r@.len() ==> qrect_bounded(#[trigger] r@[t]@, OP_BOUND as int),
        decreases rows_end - row,
    {
        let mut col: u64 = cols_start;
        proof {
            lemma_abs_mul_bound(
                (row - rows_start) as int,
                n_cols as int,
                COUNT_MAX as int,
                COUNT_MAX as int,
            );
        }
        while col < cols_end
            invariant
                cols_start <= col <= cols_end,
                rows_start <= row < rows_end,
                r@.len() == (row - rows_start) * n_cols + (col - cols_start),
                forall|t: int| 0 <= t < r@.len() ==> r@[t]@ == grid[t],
                forall|t: int|
                    0 <= t < r@.len() ==> qrect_bounded(#[trigger] r@[t]@, OP_BOUND as int),
            decreases cols_end - col,
        {
            let tile: Cuboid = make_tile(x0_col, x0_row, dx_col, dx_row, row, col);
            proof {
                let t = r@.len() as int;
                lemma_fundamental_div_mod_converse(
                    t,
                    n_cols as int,
                    (row - rows_start) as int,
                    (col - cols_start) as int,
                );
                assert(t < grid.len()) by (nonlinear_arith)
                    requires
                        t == (row - rows_start) * (n_cols as int) + (col - cols_start),
                        grid.len() == (rows_end - rows_start) * (n_cols as int),
                        rows_start <= row < rows_end,
                        cols_start <= col < cols_end,
                        n_cols == cols_end - cols_start,
                ;
                assert(grid[t] == tile@);
            }
            r.push(tile);
            col = col + 1;
        }
        row = row + 1;
        proof {
            assert(((row - 1 - rows_start) as int) * (n_cols as int) + (n_cols as int) == ((row
                - rows_start) as int) * (n_cols as int)) by (nonlinear_arith);
        }
    }
    r
}

/// The rectangle list produced for the chosen split of a `p`-cell
/// decomposition of `rect`. A row split at `h` lays `dx_row = height/h`
/// high rows; when `h` divides `p` each row carries `p/h` equal columns,
/// otherwise the first `p mod h` rows carry `ceil(p/h)` columns and the
/// remaining rows carry `floor(p/h)` columns, each group tiling the full
/// width. A column split is the symmetric procedure.
pub open spec fn spec_generate(split: QSplit, p: int, rect: QRect) -> Seq<QRect> {
    let b = qrect_width(rect);
    let a = qrect_height(rect);
    let x0 = rect.min0;
    let y0 = rect.min1;
    if split.row {
        let h = split.count;
        let dr = q_div_int(a, h);
        if p % h == 0 {
            spec_grid(x0, y0, q_div_int(b, p / h), dr, 0, h, 0, p / h)
        } else {
            let f = p / h;
            let c = f + 1;
            let n1 = p - h * f;
            let n2 = h * c - p;
            spec_grid(x0, y0, q_div_int(b, c), dr, 0, n1, 0, c) + spec_grid(
                x0,
                y0,
                q_div_int(b, f),
                dr,
                n1,
                n2,
                0,
                f,
            )
        }
    } else {
        let kk = split.count;
        let dc = q_div_int(b, kk);
        if p % kk == 0 {
            spec_grid(x0, y0, dc, q_div_int(a, p / kk), 0, p / kk, 0, kk)
        } else {
            let f = p / kk;
            let c = f + 1;
            let n1 = p - kk * f;
            let n2 = kk * c - p;
            spec_grid(x0, y0, dc, q_div_int(a, c), 0, c, 0, n1) + spec_grid(
                x0,
                y0,
                dc,
                q_div_int(a, f),
                0,
                f,
                n1,
                n2,
            )
        }
    }
}

impl Decomposition {
    /// Produces the concrete rectangle list for this split of `rectangle`
    /// into `p` cells, in row-major (for a row split) or column-major
    /// scan order; uneven counts yield two contiguous groups of rows
    /// (columns) with differing column (row) counts.
    pub fn generate_rectangles(&self, p: u64, rectangle: &Cuboid) -> (r: Vec<Cuboid>)
        requires
            rectangle.bounded(INPUT_BOUND as int),
            2 <= p <= COUNT_MAX,
            1 <= self@.count <= p,
        ensures
            r@.len() == spec_generate(self@, p as int, rectangle@).len(),
            forall|t: int|
                0 <= t < r@.len() ==> r@[t]@ == spec_generate(self@, p as int, rectangle@)[t],
            forall|t: int| 0 <= t < r@.len() ==> qrect_bounded(#[trigger] r@[t]@, OP_BOUND as int),
    {
        proof {
            lemma_side_bounds(rectangle@);
        }
        let b: Rat = rectangle.max[0].sub(&rectangle.min[0]);
        let a: Rat = rectangle.max[1].sub(&rectangle.min[1]);
        let x0: Rat = rectangle.min[0];
        let y0: Rat = rectangle.min[1];
        match self {
            Decomposition::Row(hr) => {
                let h: u64 = *hr;
                let f: u64 = p / h;
                let dr: Rat = a.div_int(h);
                proof {
                    lemma_abs_mul_bound(a@.d, h as int, SIDE_DEN_BOUND as int, COUNT_MAX as int);
                    lemma_group_counts(p as int, h as int);
                }
                if p % h == 0 {
                    proof {
                        lemma_abs_mul_bound(
                            b@.d,
                            f as int,
                            SIDE_DEN_BOUND as int,
                            COUNT_MAX as int,
                        );
                    }
                    let dc: Rat = b.div_int(f);
                    create_rectangles(0, h, 0, f, &dr, &dc, &y0, &x0)
                } else {
                    let c: u64 = f + 1;
                    let n1: u64 = p - h * f;
                    let n2: u64 = h * c - p;
                    proof {
                        lemma_abs_mul_bound(
                            b@.d,
                            c as int,
                            SIDE_DEN_BOUND as int,
                            COUNT_MAX as int,
                        );
                        lemma_abs_mul_bound(
                            b@.d,
                            f as int,
                            SIDE_DEN_BOUND as int,
                            COUNT_MAX as int,
                        );
                    }
                    let dc1: Rat = b.div_int(c);
                    let dc2: Rat = b.div_int(f);
                    let mut out: Vec<Cuboid> = create_rectangles(0, n1, 0, c, &dr, &dc1, &y0, &x0);
                    let mut out2: Vec<Cuboid> = create_rectangles(n1, h, 0, f, &dr, &dc2, &y0, &x0);
                    out.append(&mut out2);
                    out
                }
            }
            Decomposition::Col(kc) => {
                let kk: u64 = *kc;
                let f: u64 = p / kk;
                let dc: Rat = b.div_int(kk);
                proof {
                    lemma_abs_mul_bound(b@.d, kk as int, SIDE_DEN_BOUND as int, COUNT_MAX as int);
                    lemma_group_counts(p as int, kk as int);
                }
                if p % kk == 0 {
                    proof {
                        lemma_abs_mul_bound(
                            a@.d,
                            f as int,
                            SIDE_DEN_BOUND as int,
                            COUNT_MAX as int,
                        );
                    }
                    let dr: Rat = a.div_int(f);
                    create_rectangles(0, f, 0, kk, &dr, &dc, &y0, &x0)
                } else {
                    let c: u64 = f + 1;
                    let n1: u64 = p - kk * f;
                    let n2: u64 = kk * c - p;
                    proof {
                        lemma_abs_mul_bound(
                            a@.d,
                            c as int,
                            SIDE_DEN_BOUND as int,
                            COUNT_MAX as int,
                        );
                        lemma_abs_mul_bound(
                            a@.d,
                            f as int,
                            SIDE_DEN_BOUND as int,
                            COUNT_MAX as int,
                        );
                    }
                    let dr1: Rat = a.div_int(c);
                    let dr2: Rat = a.div_int(f);
                    let mut out: Vec<Cuboid> = create_rectangles(0, c, 0, n1, &dr1, &dc, &y0, &x0);
                    let mut out2: Vec<Cuboid> = create_rectangles(
                        0,
                        f,
                        n1,
                        n1 + n2,
                        &dr2,
                        &dc,
                        &y0,
                        &x0,
                    );
                    out.append(&mut out2);
                    out
                }
            }
        }
    }
}

/// The uniform one-dimensional split of `rect` into `p` equal strips
/// along its longer axis (the shortcut for elongated domains).
pub open spec fn spec_strips(rect: QRect, p: int) -> Seq<QRect> {
    let b = qrect_width(rect);
    let a = qrect_height(rect);
    if q_le(a, b) {
        let dx = q_div_int(b, p);
        Seq::new(
            p as nat,
            |n: int|
                QRect {
                    min0: q_add(rect.min0, q_mul_int(dx, n)),
                    min1: rect.min1,
                    max0: q_add(rect.min0, q_mul_int(dx, n + 1)),
                    max1: rect.max1,
                },
        )
    } else {
        let dx = q_div_int(a, p);
        Seq::new(
            p as nat,
            |n: int|
                QRect {
                    min0: rect.min0,
                    min1: q_add(rect.min1, q_mul_int(dx, n)),
                    max0: rect.max0,
                    max1: q_add(rect.min1, q_mul_int(dx, n + 1)),
                },
        )
    }
}

/// The whole decomposition of `rect` into `p` subdomains: the single
/// rectangle itself for `p == 1`; `p` equal strips along the longer axis
/// when `p` does not exceed the aspect ratio; otherwise the solved and
/// selected near-square tiling, or `None` when no selector rule applies.
pub open spec fn spec_kmr_decompose(rect: QRect, p: int) -> Option<Seq<QRect>> {
    if p == 1 {
        Some(seq![rect])
    } else {
        let b = qrect_width(rect);
        let a = qrect_height(rect);
        if q_le(q_int(p), q_max(q_div(b, a), q_div(a, b))) {
            Some(spec_strips(rect, p))
        } else {
            match spec_figure_out(spec_calculate(a, b, p)) {
                Some(split) => Some(spec_generate(split, p, rect)),
                None => None,
            }
        }
    }
}

/// The elongation test `p <= max(b/a, a/b)` equals the pair of linear
/// tests `p * a <= b` or `p * b <= a`, for positive sides.
proof fn lemma_ratio_test(a: Q, b: Q, p: int)
    requires
        q_wf(a),
        q_wf(b),
        q_pos(a),
        q_pos(b),
        p >= 1,
    ensures
        q_le(q_int(p), q_max(q_div(b, a), q_div(a, b))) == (q_le(q_mul(q_int(p), a), b) || q_le(
            q_mul(q_int(p), b),
            a,
        )),
        !q_le(q_int(p), q_max(q_div(b, a), q_div(a, b))) ==> q_lt(q_div(a, b), q_int(p)) && q_lt(
            q_div(b, a),
            q_int(p),
        ),
{
    assert(q_le(q_int(p), q_div(b, a)) == q_le(q_mul(q_int(p), a), b)) by (nonlinear_arith)
        requires
            a.d >= 1,
            b.d >= 1,
            a.n >= 1,
            b.n >= 1,
    ;
    assert(q_le(q_int(p), q_div(a, b)) == q_le(q_mul(q_int(p), b), a)) by (nonlinear_arith)
        requires
            a.d >= 1,
            b.d >= 1,
            a.n >= 1,
            b.n >= 1,
    ;
    let m = q_max(q_div(b, a), q_div(a, b));
    assert(q_le(q_int(p), m) == (q_le(q_int(p), q_div(b, a)) || q_le(q_int(p), q_div(a, b))))
        by (nonlinear_arith)
        requires
            a.d >= 1,
            b.d >= 1,
            a.n >= 1,
            b.n >= 1,
            m == q_max(q_div(b, a), q_div(a, b)),
    ;
    assert(!q_le(q_int(p), m) ==> q_lt(q_div(a, b), q_int(p)) && q_lt(q_div(b, a), q_int(p)))
        by (nonlinear_arith)
        requires
            a.d >= 1,
            b.d >= 1,
            a.n >= 1,
            b.n >= 1,
            m == q_max(q_div(b, a), q_div(a, b)),
    ;
}

/// Partitions a rectangle into `n_subdomains` smaller rectangles, minimizing
/// the maximum subdomain perimeter, after Kong, Mount and Roscoe.
///
/// A count of 1 returns the rectangle unchanged; a count not exceeding the
/// aspect ratio of an elongated rectangle yields equal strips along the
/// longer axis; otherwise the near-square tiling search runs, and fails
/// with [`Error::Decompose`] when none of its case rules applies.
#[verifier::loop_isolation(false)]
pub fn kmr_decompose(rectangle: &Cuboid, n_subdomains: usize) -> (r: Result<Vec<Cuboid>, Error>)
    requires
        rectangle.bounded(INPUT_BOUND as int),
        qrect_ordered(rectangle@),
        1 <= n_subdomains <= COUNT_MAX,
        n_subdomains == 1 || (q_pos(qrect_width(rectangle@)) && q_pos(qrect_height(rectangle@))),
    ensures
        match r {
            Ok(v) => {
                &&& spec_kmr_decompose(rectangle@, n_subdomains as int) == Some(rects_view(v@))
                &&& v@.len() == n_subdomains
                &&& forall|i: int|
                    0 <= i < v@.len() ==> qrect_bounded(#[trigger] v@[i]@, OP_BOUND as int)
                &&& forall|i: int|
                    0 <= i < v@.len() ==> qrect_contained_in(#[trigger] v@[i]@, rectangle@)
                &&& forall|i: int, j: int|
                    0 <= i < v@.len() && 0 <= j < v@.len() && i != j ==> qrect_interiors_disjoint(
                        #[trigger] v@[i]@,
                        #[trigger] v@[j]@,
                    )
                &&& q_eqv(v@[0]@.min0, rectangle@.min0)
                &&& q_eqv(v@[0]@.min1, rectangle@.min1)
                &&& q_eqv(v@[v@.len() - 1]@.max0, rectangle@.max0)
                &&& q_eqv(v@[v@.len() - 1]@.max1, rectangle@.max1)
                &&& q_eqv(spec_area_sum(rects_view(v@)), qrect_area(rectangle@))
            },
            Err(e) => {
                &&& e == Error::Decompose
                &&& spec_kmr_decompose(rectangle@, n_subdomains as int) is None
            },
        },
{
    if n_subdomains == 1 {
        let mut v: Vec<Cuboid> = Vec::new();
        v.push(rectangle.clone());
        proof {
            assert(rects_view(v@) =~= seq![rectangle@]);
            lemma_decompose_post(*rectangle, n_subdomains as int, v);
        }
        return Ok(v);
    }
    let p: u64 = n_subdomains as u64;
    proof {
        lemma_side_bounds(rectangle@);
    }
    let b: Rat = rectangle.max[0].sub(&rectangle.min[0]);
    let a: Rat = rectangle.max[1].sub(&rectangle.min[1]);
    let pr: Rat = Rat::from_int(n_subdomains as i64);
    proof {
        lemma_ratio_test(a@, b@, p as int);
        lemma_abs_mul_bound(p as int, a@.n, COUNT_MAX as int, SIDE_NUM_BOUND as int);
        lemma_abs_mul_bound(p as int, b@.n, COUNT_MAX as int, SIDE_NUM_BOUND as int);
    }
    if pr.mul(&a).le(&b) || pr.mul(&b).le(&a) {
        // Elongated domain: uniform strips along the longer axis.
        let ghost strips: Seq<QRect> = spec_strips(rectangle@, p as int);
        let along0: bool = a.le(&b);
        let dx: Rat = if along0 {
            b.div_int(p)
        } else {
            a.div_int(p)
        };
        proof {
            lemma_abs_mul_bound(b@.d, p as int, SIDE_DEN_BOUND as int, COUNT_MAX as int);
            lemma_abs_mul_bound(a@.d, p as int, SIDE_DEN_BOUND as int, COUNT_MAX as int);
        }
        let mut v: Vec<Cuboid> = Vec::new();
        let mut n: u64 = 0;
        while n < p
            invariant
                n <= p,
                v@.len() == n,
                forall|i: int| 0 <= i < n ==> v@[i]@ == strips[i],
                forall|i: int| 0 <= i < n ==> qrect_bounded(#[trigger] v@[i]@, OP_BOUND as int),
            decreases p - n,
        {
            proof {
                if along0 {
                    lemma_coord_bounds(rectangle@.min0, dx@, n as int);
                    lemma_coord_bounds(rectangle@.min0, dx@, n as int + 1);
                } else {
                    lemma_coord_bounds(rectangle@.min1, dx@, n as int);
                    lemma_coord_bounds(rectangle@.min1, dx@, n as int + 1);
                }
            }
            let tile: Cuboid = if along0 {
                Cuboid {
                    min: [rectangle.min[0].add(&dx.mul_int(n)), rectangle.min[1]],
                    max: [rectangle.min[0].add(&dx.mul_int(n + 1)), rectangle.max[1]],
                }
            } else {
                Cuboid {
                    min: [rectangle.min[0], rectangle.min[1].add(&dx.mul_int(n))],
                    max: [rectangle.max[0], rectangle.min[1].add(&dx.mul_int(n + 1))],
                }
            };
            v.push(tile);
            n = n + 1;
        }
        proof {
            assert(rects_view(v@) =~= strips);
            lemma_decompose_post(*rectangle, n_subdomains as int, v);
        }
        return Ok(v);
    }
    let values: KongMountRoscoeValues = KongMountRoscoeValues::calculate(a, b, n_subdomains);
    match Decomposition::figure_out(&values) {
        Some(d) => {
            let v: Vec<Cuboid> = d.generate_rectangles(p, rectangle);
            proof {
                assert(rects_view(v@) =~= spec_generate(d@, p as int, rectangle@));
                lemma_decompose_post(*rectangle, n_subdomains as int, v);
            }
            Ok(v)
        },
        None => Err(Error::Decompose),
    }
}

/// Returned from decomposition methods.
pub type DecomposedDomain = Vec<Rectangle>;

/// Returned from digitization methods: one entry per subdomain, in
/// decomposition order, holding the digits assigned to it in input order.
pub type SortedDigits<I> = Vec<(Rectangle, Vec<(I, Rectangle)>)>;

/// `j` is the index of the first subdomain of `subs` whose closed box
/// contains the centroid of `d`.
pub open spec fn spec_assigned(subs: Seq<QRect>, d: QRect, j: int) -> bool {
    &&& 0 <= j < subs.len()
    &&& qrect_contains_mid(subs[j], d)
    &&& forall|i: int| 0 <= i < j ==> !qrect_contains_mid(#[trigger] subs[i], d)
}

/// No subdomain of `subs` contains the centroid of `d`.
pub open spec fn spec_no_home(subs: Seq<QRect>, d: QRect) -> bool {
    forall|j: int| 0 <= j < subs.len() ==> !qrect_contains_mid(#[trigger] subs[j], d)
}

/// Some subdomain of `subs` contains the centroid of `d`.
pub open spec fn spec_has_home(subs: Seq<QRect>, d: QRect) -> bool {
    exists|j: int| 0 <= j < subs.len() && qrect_contains_mid(#[trigger] subs[j], d)
}

/// The digits of `digits` assigned to subdomain `j` of `subs`, in input
/// order.
pub open spec fn spec_bucket<I>(digits: Seq<(I, Cuboid)>, subs: Seq<QRect>, j: int) -> Seq<
    (I, Cuboid),
>
    decreases digits.len(),
{
    if digits.len() == 0 {
        Seq::empty()
    } else {
        let front = spec_bucket(digits.drop_last(), subs, j);
        if spec_assigned(subs, digits.last().1@, j) {
            front.push(digits.last())
        } else {
            front
        }
    }
}

/// Returns the index of the first subdomain whose closed box contains the
/// centroid of `subspace`, or [`Error::Indexing`] when no subdomain does.
#[verifier::loop_isolation(false)]
pub fn kmr_digitize_1_single(decomposed_domain: &DecomposedDomain, subspace: &Cuboid) -> (r:
    Result<usize, Error>)
    requires
        forall|i: int|
            0 <= i < decomposed_domain@.len() ==> qrect_bounded(
                (#[trigger] decomposed_domain@[i])@,
                OP_BOUND as int,
            ),
        qrect_bounded(subspace@, DIGIT_BOUND as int),
    ensures
        match r {
            Ok(i) => spec_assigned(rects_view(decomposed_domain@), subspace@, i as int),
            Err(e) => e == Error::Indexing && spec_no_home(
                rects_view(decomposed_domain@),
                subspace@,
            ),
        },
{
    proof {
        lemma_abs_mul_bound(subspace@.min0.n, subspace@.max0.d, DIGIT_BOUND as int, DIGIT_BOUND as int);
        lemma_abs_mul_bound(subspace@.max0.n, subspace@.min0.d, DIGIT_BOUND as int, DIGIT_BOUND as int);
        lemma_abs_mul_bound(subspace@.min0.d, subspace@.max0.d, DIGIT_BOUND as int, DIGIT_BOUND as int);
        lemma_abs_mul_bound(subspace@.min1.n, subspace@.max1.d, DIGIT_BOUND as int, DIGIT_BOUND as int);
        lemma_abs_mul_bound(subspace@.max1.n, subspace@.min1.d, DIGIT_BOUND as int, DIGIT_BOUND as int);
        lemma_abs_mul_bound(subspace@.min1.d, subspace@.max1.d, DIGIT_BOUND as int, DIGIT_BOUND as int);
    }
    let middle0: Rat = subspace.min[0].add(&subspace.max[0]).div_int(2);
    let middle1: Rat = subspace.min[1].add(&subspace.max[1]).div_int(2);
    let ghost subs: Seq<QRect> = rects_view(decomposed_domain@);
    let mut n: usize = 0;
    while n < decomposed_domain.len()
        invariant
            n <= decomposed_domain@.len(),
            middle0@ == qrect_mid0(subspace@),
            middle1@ == qrect_mid1(subspace@),
            q_bounded(middle0@, OP_BOUND as int),
            q_bounded(middle1@, OP_BOUND as int),
            forall|i: int| 0 <= i < n ==> !qrect_contains_mid(#[trigger] subs[i], subspace@),
        decreases decomposed_domain@.len() - n,
    {
        let subdomain: &Cuboid = &decomposed_domain[n];
        if middle0.le(&subdomain.max[0]) && middle1.le(&subdomain.max[1]) && subdomain.min[0].le(
            &middle0,
        ) && subdomain.min[1].le(&middle1) {
            return Ok(n);
        }
        n = n + 1;
    }
    Err(Error::Indexing)
}

/// Assigns each given digit to the subdomain of the decomposition of
/// `rectangle` into `n_subdomains` cells whose closed box contains the
/// digit's centroid, preserving the input order within each bucket. Fails
/// with [`Error::Decompose`] when the decomposition fails and with
/// [`Error::Indexing`] when some digit's centroid lies outside every
/// subdomain; no partial grouping is returned.
#[verifier::loop_isolation(false)]
pub fn kmr_digitize_1<I>(
    rectangle: &Cuboid,
    n_subdomains: usize,
    digits: Vec<(I, Cuboid)>,
) -> (r: Result<SortedDigits<I>, Error>)
    requires
        rectangle.bounded(INPUT_BOUND as int),
        qrect_ordered(rectangle@),
        1 <= n_subdomains <= COUNT_MAX,
        n_subdomains == 1 || (q_pos(qrect_width(rectangle@)) && q_pos(qrect_height(rectangle@))),
        forall|i: int|
            0 <= i < digits@.len() ==> qrect_bounded((#[trigger] digits@[i].1)@, DIGIT_BOUND as int),
    ensures
        match r {
            Ok(v) => match spec_kmr_decompose(rectangle@, n_subdomains as int) {
                Some(subs) => {
                    &&& v@.len() == n_subdomains
                    &&& v@.len() == subs.len()
                    &&& forall|j: int| 0 <= j < subs.len() ==> (#[trigger] v@[j].0)@ == subs[j]
                    &&& forall|j: int|
                        0 <= j < subs.len() ==> (#[trigger] v@[j].1)@ == spec_bucket(
                            digits@,
                            subs,
                            j,
                        )
                    &&& forall|i: int|
                        0 <= i < digits@.len() ==> spec_has_home(subs, (#[trigger] digits@[i].1)@)
                },
                None => false,
            },
            Err(e) => {
                if e == Error::Decompose {
                    spec_kmr_decompose(rectangle@, n_subdomains as int) is None
                } else {
                    &&& e == Error::Indexing
                    &&& match spec_kmr_decompose(rectangle@, n_subdomains as int) {
                        Some(subs) => exists|i: int|
                            0 <= i < digits@.len() && spec_no_home(subs, #[trigger] digits@[i].1@),
                        None => false,
                    }
                }
            },
        },
{
    let subdomains: Vec<Cuboid> = match kmr_decompose(rectangle, n_subdomains) {
        Ok(v) => v,
        Err(e) => {
            return Err(e);
        },
    };
    let ghost subs: Seq<QRect> = rects_view(subdomains@);
    let mut res: SortedDigits<I> = Vec::new();
    let mut j: usize = 0;
    while j < subdomains.len()
        invariant
            j <= subdomains@.len(),
            res@.len() == j,
            forall|t: int| 0 <= t < j ==> (#[trigger] res@[t].0) == subdomains@[t],
            forall|t: int| 0 <= t < j ==> (#[trigger] res@[t].1)@ =~= Seq::<(I, Cuboid)>::empty(),
        decreases subdomains@.len() - j,
    {
        let empty_bucket: Vec<(I, Cuboid)> = Vec::new();
        res.push((subdomains[j].clone(), empty_bucket));
        j = j + 1;
    }
    let ghost all_digits: Seq<(I, Cuboid)> = digits@;
    let mut remaining: Vec<(I, Cuboid)> = digits;
    let ghost done: int = 0;
    proof {
        assert(all_digits.take(0) =~= Seq::<(I, Cuboid)>::empty());
        assert forall|t: int| 0 <= t < res@.len() implies (#[trigger] res@[t].1)@ == spec_bucket(
            all_digits.take(0),
            subs,
            t,
        ) by {
            assert(spec_bucket(all_digits.take(0), subs, t) =~= Seq::<(I, Cuboid)>::empty());
        }
    }
    while remaining.len() > 0
        invariant
            0 <= done <= all_digits.len(),
            remaining@ =~= all_digits.skip(done),
            res@.len() == subs.len(),
            forall|t: int| 0 <= t < res@.len() ==> (#[trigger] res@[t].0)@ == subs[t],
            forall|t: int|
                0 <= t < res@.len() ==> (#[trigger] res@[t].1)@ == spec_bucket(
                    all_digits.take(done),
                    subs,
                    t,
                ),
            forall|i: int|
                0 <= i < all_digits.len() ==> qrect_bounded(
                    (#[trigger] all_digits[i].1)@,
                    DIGIT_BOUND as int,
                ),
            forall|i: int|
                0 <= i < subdomains@.len() ==> qrect_bounded(
                    (#[trigger] subdomains@[i])@,
                    OP_BOUND as int,
                ),
            subs == rects_view(subdomains@),
            forall|i: int| 0 <= i < done ==> spec_has_home(subs, (#[trigger] all_digits[i].1)@),
        decreases remaining@.len(),
    {
        let pair: (I, Cuboid) = remaining.remove(0);
        proof {
            assert(all_digits.skip(done).len() > 0);
            assert(pair == all_digits[done]);
            assert(remaining@ =~= all_digits.skip(done + 1));
        }
        let index: usize = match kmr_digitize_1_single(&subdomains, &pair.1) {
            Ok(i) => i,
            Err(e) => {
                proof {
                    assert(spec_no_home(subs, all_digits[done].1@));
                }
                return Err(e);
            },
        };
        proof {
            assert(qrect_contains_mid(subs[index as int], all_digits[done].1@));
            assert(spec_has_home(subs, all_digits[done].1@));
        }
        let mut entry: (Cuboid, Vec<(I, Cuboid)>) = res.remove(index);
        entry.1.push(pair);
        res.insert(index, entry);
        proof {
            let prev = all_digits.take(done);
            let cur = all_digits.take(done + 1);
            assert(cur.drop_last() =~= prev);
            assert(cur.last() == all_digits[done]);
            assert forall|t: int| 0 <= t < res@.len() implies (#[trigger] res@[t].1)@
                == spec_bucket(cur, subs, t) by {
                if t == index {
                    assert(spec_assigned(subs, cur.last().1@, t));
                } else {
                    if t > index as int {
                        assert(qrect_contains_mid(subs[index as int], cur.last().1@));
                        assert(!spec_assigned(subs, cur.last().1@, t));
                    } else {
                        assert(!qrect_contains_mid(subs[t], cur.last().1@));
                        assert(!spec_assigned(subs, cur.last().1@, t));
                    }
                }
            }
            done = done + 1;
        }
    }
    proof {
        assert(all_digits.skip(done).len() == 0);
        assert(done == all_digits.len());
        assert(all_digits.take(done) =~= all_digits);
        crate::laws::lemma_decompose_count(rectangle@, n_subdomains as int);
    }
    Ok(res)
}

/// Transfers the decomposition guarantees from the mathematical model to
/// a result vector pinned to it.
proof fn lemma_decompose_post(rect: Cuboid, p: int, v: Vec<Cuboid>)
    requires
        rect.bounded(INPUT_BOUND as int),
        qrect_ordered(rect@),
        1 <= p <= COUNT_MAX as int,
        p == 1 || (q_pos(qrect_width(rect@)) && q_pos(qrect_height(rect@))),
        spec_kmr_decompose(rect@, p) == Some(rects_view(v@)),
    ensures
        v@.len() == p,
        forall|i: int| 0 <= i < v@.len() ==> qrect_contained_in(#[trigger] v@[i]@, rect@),
        forall|i: int, j: int|
            0 <= i < v@.len() && 0 <= j < v@.len() && i != j ==> qrect_interiors_disjoint(
                #[trigger] v@[i]@,
                #[trigger] v@[j]@,
            ),
        q_eqv(v@[0]@.min0, rect@.min0),
        q_eqv(v@[0]@.min1, rect@.min1),
        q_eqv(v@[v@.len() - 1]@.max0, rect@.max0),
        q_eqv(v@[v@.len() - 1]@.max1, rect@.max1),
        q_eqv(spec_area_sum(rects_view(v@)), qrect_area(rect@)),
{
    crate::laws::lemma_decompose_guarantees(rect@, p);
    let s = rects_view(v@);
    assert(s.len() == v@.len());
    assert(forall|i: int| 0 <= i < v@.len() ==> s[i] == (#[trigger] v@[i])@);
    assert(s[0] == v@[0]@);
    assert(s[s.len() - 1] == v@[v@.len() - 1]@);
}

/// The side lengths of an `INPUT_BOUND`-bounded rectangle are bounded.
proof fn lemma_side_bounds(r: QRect)
    requires
        qrect_bounded(r, INPUT_BOUND as int),
    ensures
        q_bounds(q_sub(r.max0, r.min0), SIDE_NUM_BOUND as int, SIDE_DEN_BOUND as int),
        q_bounds(q_sub(r.max1, r.min1), SIDE_NUM_BOUND as int, SIDE_DEN_BOUND as int),
{
    lemma_abs_mul_bound(r.max0.n, r.min0.d, INPUT_BOUND as int, INPUT_BOUND as int);
    lemma_abs_mul_bound(r.min0.n, r.max0.d, INPUT_BOUND as int, INPUT_BOUND as int);
    lemma_abs_mul_bound(r.max0.d, r.min0.d, INPUT_BOUND as int, INPUT_BOUND as int);
    lemma_abs_mul_bound(r.max1.n, r.min1.d, INPUT_BOUND as int, INPUT_BOUND as int);
    lemma_abs_mul_bound(r.min1.n, r.max1.d, INPUT_BOUND as int, INPUT_BOUND as int);
    lemma_abs_mul_bound(r.max1.d, r.min1.d, INPUT_BOUND as int, INPUT_BOUND as int);
    assert(r.max0.d * r.min0.d >= 1 && r.max1.d * r.min1.d >= 1) by (nonlinear_arith)
        requires
            r.max0.d >= 1,
            r.min0.d >= 1,
            r.max1.d >= 1,
            r.min1.d >= 1,
    ;
}

/// Row-group counts for distributing `p` cells over `g` stripes:
/// `p mod g` stripes of `floor(p/g) + 1` cells and the rest of
/// `floor(p/g)` cells, with all counts within range.
proof fn lemma_group_counts(p: int, g: int)
    requires
        1 <= g <= p,
        p <= COUNT_MAX as int,
    ensures
        1 <= p / g,
        g * (p / g) <= p,
        p % g == p - g * (p / g),
        p % g != 0 ==> 1 <= p - g * (p / g) <= g - 1,
        p % g != 0 ==> 1 <= g * (p / g + 1) - p <= g - 1,
        p % g != 0 ==> g * (p / g + 1) - p == g - (p - g * (p / g)),
        p % g != 0 ==> p / g + 1 <= p,
        p % g == 0 ==> g * (p / g) == p,
        p / g <= p,
{
    vstd::arithmetic::div_mod::lemma_fundamental_div_mod(p, g);
    assert(1 <= p / g && p / g <= p && (p % g != 0 ==> p / g + 1 <= p)) by (nonlinear_arith)
        requires
            1 <= g <= p,
            p == g * (p / g) + p % g,
            0 <= p % g < g,
    ;
    assert(g * (p / g) <= p && (p % g == 0 ==> g * (p / g) == p) && p % g == p - g * (p / g))
        by (nonlinear_arith)
        requires
            1 <= g <= p,
            p == g * (p / g) + p % g,
            0 <= p % g < g,
    ;
    assert(p % g != 0 ==> (1 <= p - g * (p / g) <= g - 1 && 1 <= g * (p / g + 1) - p <= g - 1 && g
        * (p / g + 1) - p == g - (p - g * (p / g)))) by (nonlinear_arith)
        requires
            1 <= g <= p,
            p == g * (p / g) + p % g,
            0 <= p % g < g,
    ;
}

} // verus!
