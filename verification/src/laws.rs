//! The laws of the decomposition: counts, determinism, identity,
//! disjointness and coverage of the generated subdomains, stated over the
//! mathematical model and proved once for every accepted input.

use vstd::prelude::*;

use crate::rat::{Q, q_wf, q_int, q_div, q_mul_int, q_div_int, q_add, q_sub, q_mul};
use crate::rat::{q_le, q_lt, q_eqv, q_pos, q_max};
use crate::rat::{sqrt_floor_cap, lemma_sqrt_floor_cap_props};
use crate::rat::{lemma_q_eqv_trans, lemma_q_add_congr, lemma_q_mul_congr};
use crate::rat::{lemma_q_le_eqv_left, lemma_q_le_eqv_right};
use crate::{qrect_area, qrect_contained_in, qrect_interiors_disjoint, qrect_contains_mid};
use vstd::arithmetic::mul::lemma_mul_is_distributive_add_other_way;
use crate::{Cuboid, QRect, qrect_wf, qrect_ordered, qrect_width, qrect_height, rects_view};
use crate::kong_mount_roscoe::{COUNT_MAX, spec_kmr_decompose, spec_calculate, spec_figure_out};
use crate::kong_mount_roscoe::{spec_generate, spec_grid, spec_strips, spec_tile, QSplit};
use crate::kong_mount_roscoe::{spec_cs_inner, spec_cs_outer, spec_assigned, spec_bucket, spec_has_home};
use crate::rat::{q_min, lemma_q_le_trans, lemma_q_min_props, lemma_q_max_props};

verus! {

/// The inputs on which the decomposition is defined: a well-formed ordered
/// rectangle and a count in range, with strictly positive sides unless the
/// count is one.
pub open spec fn decompose_pre(rect: QRect, p: int) -> bool {
    &&& qrect_wf(rect)
    &&& qrect_ordered(rect)
    &&& 1 <= p <= COUNT_MAX as int
    &&& p == 1 || (q_pos(qrect_width(rect)) && q_pos(qrect_height(rect)))
}

/// The solved brackets lie in `[1, p]` whenever the count strictly
/// exceeds both aspect ratios.
proof fn lemma_calculate_brackets(a: Q, b: Q, p: int)
    requires
        q_wf(a),
        q_wf(b),
        q_pos(a),
        q_pos(b),
        p >= 2,
        q_lt(q_div(a, b), q_int(p)),
        q_lt(q_div(b, a), q_int(p)),
    ensures
        1 <= spec_calculate(a, b, p).h1 <= spec_calculate(a, b, p).h2 <= p,
        1 <= spec_calculate(a, b, p).k1 <= spec_calculate(a, b, p).k2 <= p,
{
    let qa = q_div(q_mul_int(a, p), b);
    let qb = q_div(q_mul_int(b, p), a);
    assert(1 <= qa.d <= qa.n && qa.n < (p * p) * qa.d) by (nonlinear_arith)
        requires
            qa == q_div(q_mul_int(a, p), b),
            b.n * a.d < p * (b.d * a.n),
            a.n * b.d < p * (a.d * b.n),
            p >= 2,
            a.n >= 1,
            b.n >= 1,
            a.d >= 1,
            b.d >= 1,
    ;
    assert(1 <= qb.d <= qb.n && qb.n < (p * p) * qb.d) by (nonlinear_arith)
        requires
            qb == q_div(q_mul_int(b, p), a),
            b.n * a.d < p * (b.d * a.n),
            a.n * b.d < p * (a.d * b.n),
            p >= 2,
            a.n >= 1,
            b.n >= 1,
            a.d >= 1,
            b.d >= 1,
    ;
    lemma_sqrt_floor_cap_props(qa.n, qa.d, p);
    lemma_sqrt_floor_cap_props(qb.n, qb.d, p);
    let h1 = sqrt_floor_cap(qa.n, qa.d, p);
    let k1 = sqrt_floor_cap(qb.n, qb.d, p);
    if h1 == 0 {
        assert((1 * 1) * qa.d > qa.n);
        assert(false);
    }
    if h1 == p {
        assert((p * p) * qa.d <= qa.n) by (nonlinear_arith)
            requires
                h1 == p,
                h1 * h1 * qa.d <= qa.n,
        ;
        assert(false);
    }
    if k1 == 0 {
        assert((1 * 1) * qb.d > qb.n);
        assert(false);
    }
    if k1 == p {
        assert((p * p) * qb.d <= qb.n) by (nonlinear_arith)
            requires
                k1 == p,
                k1 * k1 * qb.d <= qb.n,
        ;
        assert(false);
    }
}

/// Row-group counts: the uneven distribution of `p` cells over `g`
/// stripes fills every stripe and realizes exactly `p` cells.
proof fn lemma_split_counts(p: int, g: int)
    requires
        1 <= g <= p,
    ensures
        1 <= p / g <= p,
        p % g == 0 ==> g * (p / g) == p,
        p % g != 0 ==> {
            let f = p / g;
            let n1 = p - g * f;
            let n2 = g * (f + 1) - p;
            &&& 1 <= n1 <= g - 1
            &&& 1 <= n2 <= g - 1
            &&& n1 + n2 == g
            &&& n1 * (f + 1) + n2 * f == p
            &&& f + 1 <= p
        },
{
    vstd::arithmetic::div_mod::lemma_fundamental_div_mod(p, g);
    assert((1 <= p / g <= p) && (p % g == 0 ==> g * (p / g) == p) && (p % g != 0 ==> {
        let f = p / g;
        let n1 = p - g * f;
        let n2 = g * (f + 1) - p;
        1 <= n1 <= g - 1 && 1 <= n2 <= g - 1 && n1 + n2 == g && n1 * (f + 1) + n2 * f == p && f + 1
            <= p
    })) by (nonlinear_arith)
        requires
            1 <= g <= p,
            p == g * (p / g) + p % g,
            0 <= p % g < g,
    ;
}

/// The chosen split of the case selector names a count in `[1, p]`.
proof fn lemma_split_in_range(rect: QRect, p: int)
    requires
        decompose_pre(rect, p),
        p >= 2,
        !q_le(q_int(p), q_max(q_div(qrect_width(rect), qrect_height(rect)), q_div(qrect_height(rect), qrect_width(rect)))),
    ensures
        match spec_figure_out(spec_calculate(qrect_height(rect), qrect_width(rect), p)) {
            Some(split) => 1 <= split.count <= p,
            None => true,
        },
{
    let a = qrect_height(rect);
    let b = qrect_width(rect);
    let m = q_max(q_div(b, a), q_div(a, b));
    assert(a.d >= 1 && b.d >= 1) by (nonlinear_arith)
        requires
            a.d == rect.max1.d * rect.min1.d,
            b.d == rect.max0.d * rect.min0.d,
            rect.max1.d >= 1,
            rect.min1.d >= 1,
            rect.max0.d >= 1,
            rect.min0.d >= 1,
    ;
    assert(q_lt(q_div(a, b), q_int(p)) && q_lt(q_div(b, a), q_int(p))) by (nonlinear_arith)
        requires
            !q_le(q_int(p), m),
            m == q_max(q_div(b, a), q_div(a, b)),
            a.d >= 1,
            b.d >= 1,
            a.n >= 1,
            b.n >= 1,
    ;
    lemma_calculate_brackets(a, b, p);
}

/// LAW: on success the decomposition returns exactly `p` rectangles.
pub proof fn lemma_decompose_count(rect: QRect, p: int)
    requires
        decompose_pre(rect, p),
    ensures
        match spec_kmr_decompose(rect, p) {
            Some(s) => s.len() == p,
            None => true,
        },
{
    if p == 1 {
        return ;
    }
    let a = qrect_height(rect);
    let b = qrect_width(rect);
    if q_le(q_int(p), q_max(q_div(b, a), q_div(a, b))) {
        assert(spec_strips(rect, p).len() == p);
    } else {
        lemma_split_in_range(rect, p);
        match spec_figure_out(spec_calculate(a, b, p)) {
            Some(split) => {
                lemma_generate_count(split, p, rect);
            },
            None => {},
        }
    }
}

/// The generator emits exactly `p` tiles for any in-range split.
proof fn lemma_generate_count(split: QSplit, p: int, rect: QRect)
    requires
        1 <= split.count <= p,
        2 <= p,
    ensures
        spec_generate(split, p, rect).len() == p,
{
    let g = split.count;
    lemma_split_counts(p, g);
    let f = p / g;
    if p % g == 0 {
        if split.row {
            assert(spec_generate(split, p, rect).len() == (g * f) as nat);
        } else {
            assert(spec_generate(split, p, rect).len() == (f * g) as nat);
            assert(f * g == g * f) by (nonlinear_arith);
        }
    } else {
        let c = f + 1;
        let n1 = p - g * f;
        let n2 = g * c - p;
        if split.row {
            assert(spec_generate(split, p, rect).len() == (n1 * c) as nat + (n2 * f) as nat);
        } else {
            assert(spec_generate(split, p, rect).len() == (c * n1) as nat + (f * n2) as nat);
            assert(c * n1 == n1 * c && f * n2 == n2 * f) by (nonlinear_arith);
        }
        assert(n1 * c >= 0 && n2 * f >= 0) by (nonlinear_arith)
            requires
                n1 >= 1,
                n2 >= 1,
                c >= 1,
                f >= 1,
        ;
    }
}

/// LAW: the decomposition of any rectangle into one subdomain is the
/// rectangle itself, unchanged.
pub proof fn lemma_decompose_identity(rect: QRect)
    ensures
        spec_kmr_decompose(rect, 1) == Some(seq![rect]),
{
}

/// LAW: the decomposition is a function of its input alone — two result
/// vectors pinned to the same input are equal, element for element.
pub proof fn lemma_decompose_deterministic(v1: Vec<Cuboid>, v2: Vec<Cuboid>, rect: Cuboid, p: int)
    requires
        spec_kmr_decompose(rect@, p) == Some(rects_view(v1@)),
        spec_kmr_decompose(rect@, p) == Some(rects_view(v2@)),
    ensures
        v1@ == v2@,
{
    assert(rects_view(v1@) == rects_view(v2@));
    assert(rects_view(v1@).len() == v1@.len());
    assert(rects_view(v2@).len() == v2@.len());
    assert(v1@.len() == v2@.len());
    assert forall|i: int| 0 <= i < v1@.len() implies v1@[i] == v2@[i] by {
        assert(rects_view(v1@)[i] == rects_view(v2@)[i]);
        crate::lemma_cuboid_view_injective(v1@[i], v2@[i]);
    }
    assert(v1@ =~= v2@);
}

/// A pair `(h, k)` probed by the `C` search: an `h x k`-ish grid can
/// still realize `p` cells.
pub open spec fn cs_lower_pair(p: int, h: int, k: int) -> bool {
    1 <= h < p && 1 <= k < p && (h - 1) * (k - 1) < p
}

/// A pair `(h, k)` probed by the `S` search: an `h x k`-ish grid cannot
/// exceed `p` cells.
pub open spec fn cs_upper_pair(p: int, h: int, k: int) -> bool {
    1 <= h < p && 1 <= k < p && p < (h + 1) * (k + 1)
}

/// The `C` candidate of the pair `(h, k)`: its larger cell dimension.
pub open spec fn cs_c_cand(a: Q, b: Q, h: int, k: int) -> Q {
    q_max(q_div_int(a, h), q_div_int(b, k))
}

/// The `S` candidate of the pair `(h, k)`: its smaller cell dimension.
pub open spec fn cs_s_cand(a: Q, b: Q, h: int, k: int) -> Q {
    q_min(q_div_int(a, h), q_div_int(b, k))
}

/// The search candidates of a pair are well-formed values.
proof fn lemma_cand_wf(a: Q, b: Q, h: int, k: int)
    requires
        a.d >= 1,
        b.d >= 1,
        h >= 1,
        k >= 1,
    ensures
        cs_c_cand(a, b, h, k).d >= 1,
        cs_s_cand(a, b, h, k).d >= 1,
{
    lemma_div_int_wf(a, h);
    lemma_div_int_wf(b, k);
    lemma_q_max_props(q_div_int(a, h), q_div_int(b, k));
    lemma_q_min_props(q_div_int(a, h), q_div_int(b, k));
}

/// The inner search over `1 <= h < h_end` for a fixed `k`: the running
/// `C` only falls, to a bound below every probed candidate that is the
/// entry value or a probed candidate; the running `S` rises symmetrically.
proof fn lemma_cs_inner_char(a: Q, b: Q, p: int, k: int, h_end: int, c0: Q, s0: Q)
    requires
        a.d >= 1,
        b.d >= 1,
        c0.d >= 1,
        s0.d >= 1,
        1 <= k,
        1 <= h_end,
    ensures
        ({
            let cs = spec_cs_inner(a, b, p, k, h_end, c0, s0);
            &&& cs.0.d >= 1 && cs.1.d >= 1
            &&& q_le(cs.0, c0)
            &&& q_le(s0, cs.1)
            &&& forall|h: int|
                1 <= h < h_end && (h - 1) * (k - 1) < p ==> q_le(
                    cs.0,
                    #[trigger] cs_c_cand(a, b, h, k),
                )
            &&& (cs.0 == c0 || exists|h: int|
                1 <= h < h_end && (h - 1) * (k - 1) < p && cs.0 == #[trigger] cs_c_cand(a, b, h, k))
            &&& forall|h: int|
                1 <= h < h_end && p < (h + 1) * (k + 1) ==> q_le(
                    #[trigger] cs_s_cand(a, b, h, k),
                    cs.1,
                )
            &&& (cs.1 == s0 || exists|h: int|
                1 <= h < h_end && p < (h + 1) * (k + 1) && cs.1 == #[trigger] cs_s_cand(a, b, h, k))
        }),
    decreases h_end,
{
    let cs = spec_cs_inner(a, b, p, k, h_end, c0, s0);
    if h_end == 1 {
        return ;
    }
    let h = h_end - 1;
    let prev = spec_cs_inner(a, b, p, k, h, c0, s0);
    lemma_cs_inner_char(a, b, p, k, h, c0, s0);
    lemma_div_int_wf(a, h);
    lemma_div_int_wf(b, k);
    let ah = q_div_int(a, h);
    let bk = q_div_int(b, k);
    lemma_q_max_props(ah, bk);
    lemma_q_min_props(ah, bk);
    if (h - 1) * (k - 1) < p {
        let cand = cs_c_cand(a, b, h, k);
        lemma_q_min_props(prev.0, cand);
        assert(cs.0 == q_min(prev.0, cand));
        lemma_q_le_trans(cs.0, prev.0, c0);
        assert forall|h2: int| 1 <= h2 < h_end && (h2 - 1) * (k - 1) < p implies q_le(
            cs.0,
            #[trigger] cs_c_cand(a, b, h2, k),
        ) by {
            if h2 < h {
                lemma_cand_wf(a, b, h2, k);
                lemma_q_le_trans(cs.0, prev.0, cs_c_cand(a, b, h2, k));
            }
        }
    } else {
        assert(cs.0 == prev.0);
    }
    if p < (h + 1) * (k + 1) {
        let cand = cs_s_cand(a, b, h, k);
        lemma_q_max_props(prev.1, cand);
        assert(cs.1 == q_max(prev.1, cand));
        lemma_q_le_trans(s0, prev.1, cs.1);
        assert forall|h2: int| 1 <= h2 < h_end && p < (h2 + 1) * (k + 1) implies q_le(
            #[trigger] cs_s_cand(a, b, h2, k),
            cs.1,
        ) by {
            if h2 < h {
                lemma_cand_wf(a, b, h2, k);
                lemma_q_le_trans(cs_s_cand(a, b, h2, k), prev.1, cs.1);
            }
        }
    } else {
        assert(cs.1 == prev.1);
    }
}

/// The outer search over `1 <= k < k_end`, with the full inner search for
/// each `k`.
proof fn lemma_cs_outer_char(a: Q, b: Q, p: int, k_end: int, c0: Q, s0: Q)
    requires
        a.d >= 1,
        b.d >= 1,
        c0.d >= 1,
        s0.d >= 1,
        1 <= k_end,
        2 <= p,
    ensures
        ({
            let cs = spec_cs_outer(a, b, p, k_end, c0, s0);
            &&& cs.0.d >= 1 && cs.1.d >= 1
            &&& q_le(cs.0, c0)
            &&& q_le(s0, cs.1)
            &&& forall|h: int, k: int|
                1 <= h < p && 1 <= k < k_end && (h - 1) * (k - 1) < p ==> q_le(
                    cs.0,
                    #[trigger] cs_c_cand(a, b, h, k),
                )
            &&& (cs.0 == c0 || exists|h: int, k: int|
                1 <= h < p && 1 <= k < k_end && (h - 1) * (k - 1) < p && cs.0
                    == #[trigger] cs_c_cand(a, b, h, k))
            &&& forall|h: int, k: int|
                1 <= h < p && 1 <= k < k_end && p < (h + 1) * (k + 1) ==> q_le(
                    #[trigger] cs_s_cand(a, b, h, k),
                    cs.1,
                )
            &&& (cs.1 == s0 || exists|h: int, k: int|
                1 <= h < p && 1 <= k < k_end && p < (h + 1) * (k + 1) && cs.1
                    == #[trigger] cs_s_cand(a, b, h, k))
        }),
    decreases k_end,
{
    let cs = spec_cs_outer(a, b, p, k_end, c0, s0);
    if k_end == 1 {
        return ;
    }
    let k = k_end - 1;
    let prev = spec_cs_outer(a, b, p, k, c0, s0);
    lemma_cs_outer_char(a, b, p, k, c0, s0);
    lemma_cs_inner_char(a, b, p, k, p, prev.0, prev.1);
    assert(cs == spec_cs_inner(a, b, p, k, p, prev.0, prev.1));
    lemma_q_le_trans(cs.0, prev.0, c0);
    lemma_q_le_trans(s0, prev.1, cs.1);
    assert forall|h: int, k2: int|
        1 <= h < p && 1 <= k2 < k_end && (h - 1) * (k2 - 1) < p implies q_le(
        cs.0,
        #[trigger] cs_c_cand(a, b, h, k2),
    ) by {
        if k2 < k {
            lemma_cand_wf(a, b, h, k2);
            lemma_q_le_trans(cs.0, prev.0, cs_c_cand(a, b, h, k2));
        }
    }
    assert forall|h: int, k2: int|
        1 <= h < p && 1 <= k2 < k_end && p < (h + 1) * (k2 + 1) implies q_le(
        #[trigger] cs_s_cand(a, b, h, k2),
        cs.1,
    ) by {
        if k2 < k {
            lemma_cand_wf(a, b, h, k2);
            lemma_q_le_trans(cs_s_cand(a, b, h, k2), prev.1, cs.1);
        }
    }
}

/// LAW: the solved bound candidates are exactly what the search
/// describes. `C` is the minimum, over the pairs `(h, k)` with which an
/// `h x k`-ish grid can still realize `p` cells, of the larger cell
/// dimension: a lower bound of every admissible candidate, attained by
/// one of them. `S` is symmetrically the maximum over the complementary
/// pairs of the smaller cell dimension.
pub proof fn lemma_calculate_bound_candidates(a: Q, b: Q, p: int)
    requires
        q_wf(a),
        q_wf(b),
        q_pos(a),
        q_pos(b),
        2 <= p,
    ensures
        ({
            let v = spec_calculate(a, b, p);
            &&& forall|h: int, k: int|
                cs_lower_pair(p, h, k) ==> q_le(v.C, #[trigger] cs_c_cand(a, b, h, k))
            &&& exists|h: int, k: int|
                cs_lower_pair(p, h, k) && v.C == #[trigger] cs_c_cand(a, b, h, k)
            &&& forall|h: int, k: int|
                cs_upper_pair(p, h, k) ==> q_le(#[trigger] cs_s_cand(a, b, h, k), v.S)
            &&& exists|h: int, k: int|
                cs_upper_pair(p, h, k) && v.S == #[trigger] cs_s_cand(a, b, h, k)
        }),
{
    lemma_cs_outer_char(a, b, p, p, q_max(a, b), q_int(0));
    let v = spec_calculate(a, b, p);
    // The pair (1, 1) is always admissible for the C search, and its
    // candidate is the search's start value.
    assert(cs_lower_pair(p, 1, 1));
    assert(q_div_int(a, 1) == a && q_div_int(b, 1) == b);
    assert(cs_c_cand(a, b, 1, 1) == q_max(a, b));
    // The pair (p - 1, p - 1) is always admissible for the S search, and
    // its candidate is positive while the start value is zero, so the
    // search must have moved off its start value.
    let hh = p - 1;
    assert(p < (hh + 1) * (hh + 1)) by (nonlinear_arith)
        requires
            hh == p - 1,
            p >= 2,
    ;
    assert(cs_upper_pair(p, hh, hh));
    if v.S == q_int(0) {
        lemma_div_int_wf(a, hh);
        lemma_div_int_wf(b, hh);
        lemma_q_min_props(q_div_int(a, hh), q_div_int(b, hh));
        assert(cs_s_cand(a, b, hh, hh).n >= 1);
        assert(q_le(cs_s_cand(a, b, hh, hh), v.S));
        assert(false);
    }
}

/// The number of digits the buckets of subdomains `0..j_end` hold in all.
pub open spec fn bucket_len_sum<I>(digits: Seq<(I, Cuboid)>, subs: Seq<QRect>, j_end: int) -> int
    decreases j_end,
{
    if j_end <= 0 {
        0
    } else {
        bucket_len_sum(digits, subs, j_end - 1) + spec_bucket(digits, subs, j_end - 1).len()
    }
}

/// With no digits there is nothing in any bucket.
proof fn lemma_bucket_sum_empty<I>(subs: Seq<QRect>, j_end: int)
    ensures
        bucket_len_sum(Seq::<(I, Cuboid)>::empty(), subs, j_end) == 0,
    decreases j_end,
{
    if j_end > 0 {
        lemma_bucket_sum_empty::<I>(subs, j_end - 1);
    }
}

/// A digit with a containing subdomain has a first containing subdomain.
proof fn lemma_first_containing_from(subs: Seq<QRect>, d: QRect, j0: int)
    requires
        0 <= j0 < subs.len(),
        qrect_contains_mid(subs[j0], d),
    ensures
        exists|j: int| #[trigger] spec_assigned(subs, d, j),
    decreases j0,
{
    if forall|i: int| 0 <= i < j0 ==> !qrect_contains_mid(#[trigger] subs[i], d) {
        assert(spec_assigned(subs, d, j0));
    } else {
        let i0 = choose|i: int| 0 <= i < j0 && qrect_contains_mid(#[trigger] subs[i], d);
        lemma_first_containing_from(subs, d, i0);
    }
}

/// Appending one digit assigned to subdomain `jstar` grows exactly that
/// bucket, by exactly that digit.
proof fn lemma_bucket_sum_step<I>(digits: Seq<(I, Cuboid)>, subs: Seq<QRect>, j_end: int, jstar: int)
    requires
        digits.len() > 0,
        spec_assigned(subs, digits.last().1@, jstar),
    ensures
        bucket_len_sum(digits, subs, j_end) == bucket_len_sum(digits.drop_last(), subs, j_end) + (
        if jstar < j_end {
            1int
        } else {
            0int
        }),
    decreases j_end,
{
    if j_end > 0 {
        lemma_bucket_sum_step(digits, subs, j_end - 1, jstar);
        let j = j_end - 1;
        if j != jstar {
            // The first containing subdomain is unique, so this bucket is
            // untouched.
            if spec_assigned(subs, digits.last().1@, j) {
                if j < jstar {
                    assert(!qrect_contains_mid(subs[j], digits.last().1@));
                } else {
                    assert(!qrect_contains_mid(subs[jstar], digits.last().1@));
                }
                assert(false);
            }
        }
    }
}

/// LAW: when every digit's centroid lies in some subdomain, the buckets
/// partition the digits: their lengths sum to the number of digits, so no
/// digit is dropped or duplicated.
pub proof fn lemma_buckets_partition<I>(digits: Seq<(I, Cuboid)>, subs: Seq<QRect>)
    requires
        forall|i: int| 0 <= i < digits.len() ==> spec_has_home(subs, (#[trigger] digits[i].1)@),
    ensures
        bucket_len_sum(digits, subs, subs.len() as int) == digits.len(),
    decreases digits.len(),
{
    if digits.len() == 0 {
        assert(digits =~= Seq::<(I, Cuboid)>::empty());
        lemma_bucket_sum_empty::<I>(subs, subs.len() as int);
    } else {
        let front = digits.drop_last();
        assert forall|i: int| 0 <= i < front.len() implies spec_has_home(
            subs,
            (#[trigger] front[i].1)@,
        ) by {
            assert(front[i] == digits[i]);
        }
        lemma_buckets_partition(front, subs);
        let d = digits.last().1@;
        let i0 = digits.len() - 1;
        assert(digits[i0].1@ == d);
        assert(spec_has_home(subs, d));
        let j0 = choose|j: int| 0 <= j < subs.len() && qrect_contains_mid(#[trigger] subs[j], d);
        lemma_first_containing_from(subs, d, j0);
        let jstar = choose|j: int| #[trigger] spec_assigned(subs, d, j);
        lemma_bucket_sum_step(digits, subs, subs.len() as int, jstar);
    }
}

/// The guarantee of the decomposition entry point, bundled: on success
/// there are exactly `p` subdomains, pairwise non-overlapping, lying
/// within the input rectangle, attaining its four sides, with areas
/// summing to its area exactly.
pub proof fn lemma_decompose_guarantees(rect: QRect, p: int)
    requires
        decompose_pre(rect, p),
    ensures
        match spec_kmr_decompose(rect, p) {
            Some(s) => {
                &&& s.len() == p
                &&& forall|i: int, j: int|
                    0 <= i < s.len() && 0 <= j < s.len() && i != j ==> qrect_interiors_disjoint(
                        #[trigger] s[i],
                        #[trigger] s[j],
                    )
                &&& forall|i: int| 0 <= i < s.len() ==> qrect_contained_in(#[trigger] s[i], rect)
                &&& q_eqv(s[0].min0, rect.min0)
                &&& q_eqv(s[0].min1, rect.min1)
                &&& q_eqv(s[s.len() - 1].max0, rect.max0)
                &&& q_eqv(s[s.len() - 1].max1, rect.max1)
                &&& q_eqv(spec_area_sum(s), qrect_area(rect))
            },
            None => true,
        },
{
    lemma_decompose_count(rect, p);
    lemma_decompose_disjoint(rect, p);
    lemma_decompose_cover(rect, p);
    lemma_decompose_area(rect, p);
}

/// Grid edge coordinates grow with the index (for a nonnegative step).
proof fn lemma_step_mono(x0: Q, dx: Q, i1: int, i2: int)
    by (nonlinear_arith)
    requires
        x0.d >= 1,
        dx.d >= 1,
        dx.n >= 0,
        i1 <= i2,
    ensures
        q_le(q_add(x0, q_mul_int(dx, i1)), q_add(x0, q_mul_int(dx, i2))),
{
}

/// The zeroth grid edge is the anchor itself.
proof fn lemma_step_zero(x0: Q, dx: Q)
    by (nonlinear_arith)
    requires
        x0.d >= 1,
        dx.d >= 1,
    ensures
        q_eqv(q_add(x0, q_mul_int(dx, 0)), x0),
        q_eqv(x0, q_add(x0, q_mul_int(dx, 0))),
{
}

/// Taking all `c` steps of size `(z - x0) / c` from `x0` lands on `z`.
proof fn lemma_step_last(x0: Q, z: Q, c: int)
    by (nonlinear_arith)
    requires
        x0.d >= 1,
        z.d >= 1,
        c >= 1,
    ensures
        q_eqv(q_add(x0, q_mul_int(q_div_int(q_sub(z, x0), c), c)), z),
        q_eqv(z, q_add(x0, q_mul_int(q_div_int(q_sub(z, x0), c), c))),
{
}

/// The `i`-th cell of the `c`-fold uniform split of `[x0, z]` lies within
/// `[x0, z]`.
proof fn lemma_axis_within(x0: Q, z: Q, c: int, i: int)
    requires
        q_wf(x0),
        q_wf(z),
        q_le(x0, z),
        1 <= c,
        0 <= i < c,
    ensures
        q_le(x0, q_add(x0, q_mul_int(q_div_int(q_sub(z, x0), c), i))),
        q_le(q_add(x0, q_mul_int(q_div_int(q_sub(z, x0), c), i + 1)), z),
{
    let dx = q_div_int(q_sub(z, x0), c);
    assert(dx.n >= 0 && dx.d >= 1) by (nonlinear_arith)
        requires
            dx == q_div_int(q_sub(z, x0), c),
            q_le(x0, z),
            x0.d >= 1,
            z.d >= 1,
            c >= 1,
    ;
    assert(x0.d * dx.d >= 1) by (nonlinear_arith)
        requires
            x0.d >= 1,
            dx.d >= 1,
    ;
    lemma_step_zero(x0, dx);
    lemma_step_mono(x0, dx, 0, i);
    lemma_q_le_eqv_left(x0, q_add(x0, q_mul_int(dx, 0)), q_add(x0, q_mul_int(dx, i)));
    lemma_step_mono(x0, dx, i + 1, c);
    lemma_step_last(x0, z, c);
    lemma_q_le_eqv_right(
        q_add(x0, q_mul_int(dx, i + 1)),
        q_add(x0, q_mul_int(dx, c)),
        z,
    );
}

/// Division by a positive integer keeps the numerator and a positive
/// denominator.
proof fn lemma_div_int_wf(x: Q, i: int)
    by (nonlinear_arith)
    requires
        x.d >= 1,
        i >= 1,
    ensures
        q_div_int(x, i).d >= 1,
        q_div_int(x, i).n == x.n,
{
}

/// Decoding a row-major grid index: its row and column are in range.
proof fn lemma_grid_index(t: int, nr: int, nc: int)
    requires
        0 <= t < nr * nc,
        1 <= nc,
    ensures
        0 <= t / nc < nr,
        0 <= t % nc < nc,
        t == (t / nc) * nc + t % nc,
{
    vstd::arithmetic::div_mod::lemma_fundamental_div_mod(t, nc);
    assert(0 <= t / nc < nr && 0 <= t % nc < nc && t == (t / nc) * nc + t % nc)
        by (nonlinear_arith)
        requires
            0 <= t < nr * nc,
            1 <= nc,
            t == nc * (t / nc) + t % nc,
            0 <= t % nc < nc,
    ;
}

/// Two distinct tiles of one grid have disjoint interiors: tiles of one
/// row are separated along axis 0, tiles of distinct rows along axis 1.
proof fn lemma_grid_disjoint(
    x0: Q,
    y0: Q,
    dc: Q,
    dr: Q,
    roff: int,
    nr: int,
    coff: int,
    nc: int,
    t: int,
    u: int,
)
    requires
        q_wf(x0),
        q_wf(y0),
        q_wf(dc),
        q_wf(dr),
        dc.n >= 0,
        dr.n >= 0,
        1 <= nc,
        0 <= t < nr * nc,
        0 <= u < nr * nc,
        t != u,
    ensures
        crate::qrect_interiors_disjoint(
            spec_grid(x0, y0, dc, dr, roff, nr, coff, nc)[t],
            spec_grid(x0, y0, dc, dr, roff, nr, coff, nc)[u],
        ),
{
    lemma_grid_index(t, nr, nc);
    lemma_grid_index(u, nr, nc);
    let rt = t / nc;
    let ru = u / nc;
    let ct = t % nc;
    let cu = u % nc;
    if rt == ru {
        assert(ct != cu) by (nonlinear_arith)
            requires
                t == rt * nc + ct,
                u == ru * nc + cu,
                rt == ru,
                t != u,
        ;
        if ct < cu {
            lemma_step_mono(x0, dc, coff + ct + 1, coff + cu);
        } else {
            lemma_step_mono(x0, dc, coff + cu + 1, coff + ct);
        }
    } else {
        if rt < ru {
            lemma_step_mono(y0, dr, roff + rt + 1, roff + ru);
        } else {
            lemma_step_mono(y0, dr, roff + ru + 1, roff + rt);
        }
    }
}

/// Tiles from two stacked grids sharing the row geometry (anchor and row
/// height), with the first grid's rows all below the second grid's rows,
/// are separated along axis 1.
proof fn lemma_stacked_rows_disjoint(
    x0: Q,
    y0: Q,
    dc1: Q,
    dc2: Q,
    dr: Q,
    n1: int,
    nc1: int,
    n2: int,
    nc2: int,
    t: int,
    u: int,
)
    requires
        q_wf(x0),
        q_wf(y0),
        q_wf(dc1),
        q_wf(dc2),
        q_wf(dr),
        dr.n >= 0,
        1 <= nc1,
        1 <= nc2,
        0 <= t < n1 * nc1,
        0 <= u < n2 * nc2,
    ensures
        crate::qrect_interiors_disjoint(
            spec_grid(x0, y0, dc1, dr, 0, n1, 0, nc1)[t],
            spec_grid(x0, y0, dc2, dr, n1, n2, 0, nc2)[u],
        ),
        crate::qrect_interiors_disjoint(
            spec_grid(x0, y0, dc2, dr, n1, n2, 0, nc2)[u],
            spec_grid(x0, y0, dc1, dr, 0, n1, 0, nc1)[t],
        ),
{
    lemma_grid_index(t, n1, nc1);
    lemma_grid_index(u, n2, nc2);
    let rt = t / nc1;
    let ru = n1 + u / nc2;
    lemma_step_mono(y0, dr, rt + 1, ru);
}

/// Tiles from two side-by-side grids sharing the column geometry, with
/// the first grid's columns all left of the second grid's columns, are
/// separated along axis 0.
proof fn lemma_stacked_cols_disjoint(
    x0: Q,
    y0: Q,
    dc: Q,
    dr1: Q,
    dr2: Q,
    n1: int,
    nr1: int,
    n2: int,
    nr2: int,
    t: int,
    u: int,
)
    requires
        q_wf(x0),
        q_wf(y0),
        q_wf(dc),
        q_wf(dr1),
        q_wf(dr2),
        dc.n >= 0,
        1 <= n1,
        1 <= n2,
        0 <= t < nr1 * n1,
        0 <= u < nr2 * n2,
    ensures
        crate::qrect_interiors_disjoint(
            spec_grid(x0, y0, dc, dr1, 0, nr1, 0, n1)[t],
            spec_grid(x0, y0, dc, dr2, 0, nr2, n1, n2)[u],
        ),
        crate::qrect_interiors_disjoint(
            spec_grid(x0, y0, dc, dr2, 0, nr2, n1, n2)[u],
            spec_grid(x0, y0, dc, dr1, 0, nr1, 0, n1)[t],
        ),
{
    lemma_grid_index(t, nr1, n1);
    lemma_grid_index(u, nr2, n2);
    let ct = t % n1;
    let cu = n1 + u % n2;
    lemma_step_mono(x0, dc, ct + 1, cu);
}

/// LAW: the subdomains of a successful decomposition are pairwise
/// non-overlapping: any two distinct ones are separated, up to a shared
/// edge, along one of the axes.
pub proof fn lemma_decompose_disjoint(rect: QRect, p: int)
    requires
        decompose_pre(rect, p),
    ensures
        match spec_kmr_decompose(rect, p) {
            Some(s) => forall|i: int, j: int|
                0 <= i < s.len() && 0 <= j < s.len() && i != j
                    ==> crate::qrect_interiors_disjoint(#[trigger] s[i], #[trigger] s[j]),
            None => true,
        },
{
    if p == 1 {
        return ;
    }
    let a = qrect_height(rect);
    let b = qrect_width(rect);
    let x0 = rect.min0;
    let y0 = rect.min1;
    assert(a.d >= 1 && b.d >= 1) by (nonlinear_arith)
        requires
            a.d == rect.max1.d * rect.min1.d,
            b.d == rect.max0.d * rect.min0.d,
            rect.max1.d >= 1,
            rect.min1.d >= 1,
            rect.max0.d >= 1,
            rect.min0.d >= 1,
    ;
    if q_le(q_int(p), q_max(q_div(b, a), q_div(a, b))) {
        let s = spec_strips(rect, p);
        lemma_div_int_wf(b, p);
        lemma_div_int_wf(a, p);
        assert forall|i: int, j: int|
            0 <= i < s.len() && 0 <= j < s.len() && i != j implies crate::qrect_interiors_disjoint(
            #[trigger] s[i],
            #[trigger] s[j],
        ) by {
            if q_le(a, b) {
                let dx = q_div_int(b, p);
                if i < j {
                    lemma_step_mono(x0, dx, i + 1, j);
                } else {
                    lemma_step_mono(x0, dx, j + 1, i);
                }
            } else {
                let dx = q_div_int(a, p);
                if i < j {
                    lemma_step_mono(y0, dx, i + 1, j);
                } else {
                    lemma_step_mono(y0, dx, j + 1, i);
                }
            }
        }
    } else {
        lemma_split_in_range(rect, p);
        match spec_figure_out(spec_calculate(a, b, p)) {
            Some(split) => {
                lemma_generate_disjoint(split, p, rect);
            },
            None => {},
        }
    }
}

/// Any two distinct generated tiles have disjoint interiors.
proof fn lemma_generate_disjoint(split: QSplit, p: int, rect: QRect)
    requires
        qrect_wf(rect),
        q_pos(qrect_width(rect)),
        q_pos(qrect_height(rect)),
        1 <= split.count <= p,
        2 <= p,
    ensures
        ({
            let s = spec_generate(split, p, rect);
            forall|i: int, j: int|
                0 <= i < s.len() && 0 <= j < s.len() && i != j
                    ==> crate::qrect_interiors_disjoint(#[trigger] s[i], #[trigger] s[j])
        }),
{
    let s = spec_generate(split, p, rect);
    let a = qrect_height(rect);
    let b = qrect_width(rect);
    let x0 = rect.min0;
    let y0 = rect.min1;
    let g = split.count;
    let f = p / g;
    lemma_split_counts(p, g);
    assert(a.d >= 1 && b.d >= 1) by (nonlinear_arith)
        requires
            a.d == rect.max1.d * rect.min1.d,
            b.d == rect.max0.d * rect.min0.d,
            rect.max1.d >= 1,
            rect.min1.d >= 1,
            rect.max0.d >= 1,
            rect.min0.d >= 1,
    ;
    lemma_div_int_wf(a, g);
    lemma_div_int_wf(b, g);
    lemma_div_int_wf(a, f);
    lemma_div_int_wf(b, f);
    lemma_div_int_wf(a, f + 1);
    lemma_div_int_wf(b, f + 1);
    assert forall|i: int, j: int|
        0 <= i < s.len() && 0 <= j < s.len() && i != j implies crate::qrect_interiors_disjoint(
        #[trigger] s[i],
        #[trigger] s[j],
    ) by {
        if split.row {
            let dr = q_div_int(a, g);
            if p % g == 0 {
                lemma_grid_disjoint(x0, y0, q_div_int(b, f), dr, 0, g, 0, f, i, j);
            } else {
                let c = f + 1;
                let n1 = p - g * f;
                let n2 = g * c - p;
                let l1 = n1 * c;
                if i < l1 && j < l1 {
                    lemma_grid_disjoint(x0, y0, q_div_int(b, c), dr, 0, n1, 0, c, i, j);
                } else if i >= l1 && j >= l1 {
                    lemma_grid_disjoint(x0, y0, q_div_int(b, f), dr, n1, n2, 0, f, i - l1, j - l1);
                } else if i < l1 {
                    lemma_stacked_rows_disjoint(
                        x0, y0, q_div_int(b, c), q_div_int(b, f), dr, n1, c, n2, f, i, j - l1,
                    );
                } else {
                    lemma_stacked_rows_disjoint(
                        x0, y0, q_div_int(b, c), q_div_int(b, f), dr, n1, c, n2, f, j, i - l1,
                    );
                }
            }
        } else {
            let dc = q_div_int(b, g);
            if p % g == 0 {
                lemma_grid_disjoint(x0, y0, dc, q_div_int(a, f), 0, f, 0, g, i, j);
            } else {
                let c = f + 1;
                let n1 = p - g * f;
                let n2 = g * c - p;
                let l1 = c * n1;
                if i < l1 && j < l1 {
                    lemma_grid_disjoint(x0, y0, dc, q_div_int(a, c), 0, c, 0, n1, i, j);
                } else if i >= l1 && j >= l1 {
                    lemma_grid_disjoint(x0, y0, dc, q_div_int(a, f), 0, f, n1, n2, i - l1, j - l1);
                } else if i < l1 {
                    lemma_stacked_cols_disjoint(
                        x0, y0, dc, q_div_int(a, c), q_div_int(a, f), n1, c, n2, f, i, j - l1,
                    );
                } else {
                    lemma_stacked_cols_disjoint(
                        x0, y0, dc, q_div_int(a, c), q_div_int(a, f), n1, c, n2, f, j, i - l1,
                    );
                }
            }
        }
    }
}

/// Every tile of a grid whose rows split `[min1, max1]` in `gy` parts and
/// whose columns split `[min0, max0]` in `cx` parts lies within `rect`.
proof fn lemma_grid_contained(rect: QRect, cx: int, gy: int, roff: int, nr: int, coff: int, nc: int, t: int)
    requires
        qrect_wf(rect),
        qrect_ordered(rect),
        1 <= nc,
        1 <= cx,
        1 <= gy,
        coff + nc <= cx,
        roff + nr <= gy,
        0 <= roff,
        0 <= coff,
        0 <= t < nr * nc,
    ensures
        crate::qrect_contained_in(
            spec_grid(
                rect.min0,
                rect.min1,
                q_div_int(qrect_width(rect), cx),
                q_div_int(qrect_height(rect), gy),
                roff,
                nr,
                coff,
                nc,
            )[t],
            rect,
        ),
{
    lemma_grid_index(t, nr, nc);
    let row = roff + t / nc;
    let col = coff + t % nc;
    lemma_axis_within(rect.min0, rect.max0, cx, col);
    lemma_axis_within(rect.min1, rect.max1, gy, row);
}

/// The first tile of a grid anchored at the corner starts at the corner.
proof fn lemma_grid_first(x0: Q, y0: Q, dc: Q, dr: Q, nr: int, nc: int)
    requires
        q_wf(x0),
        q_wf(y0),
        q_wf(dc),
        q_wf(dr),
        1 <= nc,
        1 <= nr,
    ensures
        q_eqv(spec_grid(x0, y0, dc, dr, 0, nr, 0, nc)[0].min0, x0),
        q_eqv(spec_grid(x0, y0, dc, dr, 0, nr, 0, nc)[0].min1, y0),
{
    lemma_fundamental_div_mod_converse_wrap(0, nc, 0, 0);
    assert(nr * nc >= 1) by (nonlinear_arith)
        requires
            nr >= 1,
            nc >= 1,
    ;
    lemma_step_zero(x0, dc);
    lemma_step_zero(y0, dr);
}

proof fn lemma_fundamental_div_mod_converse_wrap(x: int, d: int, q: int, r: int)
    requires
        d >= 1,
        0 <= r < d,
        x == q * d + r,
    ensures
        x / d == q,
        x % d == r,
{
    vstd::arithmetic::div_mod::lemma_fundamental_div_mod_converse(x, d, q, r);
}

/// The last tile of a grid that reaches row `gy - 1` of `gy` rows and
/// column `cx - 1` of `cx` columns ends at the opposite corner of `rect`.
proof fn lemma_grid_last(rect: QRect, cx: int, gy: int, roff: int, nr: int, coff: int, nc: int)
    requires
        qrect_wf(rect),
        1 <= nc <= cx,
        1 <= nr <= gy,
        roff + nr == gy,
        coff + nc == cx,
        0 <= roff,
        0 <= coff,
    ensures
        ({
            let s = spec_grid(
                rect.min0,
                rect.min1,
                q_div_int(qrect_width(rect), cx),
                q_div_int(qrect_height(rect), gy),
                roff,
                nr,
                coff,
                nc,
            );
            &&& q_eqv(s[nr * nc - 1].max0, rect.max0)
            &&& q_eqv(s[nr * nc - 1].max1, rect.max1)
        }),
{
    let t = nr * nc - 1;
    assert(t == (nr - 1) * nc + (nc - 1) && t >= 0) by (nonlinear_arith)
        requires
            nr >= 1,
            nc >= 1,
            t == nr * nc - 1,
    ;
    lemma_fundamental_div_mod_converse_wrap(t, nc, nr - 1, nc - 1);
    let a = qrect_height(rect);
    let b = qrect_width(rect);
    assert(a.d >= 1 && b.d >= 1) by (nonlinear_arith)
        requires
            a.d == rect.max1.d * rect.min1.d,
            b.d == rect.max0.d * rect.min0.d,
            rect.max1.d >= 1,
            rect.min1.d >= 1,
            rect.max0.d >= 1,
            rect.min0.d >= 1,
    ;
    lemma_step_last(rect.min0, rect.max0, cx);
    lemma_step_last(rect.min1, rect.max1, gy);
}

/// LAW: a successful decomposition covers the input rectangle: every
/// subdomain lies within it, the first subdomain starts at its lower
/// corner, and the last subdomain ends at its upper corner (so the
/// bounding box of the union is the input rectangle).
pub proof fn lemma_decompose_cover(rect: QRect, p: int)
    requires
        decompose_pre(rect, p),
    ensures
        match spec_kmr_decompose(rect, p) {
            Some(s) => {
                &&& s.len() >= 1
                &&& forall|i: int|
                    0 <= i < s.len() ==> crate::qrect_contained_in(#[trigger] s[i], rect)
                &&& q_eqv(s[0].min0, rect.min0)
                &&& q_eqv(s[0].min1, rect.min1)
                &&& q_eqv(s[s.len() - 1].max0, rect.max0)
                &&& q_eqv(s[s.len() - 1].max1, rect.max1)
            },
            None => true,
        },
{
    lemma_decompose_count(rect, p);
    let a = qrect_height(rect);
    let b = qrect_width(rect);
    let x0 = rect.min0;
    let y0 = rect.min1;
    assert(a.d >= 1 && b.d >= 1) by (nonlinear_arith)
        requires
            a.d == rect.max1.d * rect.min1.d,
            b.d == rect.max0.d * rect.min0.d,
            rect.max1.d >= 1,
            rect.min1.d >= 1,
            rect.max0.d >= 1,
            rect.min0.d >= 1,
    ;
    if p == 1 {
        let s = spec_kmr_decompose(rect, p).unwrap();
        assert(s[0] == rect);
        return ;
    }
    if q_le(q_int(p), q_max(q_div(b, a), q_div(a, b))) {
        let s = spec_strips(rect, p);
        lemma_div_int_wf(b, p);
        lemma_div_int_wf(a, p);
        assert forall|i: int| 0 <= i < s.len() implies crate::qrect_contained_in(
            #[trigger] s[i],
            rect,
        ) by {
            if q_le(a, b) {
                lemma_axis_within(x0, rect.max0, p, i);
            } else {
                lemma_axis_within(y0, rect.max1, p, i);
            }
        }
        if q_le(a, b) {
            lemma_step_zero(x0, q_div_int(b, p));
            lemma_step_last(x0, rect.max0, p);
        } else {
            lemma_step_zero(y0, q_div_int(a, p));
            lemma_step_last(y0, rect.max1, p);
        }
    } else {
        lemma_split_in_range(rect, p);
        match spec_figure_out(spec_calculate(a, b, p)) {
            Some(split) => {
                lemma_generate_cover(split, p, rect);
            },
            None => {},
        }
    }
}

/// Containment and corner attainment for the generated tiling.
proof fn lemma_generate_cover(split: QSplit, p: int, rect: QRect)
    requires
        qrect_wf(rect),
        qrect_ordered(rect),
        1 <= split.count <= p,
        2 <= p,
    ensures
        ({
            let s = spec_generate(split, p, rect);
            &&& s.len() >= 1
            &&& forall|i: int| 0 <= i < s.len() ==> crate::qrect_contained_in(#[trigger] s[i], rect)
            &&& q_eqv(s[0].min0, rect.min0)
            &&& q_eqv(s[0].min1, rect.min1)
            &&& q_eqv(s[s.len() - 1].max0, rect.max0)
            &&& q_eqv(s[s.len() - 1].max1, rect.max1)
        }),
{
    let s = spec_generate(split, p, rect);
    let a = qrect_height(rect);
    let b = qrect_width(rect);
    let x0 = rect.min0;
    let y0 = rect.min1;
    let g = split.count;
    let f = p / g;
    lemma_split_counts(p, g);
    lemma_generate_count(split, p, rect);
    assert(a.d >= 1 && b.d >= 1) by (nonlinear_arith)
        requires
            a.d == rect.max1.d * rect.min1.d,
            b.d == rect.max0.d * rect.min0.d,
            rect.max1.d >= 1,
            rect.min1.d >= 1,
            rect.max0.d >= 1,
            rect.min0.d >= 1,
    ;
    lemma_div_int_wf(a, g);
    lemma_div_int_wf(b, g);
    lemma_div_int_wf(a, f);
    lemma_div_int_wf(b, f);
    lemma_div_int_wf(a, f + 1);
    lemma_div_int_wf(b, f + 1);
    if p % g == 0 {
        if split.row {
            assert forall|i: int| 0 <= i < s.len() implies crate::qrect_contained_in(
                #[trigger] s[i],
                rect,
            ) by {
                lemma_grid_contained(rect, f, g, 0, g, 0, f, i);
            }
            lemma_grid_first(x0, y0, q_div_int(b, f), q_div_int(a, g), g, f);
            lemma_grid_last(rect, f, g, 0, g, 0, f);
        } else {
            assert forall|i: int| 0 <= i < s.len() implies crate::qrect_contained_in(
                #[trigger] s[i],
                rect,
            ) by {
                lemma_grid_contained(rect, g, f, 0, f, 0, g, i);
            }
            lemma_grid_first(x0, y0, q_div_int(b, g), q_div_int(a, f), f, g);
            lemma_grid_last(rect, g, f, 0, f, 0, g);
        }
    } else {
        let c = f + 1;
        let n1 = p - g * f;
        let n2 = g * c - p;
        if split.row {
            let l1 = n1 * c;
            let l2 = n2 * f;
            assert(l1 >= 1 && l2 >= 1) by (nonlinear_arith)
                requires
                    n1 >= 1,
                    n2 >= 1,
                    c >= 1,
                    f >= 1,
                    l1 == n1 * c,
                    l2 == n2 * f,
            ;
            assert forall|i: int| 0 <= i < s.len() implies crate::qrect_contained_in(
                #[trigger] s[i],
                rect,
            ) by {
                if i < l1 {
                    lemma_grid_contained(rect, c, g, 0, n1, 0, c, i);
                } else {
                    lemma_grid_contained(rect, f, g, n1, n2, 0, f, i - l1);
                }
            }
            lemma_grid_first(x0, y0, q_div_int(b, c), q_div_int(a, g), n1, c);
            lemma_grid_last(rect, f, g, n1, n2, 0, f);
            assert(s[s.len() - 1] == spec_grid(
                x0,
                y0,
                q_div_int(b, f),
                q_div_int(a, g),
                n1,
                n2,
                0,
                f,
            )[l2 - 1]);
        } else {
            let l1 = c * n1;
            let l2 = f * n2;
            assert(l1 >= 1 && l2 >= 1) by (nonlinear_arith)
                requires
                    n1 >= 1,
                    n2 >= 1,
                    c >= 1,
                    f >= 1,
                    l1 == c * n1,
                    l2 == f * n2,
            ;
            assert forall|i: int| 0 <= i < s.len() implies crate::qrect_contained_in(
                #[trigger] s[i],
                rect,
            ) by {
                if i < l1 {
                    lemma_grid_contained(rect, g, c, 0, c, 0, n1, i);
                } else {
                    lemma_grid_contained(rect, g, f, 0, f, n1, n2, i - l1);
                }
            }
            lemma_grid_first(x0, y0, q_div_int(b, g), q_div_int(a, c), c, n1);
            lemma_grid_last(rect, g, f, 0, f, n1, n2);
            assert(s[s.len() - 1] == spec_grid(
                x0,
                y0,
                q_div_int(b, g),
                q_div_int(a, f),
                0,
                f,
                n1,
                n2,
            )[l2 - 1]);
        }
    }
}

/// Sum of the areas of a sequence of rectangles.
pub open spec fn spec_area_sum(s: Seq<QRect>) -> Q
    decreases s.len(),
{
    if s.len() == 0 {
        q_int(0)
    } else {
        q_add(spec_area_sum(s.drop_last()), qrect_area(s.last()))
    }
}

/// Adding zero does not change a value.
proof fn lemma_q_add_zero(x: Q)
    by (nonlinear_arith)
    requires
        x.d >= 1,
    ensures
        q_eqv(q_add(x, q_int(0)), x),
        q_eqv(q_add(q_int(0), x), x),
        q_wf(q_add(x, q_int(0))),
        q_wf(q_add(q_int(0), x)),
{
}

/// Addition of values is associative up to value equality.
proof fn lemma_q_add_assoc(u: Q, v: Q, w: Q)
    requires
        u.d >= 1,
        v.d >= 1,
        w.d >= 1,
    ensures
        q_eqv(q_add(q_add(u, v), w), q_add(u, q_add(v, w))),
        q_wf(q_add(q_add(u, v), w)),
        q_wf(q_add(u, q_add(v, w))),
{
    let l = q_add(q_add(u, v), w);
    let r = q_add(u, q_add(v, w));
    lemma_mul_is_distributive_add_other_way(w.d, u.n * v.d, v.n * u.d);
    lemma_mul_is_distributive_add_other_way(u.d, v.n * w.d, w.n * v.d);
    assert((u.n * v.d) * w.d == u.n * (v.d * w.d)) by (nonlinear_arith);
    assert((v.n * u.d) * w.d == (v.n * w.d) * u.d) by (nonlinear_arith);
    assert(w.n * (u.d * v.d) == (w.n * v.d) * u.d) by (nonlinear_arith);
    assert((u.d * v.d) * w.d == u.d * (v.d * w.d)) by (nonlinear_arith);
    assert(l.n == r.n && l.d == r.d);
    assert(l.d >= 1) by (nonlinear_arith)
        requires
            u.d >= 1,
            v.d >= 1,
            w.d >= 1,
            l.d == (u.d * v.d) * w.d,
    ;
}

/// A sequence of rectangles of one common area value sums to that value
/// taken as many times.
proof fn lemma_area_sum_const(s: Seq<QRect>, qa: Q)
    requires
        q_wf(qa),
        forall|i: int|
            0 <= i < s.len() ==> q_wf(qrect_area(#[trigger] s[i])) && q_eqv(qrect_area(s[i]), qa),
    ensures
        q_eqv(spec_area_sum(s), q_mul_int(qa, s.len() as int)),
        q_wf(spec_area_sum(s)),
    decreases s.len(),
{
    if s.len() == 0 {
        assert(q_eqv(q_int(0), q_mul_int(qa, 0))) by (nonlinear_arith)
            requires
                qa.d >= 1,
        ;
    } else {
        let front = s.drop_last();
        let n = s.len() as int;
        lemma_area_sum_const(front, qa);
        lemma_q_add_congr(
            spec_area_sum(front),
            q_mul_int(qa, n - 1),
            qrect_area(s.last()),
            qa,
        );
        assert(q_eqv(q_add(q_mul_int(qa, n - 1), qa), q_mul_int(qa, n)) && q_wf(
            q_add(q_mul_int(qa, n - 1), qa),
        )) by (nonlinear_arith)
            requires
                qa.d >= 1,
        ;
        lemma_q_eqv_trans(
            spec_area_sum(s),
            q_add(q_mul_int(qa, n - 1), qa),
            q_mul_int(qa, n),
        );
    }
}

/// Area sums distribute over concatenation, up to value equality.
proof fn lemma_area_sum_concat(s1: Seq<QRect>, s2: Seq<QRect>)
    requires
        forall|i: int| 0 <= i < s1.len() ==> q_wf(qrect_area(#[trigger] s1[i])),
        forall|i: int| 0 <= i < s2.len() ==> q_wf(qrect_area(#[trigger] s2[i])),
    ensures
        q_eqv(spec_area_sum(s1 + s2), q_add(spec_area_sum(s1), spec_area_sum(s2))),
        q_wf(spec_area_sum(s1 + s2)),
        q_wf(spec_area_sum(s1)),
        q_wf(spec_area_sum(s2)),
    decreases s2.len(),
{
    lemma_area_sum_wf(s1);
    lemma_area_sum_wf(s2);
    lemma_area_sum_wf(s1 + s2);
    if s2.len() == 0 {
        assert(s1 + s2 =~= s1);
        lemma_q_add_zero(spec_area_sum(s1));
        assert(q_eqv(spec_area_sum(s1), q_add(spec_area_sum(s1), q_int(0)))) by (nonlinear_arith)
            requires
                q_eqv(q_add(spec_area_sum(s1), q_int(0)), spec_area_sum(s1)),
        ;
    } else {
        let front = s2.drop_last();
        let last = s2.last();
        assert((s1 + s2).drop_last() =~= s1 + front);
        assert((s1 + s2).last() == last);
        lemma_area_sum_concat(s1, front);
        assert(q_wf(q_add(spec_area_sum(s1), spec_area_sum(front)))) by (nonlinear_arith)
            requires
                spec_area_sum(s1).d >= 1,
                spec_area_sum(front).d >= 1,
                q_add(spec_area_sum(s1), spec_area_sum(front)).d == spec_area_sum(s1).d
                    * spec_area_sum(front).d,
        ;
        lemma_q_add_congr(
            spec_area_sum(s1 + front),
            q_add(spec_area_sum(s1), spec_area_sum(front)),
            qrect_area(last),
            qrect_area(last),
        );
        lemma_q_add_assoc(spec_area_sum(s1), spec_area_sum(front), qrect_area(last));
        lemma_q_eqv_trans(
            spec_area_sum(s1 + s2),
            q_add(q_add(spec_area_sum(s1), spec_area_sum(front)), qrect_area(last)),
            q_add(spec_area_sum(s1), q_add(spec_area_sum(front), qrect_area(last))),
        );
    }
}

/// An area sum over well-formed areas is well-formed.
proof fn lemma_area_sum_wf(s: Seq<QRect>)
    requires
        forall|i: int| 0 <= i < s.len() ==> q_wf(qrect_area(#[trigger] s[i])),
    ensures
        q_wf(spec_area_sum(s)),
    decreases s.len(),
{
    if s.len() > 0 {
        lemma_area_sum_wf(s.drop_last());
        assert(q_wf(spec_area_sum(s))) by (nonlinear_arith)
            requires
                spec_area_sum(s).d == spec_area_sum(s.drop_last()).d * qrect_area(s.last()).d,
                spec_area_sum(s.drop_last()).d >= 1,
                qrect_area(s.last()).d >= 1,
        ;
    }
}

/// The span of one grid step equals the step value.
proof fn lemma_tile_span(x0: Q, dx: Q, i: int)
    requires
        x0.d >= 1,
        dx.d >= 1,
    ensures
        q_eqv(q_sub(q_add(x0, q_mul_int(dx, i + 1)), q_add(x0, q_mul_int(dx, i))), dx),
        q_wf(q_sub(q_add(x0, q_mul_int(dx, i + 1)), q_add(x0, q_mul_int(dx, i)))),
{
    let u2 = q_add(x0, q_mul_int(dx, i + 1));
    let u1 = q_add(x0, q_mul_int(dx, i));
    let w = q_sub(u2, u1);
    assert(w.n * dx.d == dx.n * w.d && w.d >= 1) by (nonlinear_arith)
        requires
            x0.d >= 1,
            dx.d >= 1,
            u2.n == x0.n * dx.d + (dx.n * (i + 1)) * x0.d,
            u1.n == x0.n * dx.d + (dx.n * i) * x0.d,
            u2.d == x0.d * dx.d,
            u1.d == x0.d * dx.d,
            w.n == u2.n * u1.d - u1.n * u2.d,
            w.d == u2.d * u1.d,
    ;
}

/// Every tile of a grid has the area of one cell: column width times row
/// height.
proof fn lemma_tile_area(x0: Q, y0: Q, dc: Q, dr: Q, row: int, col: int)
    requires
        x0.d >= 1,
        y0.d >= 1,
        dc.d >= 1,
        dr.d >= 1,
    ensures
        q_eqv(qrect_area(spec_tile(x0, y0, dc, dr, row, col)), q_mul(dc, dr)),
        q_wf(qrect_area(spec_tile(x0, y0, dc, dr, row, col))),
{
    lemma_tile_span(x0, dc, col);
    lemma_tile_span(y0, dr, row);
    let t = spec_tile(x0, y0, dc, dr, row, col);
    lemma_q_mul_congr(qrect_width(t), dc, qrect_height(t), dr);
}

/// `l` cells of size `(b/cx) x (a/gy)` with `l == gy * cx` have total
/// area `b * a`.
proof fn lemma_cell_total(b: Q, a: Q, cx: int, gy: int, l: int)
    requires
        b.d >= 1,
        a.d >= 1,
        cx >= 1,
        gy >= 1,
        l == gy * cx,
    ensures
        q_eqv(q_mul_int(q_mul(q_div_int(b, cx), q_div_int(a, gy)), l), q_mul(b, a)),
{
    let qa = q_mul(q_div_int(b, cx), q_div_int(a, gy));
    assert((qa.n * l) * (b.d * a.d) == (b.n * a.n) * qa.d) by (nonlinear_arith)
        requires
            qa.n == b.n * a.n,
            qa.d == (b.d * cx) * (a.d * gy),
            l == gy * cx,
    ;
}

/// A group of `n1` stripes of `c` cells each, with cell size
/// `(b/c) x (a/g)` for a row split (or the symmetric column form), has
/// total area `n1 * b * a / g`.
proof fn lemma_group_sum_value(b: Q, a: Q, g: int, c: int, n1: int, l1: int, qa: Q)
    requires
        b.d >= 1,
        a.d >= 1,
        g >= 1,
        c >= 1,
        n1 >= 1,
        l1 == n1 * c,
        qa.n == b.n * a.n,
        qa.d == (b.d * c) * (a.d * g) || qa.d == (b.d * g) * (a.d * c),
    ensures
        q_eqv(q_mul_int(qa, l1), Q { n: (b.n * a.n) * n1, d: (b.d * a.d) * g }),
        q_wf(q_mul_int(qa, l1)),
        q_wf(Q { n: (b.n * a.n) * n1, d: (b.d * a.d) * g }),
{
    assert(((qa.n * l1) * ((b.d * a.d) * g) == ((b.n * a.n) * n1) * qa.d) && qa.d >= 1 && (b.d
        * a.d) * g >= 1) by (nonlinear_arith)
        requires
            b.d >= 1,
            a.d >= 1,
            g >= 1,
            c >= 1,
            qa.n == b.n * a.n,
            qa.d == (b.d * c) * (a.d * g) || qa.d == (b.d * g) * (a.d * c),
            l1 == n1 * c,
    ;
}

/// Two stripe groups that together realize all `g` stripes have total
/// area `b * a`.
proof fn lemma_two_groups_total(b: Q, a: Q, g: int, n1: int, n2: int)
    requires
        b.d >= 1,
        a.d >= 1,
        g >= 1,
        n1 >= 1,
        n2 >= 1,
        n1 + n2 == g,
    ensures
        q_eqv(
            q_add(
                Q { n: (b.n * a.n) * n1, d: (b.d * a.d) * g },
                Q { n: (b.n * a.n) * n2, d: (b.d * a.d) * g },
            ),
            q_mul(b, a),
        ),
{
    let u = Q { n: (b.n * a.n) * n1, d: (b.d * a.d) * g };
    let v = Q { n: (b.n * a.n) * n2, d: (b.d * a.d) * g };
    let s = q_add(u, v);
    assert(s.n * (b.d * a.d) == (b.n * a.n) * s.d) by (nonlinear_arith)
        requires
            s.n == u.n * v.d + v.n * u.d,
            s.d == u.d * v.d,
            u.n == (b.n * a.n) * n1,
            v.n == (b.n * a.n) * n2,
            u.d == (b.d * a.d) * g,
            v.d == (b.d * a.d) * g,
            n1 + n2 == g,
    ;
}

/// LAW: the areas of the subdomains of a successful decomposition sum to
/// the area of the input rectangle, exactly.
pub proof fn lemma_decompose_area(rect: QRect, p: int)
    requires
        decompose_pre(rect, p),
    ensures
        match spec_kmr_decompose(rect, p) {
            Some(s) => q_eqv(spec_area_sum(s), qrect_area(rect)),
            None => true,
        },
{
    let a = qrect_height(rect);
    let b = qrect_width(rect);
    let x0 = rect.min0;
    let y0 = rect.min1;
    assert(a.d >= 1 && b.d >= 1 && q_wf(qrect_area(rect))) by (nonlinear_arith)
        requires
            a.d == rect.max1.d * rect.min1.d,
            b.d == rect.max0.d * rect.min0.d,
            qrect_area(rect).d == b.d * a.d,
            rect.max1.d >= 1,
            rect.min1.d >= 1,
            rect.max0.d >= 1,
            rect.min0.d >= 1,
    ;
    if p == 1 {
        let s = seq![rect];
        assert(s.drop_last() =~= Seq::<QRect>::empty());
        assert(spec_area_sum(Seq::<QRect>::empty()) == q_int(0));
        lemma_q_add_zero(qrect_area(rect));
        return ;
    }
    if q_le(q_int(p), q_max(q_div(b, a), q_div(a, b))) {
        let s = spec_strips(rect, p);
        lemma_div_int_wf(b, p);
        lemma_div_int_wf(a, p);
        assert(q_wf(q_mul(b, a))) by (nonlinear_arith)
            requires
                b.d >= 1,
                a.d >= 1,
                q_mul(b, a).d == b.d * a.d,
        ;
        if q_le(a, b) {
            let dx = q_div_int(b, p);
            let qa = q_mul(dx, a);
            assert(q_wf(qa)) by (nonlinear_arith)
                requires
                    dx.d >= 1,
                    a.d >= 1,
                    qa.d == dx.d * a.d,
            ;
            assert forall|i: int| 0 <= i < s.len() implies q_wf(qrect_area(#[trigger] s[i]))
                && q_eqv(qrect_area(s[i]), qa) by {
                lemma_tile_span(x0, dx, i);
                lemma_q_mul_congr(qrect_width(s[i]), dx, a, a);
            }
            lemma_area_sum_const(s, qa);
            lemma_cell_total(b, a, p, 1, p);
            assert(q_mul(q_div_int(b, p), q_div_int(a, 1)).n == qa.n && q_mul(
                q_div_int(b, p),
                q_div_int(a, 1),
            ).d == qa.d * 1);
            assert(q_eqv(q_mul_int(qa, p), q_mul(b, a))) by (nonlinear_arith)
                requires
                    q_eqv(
                        q_mul_int(q_mul(q_div_int(b, p), q_div_int(a, 1)), p),
                        q_mul(b, a),
                    ),
                    q_mul(q_div_int(b, p), q_div_int(a, 1)).n == qa.n,
                    q_mul(q_div_int(b, p), q_div_int(a, 1)).d == qa.d * 1,
            ;
            lemma_q_eqv_trans(spec_area_sum(s), q_mul_int(qa, p), q_mul(b, a));
        } else {
            let dx = q_div_int(a, p);
            let qa = q_mul(b, dx);
            assert(q_wf(qa)) by (nonlinear_arith)
                requires
                    dx.d >= 1,
                    b.d >= 1,
                    qa.d == b.d * dx.d,
            ;
            assert forall|i: int| 0 <= i < s.len() implies q_wf(qrect_area(#[trigger] s[i]))
                && q_eqv(qrect_area(s[i]), qa) by {
                lemma_tile_span(y0, dx, i);
                lemma_q_mul_congr(qrect_width(s[i]), b, qrect_height(s[i]), dx);
            }
            lemma_area_sum_const(s, qa);
            assert(q_eqv(q_mul_int(qa, p), q_mul(b, a))) by (nonlinear_arith)
                requires
                    qa.n == b.n * a.n,
                    qa.d == b.d * (a.d * p),
                    p >= 1,
            ;
            lemma_q_eqv_trans(spec_area_sum(s), q_mul_int(qa, p), q_mul(b, a));
        }
    } else {
        lemma_split_in_range(rect, p);
        match spec_figure_out(spec_calculate(a, b, p)) {
            Some(split) => {
                lemma_generate_area(split, p, rect);
            },
            None => {},
        }
    }
}

/// The generated tiling's areas sum to the area of the rectangle.
proof fn lemma_generate_area(split: QSplit, p: int, rect: QRect)
    requires
        qrect_wf(rect),
        1 <= split.count <= p,
        2 <= p,
    ensures
        q_eqv(spec_area_sum(spec_generate(split, p, rect)), qrect_area(rect)),
{
    let s = spec_generate(split, p, rect);
    let a = qrect_height(rect);
    let b = qrect_width(rect);
    let x0 = rect.min0;
    let y0 = rect.min1;
    let g = split.count;
    let f = p / g;
    let c = f + 1;
    lemma_split_counts(p, g);
    assert(a.d >= 1 && b.d >= 1) by (nonlinear_arith)
        requires
            a.d == rect.max1.d * rect.min1.d,
            b.d == rect.max0.d * rect.min0.d,
            rect.max1.d >= 1,
            rect.min1.d >= 1,
            rect.max0.d >= 1,
            rect.min0.d >= 1,
    ;
    lemma_div_int_wf(a, g);
    lemma_div_int_wf(b, g);
    lemma_div_int_wf(a, f);
    lemma_div_int_wf(b, f);
    lemma_div_int_wf(a, c);
    lemma_div_int_wf(b, c);
    if p % g == 0 {
        let (dc, dr) = if split.row {
            (q_div_int(b, f), q_div_int(a, g))
        } else {
            (q_div_int(b, g), q_div_int(a, f))
        };
        let qa = q_mul(dc, dr);
        assert(q_wf(qa)) by (nonlinear_arith)
            requires
                dc.d >= 1,
                dr.d >= 1,
                qa.d == dc.d * dr.d,
        ;
        assert forall|i: int| 0 <= i < s.len() implies q_wf(qrect_area(#[trigger] s[i])) && q_eqv(
            qrect_area(s[i]),
            qa,
        ) by {
            if split.row {
                lemma_grid_index(i, g, f);
            } else {
                lemma_grid_index(i, f, g);
            }
            lemma_tile_area(x0, y0, dc, dr, if split.row { i / f } else { i / g }, if split.row { i % f } else { i % g });
        }
        lemma_area_sum_const(s, qa);
        if split.row {
            lemma_cell_total(b, a, f, g, s.len() as int);
        } else {
            assert(s.len() as int == f * g);
            assert(f * g == g * f) by (nonlinear_arith);
            assert(q_mul(q_div_int(b, g), q_div_int(a, f)) == qa);
            lemma_cell_total(b, a, g, f, s.len() as int);
        }
        assert(q_wf(q_mul(b, a))) by (nonlinear_arith)
            requires
                b.d >= 1,
                a.d >= 1,
                q_mul(b, a).d == b.d * a.d,
        ;
        lemma_q_eqv_trans(spec_area_sum(s), q_mul_int(qa, s.len() as int), q_mul(b, a));
    } else {
        let n1 = p - g * f;
        let n2 = g * c - p;
        let (g1, g2) = if split.row {
            (
                spec_grid(x0, y0, q_div_int(b, c), q_div_int(a, g), 0, n1, 0, c),
                spec_grid(x0, y0, q_div_int(b, f), q_div_int(a, g), n1, n2, 0, f),
            )
        } else {
            (
                spec_grid(x0, y0, q_div_int(b, g), q_div_int(a, c), 0, c, 0, n1),
                spec_grid(x0, y0, q_div_int(b, g), q_div_int(a, f), 0, f, n1, n2),
            )
        };
        let qa1 = if split.row {
            q_mul(q_div_int(b, c), q_div_int(a, g))
        } else {
            q_mul(q_div_int(b, g), q_div_int(a, c))
        };
        let qa2 = if split.row {
            q_mul(q_div_int(b, f), q_div_int(a, g))
        } else {
            q_mul(q_div_int(b, g), q_div_int(a, f))
        };
        let l1 = g1.len() as int;
        let l2 = g2.len() as int;
        assert(s == g1 + g2);
        assert(q_wf(qa1) && q_wf(qa2)) by (nonlinear_arith)
            requires
                b.d >= 1,
                a.d >= 1,
                c >= 1,
                f >= 1,
                g >= 1,
                qa1.d == (b.d * c) * (a.d * g) || qa1.d == (b.d * g) * (a.d * c),
                qa2.d == (b.d * f) * (a.d * g) || qa2.d == (b.d * g) * (a.d * f),
        ;
        assert forall|i: int| 0 <= i < g1.len() implies q_wf(qrect_area(#[trigger] g1[i]))
            && q_eqv(qrect_area(g1[i]), qa1) by {
            if split.row {
                lemma_grid_index(i, n1, c);
                lemma_tile_area(x0, y0, q_div_int(b, c), q_div_int(a, g), i / c, i % c);
            } else {
                lemma_grid_index(i, c, n1);
                lemma_tile_area(x0, y0, q_div_int(b, g), q_div_int(a, c), i / n1, i % n1);
            }
        }
        assert forall|i: int| 0 <= i < g2.len() implies q_wf(qrect_area(#[trigger] g2[i]))
            && q_eqv(qrect_area(g2[i]), qa2) by {
            if split.row {
                lemma_grid_index(i, n2, f);
                lemma_tile_area(x0, y0, q_div_int(b, f), q_div_int(a, g), n1 + i / f, i % f);
            } else {
                lemma_grid_index(i, f, n2);
                lemma_tile_area(x0, y0, q_div_int(b, g), q_div_int(a, f), i / n2, n1 + i % n2);
            }
        }
        lemma_area_sum_const(g1, qa1);
        lemma_area_sum_const(g2, qa2);
        lemma_area_sum_concat(g1, g2);
        assert(l1 == n1 * c && l2 == n2 * f) by (nonlinear_arith)
            requires
                l1 == g1.len(),
                l2 == g2.len(),
                g1.len() == if split.row { n1 * c } else { c * n1 },
                g2.len() == if split.row { n2 * f } else { f * n2 },
        ;
        lemma_group_sum_value(b, a, g, c, n1, l1, qa1);
        lemma_group_sum_value(b, a, g, f, n2, l2, qa2);
        let u = Q { n: (b.n * a.n) * n1, d: (b.d * a.d) * g };
        let v = Q { n: (b.n * a.n) * n2, d: (b.d * a.d) * g };
        lemma_q_add_congr(
            q_mul_int(qa1, l1),
            u,
            q_mul_int(qa2, l2),
            v,
        );
        lemma_q_add_congr(
            spec_area_sum(g1),
            q_mul_int(qa1, l1),
            spec_area_sum(g2),
            q_mul_int(qa2, l2),
        );
        lemma_two_groups_total(b, a, g, n1, n2);
        assert(q_wf(q_mul(b, a))) by (nonlinear_arith)
            requires
                b.d >= 1,
                a.d >= 1,
                q_mul(b, a).d == b.d * a.d,
        ;
        lemma_q_eqv_trans(
            q_add(spec_area_sum(g1), spec_area_sum(g2)),
            q_add(q_mul_int(qa1, l1), q_mul_int(qa2, l2)),
            q_add(u, v),
        );
        lemma_q_eqv_trans(
            q_add(spec_area_sum(g1), spec_area_sum(g2)),
            q_add(u, v),
            q_mul(b, a),
        );
        lemma_q_eqv_trans(
            spec_area_sum(s),
            q_add(spec_area_sum(g1), spec_area_sum(g2)),
            q_mul(b, a),
        );
    }
}

} // verus!

