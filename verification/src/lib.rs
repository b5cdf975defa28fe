//! Decomposition of an axis-aligned rectangular domain into a requested
//! number of non-overlapping sub-rectangles of near-minimal maximum
//! perimeter, following the algorithm of Kong, Mount and Roscoe, together
//! with a digitization routine that assigns finer cells to the generated
//! subdomains by centroid containment.
//!
//! All geometry is carried out in exact rational arithmetic ([`Rat`]), so
//! every result is an exact function of the input.

use vstd::prelude::*;

pub mod rat;
pub mod kong_mount_roscoe;
pub mod laws;

pub use rat::{Rat, Q, OP_BOUND};
pub use rat::{q_wf, q_int, q_add, q_sub, q_mul, q_div, q_mul_int, q_div_int};
pub use rat::{q_le, q_lt, q_eqv, q_pos, q_min, q_max, q_bounded, q_bounds};
pub use rat::lemma_rat_view_injective;
pub use kong_mount_roscoe::{Error, KongMountRoscoeValues, Decomposition, QKmrValues, QSplit};
pub use kong_mount_roscoe::{kmr_decompose, kmr_digitize_1, kmr_digitize_1_single};
pub use kong_mount_roscoe::{create_rectangles, DecomposedDomain, SortedDigits};
pub use kong_mount_roscoe::{INPUT_BOUND, COUNT_MAX, DIGIT_BOUND};
pub use kong_mount_roscoe::{spec_kmr_decompose, spec_calculate, spec_figure_out, spec_generate};
pub use kong_mount_roscoe::{spec_strips, spec_grid, spec_tile, spec_assigned, spec_bucket};
pub use kong_mount_roscoe::{spec_has_home, spec_no_home};

verus! {

/// Generalized axis-aligned cuboid; only the two-dimensional instance is
/// produced by the algorithms of this crate. Axis 0 is the width, axis 1
/// the height. The intended invariant `min[i] <= max[i]` is not enforced
/// on construction: callers are trusted to supply ordered corners.
#[derive(Clone, Copy, Debug, PartialEq)]
pub struct Cuboid {
    /// Lower bounds of the cuboid.
    pub min: [Rat; 2],
    /// Upper bounds of the cuboid.
    pub max: [Rat; 2],
}

/// Two-dimensional variant of the [`Cuboid`].
pub type Rectangle = Cuboid;

/// Mathematical value of a rectangle: the four corner coordinates as
/// rational values.
pub ghost struct QRect {
    pub min0: Q,
    pub min1: Q,
    pub max0: Q,
    pub max1: Q,
}

impl View for Cuboid {
    type V = QRect;

    open spec fn view(&self) -> QRect {
        QRect { min0: self.min[0]@, min1: self.min[1]@, max0: self.max[0]@, max1: self.max[1]@ }
    }
}

/// `a` and `b` differ by at most `eps`: `|a - b| <= eps` as values.
pub open spec fn q_within(a: Q, b: Q, eps: Q) -> bool {
    q_le(q_sub(a, b), eps) && q_le(q_sub(b, a), eps)
}

/// The corners of `r` and `t` agree within `eps`, component-wise.
pub open spec fn qrect_within(r: QRect, t: QRect, eps: Q) -> bool {
    &&& q_within(r.min0, t.min0, eps)
    &&& q_within(r.min1, t.min1, eps)
    &&& q_within(r.max0, t.max0, eps)
    &&& q_within(r.max1, t.max1, eps)
}

impl Cuboid {
    /// All four corner coordinates have positive denominators.
    pub open spec fn wf(self) -> bool {
        qrect_wf(self@)
    }

    /// All four corner coordinates have numerator magnitude and denominator
    /// within `b`.
    pub open spec fn bounded(self, b: int) -> bool {
        qrect_bounded(self@, b)
    }

    /// Approximate equality within the caller-supplied tolerance: every
    /// corner coordinate of `self` is within `epsilon` of the matching
    /// coordinate of `other`.
    pub fn abs_diff_eq(&self, other: &Cuboid, epsilon: &Rat) -> (r: bool)
        requires
            self.bounded(0x4000_0000),
            other.bounded(0x4000_0000),
            epsilon.bounded(OP_BOUND as int),
        ensures
            r == qrect_within(self@, other@, epsilon@),
    {
        rat_within(&self.min[0], &other.min[0], epsilon) && rat_within(
            &self.min[1],
            &other.min[1],
            epsilon,
        ) && rat_within(&self.max[0], &other.max[0], epsilon) && rat_within(
            &self.max[1],
            &other.max[1],
            epsilon,
        )
    }
}

fn rat_within(a: &Rat, b: &Rat, eps: &Rat) -> (r: bool)
    requires
        a.bounded(0x4000_0000),
        b.bounded(0x4000_0000),
        eps.bounded(OP_BOUND as int),
    ensures
        r == q_within(a@, b@, eps@),
{
    proof {
        lemma_rat_diff_bounded(a@, b@);
    }
    a.sub(b).le(eps) && b.sub(a).le(eps)
}

proof fn lemma_rat_diff_bounded(a: Q, b: Q)
    by (nonlinear_arith)
    requires
        q_bounded(a, 0x4000_0000),
        q_bounded(b, 0x4000_0000),
    ensures
        q_bounded(q_sub(a, b), OP_BOUND as int),
        q_bounded(q_sub(b, a), OP_BOUND as int),
        q_bounded(a, OP_BOUND as int),
        q_bounded(b, OP_BOUND as int),
{
}

pub open spec fn qrect_wf(r: QRect) -> bool {
    q_wf(r.min0) && q_wf(r.min1) && q_wf(r.max0) && q_wf(r.max1)
}

pub open spec fn qrect_bounded(r: QRect, b: int) -> bool {
    q_bounded(r.min0, b) && q_bounded(r.min1, b) && q_bounded(r.max0, b) && q_bounded(r.max1, b)
}

/// Corners are ordered on both axes: the rectangle invariant.
pub open spec fn qrect_ordered(r: QRect) -> bool {
    q_le(r.min0, r.max0) && q_le(r.min1, r.max1)
}

/// Width of the rectangle (axis 0 extent), written `B` in the source paper.
pub open spec fn qrect_width(r: QRect) -> Q {
    q_sub(r.max0, r.min0)
}

/// Height of the rectangle (axis 1 extent), written `A` in the source paper.
pub open spec fn qrect_height(r: QRect) -> Q {
    q_sub(r.max1, r.min1)
}

/// Centroid coordinate of `r` on axis 0.
pub open spec fn qrect_mid0(r: QRect) -> Q {
    q_div_int(q_add(r.min0, r.max0), 2)
}

/// Centroid coordinate of `r` on axis 1.
pub open spec fn qrect_mid1(r: QRect) -> Q {
    q_div_int(q_add(r.min1, r.max1), 2)
}

/// The closed rectangle `r` contains the centroid of `d` on both axes.
pub open spec fn qrect_contains_mid(r: QRect, d: QRect) -> bool {
    &&& q_le(r.min0, qrect_mid0(d))
    &&& q_le(qrect_mid0(d), r.max0)
    &&& q_le(r.min1, qrect_mid1(d))
    &&& q_le(qrect_mid1(d), r.max1)
}

/// The interiors of `r` and `t` are disjoint: the rectangles are separated
/// (possibly sharing an edge) along at least one axis.
pub open spec fn qrect_interiors_disjoint(r: QRect, t: QRect) -> bool {
    ||| q_le(r.max0, t.min0)
    ||| q_le(t.max0, r.min0)
    ||| q_le(r.max1, t.min1)
    ||| q_le(t.max1, r.min1)
}

/// `r` lies within `t` (both taken as closed rectangles, by value).
pub open spec fn qrect_contained_in(r: QRect, t: QRect) -> bool {
    &&& q_le(t.min0, r.min0)
    &&& q_le(r.max0, t.max0)
    &&& q_le(t.min1, r.min1)
    &&& q_le(r.max1, t.max1)
}

/// Area of the rectangle: width times height.
pub open spec fn qrect_area(r: QRect) -> Q {
    q_mul(qrect_width(r), qrect_height(r))
}

/// The views of a sequence of rectangles.
pub open spec fn rects_view(s: Seq<Cuboid>) -> Seq<QRect> {
    Seq::new(s.len(), |i: int| s[i]@)
}

/// The view determines the rectangle: equal views mean equal values.
pub proof fn lemma_cuboid_view_injective(a: Cuboid, b: Cuboid)
    requires
        a@ == b@,
    ensures
        a == b,
{
    lemma_rat_view_injective(a.min[0], b.min[0]);
    lemma_rat_view_injective(a.min[1], b.min[1]);
    lemma_rat_view_injective(a.max[0], b.max[0]);
    lemma_rat_view_injective(a.max[1], b.max[1]);
    assert(a.min =~= b.min);
    assert(a.max =~= b.max);
}

} // verus!
