//! Exact rational scalars.
//!
//! The decomposition algorithm needs a scalar type closed under addition,
//! subtraction, multiplication and division, together with floor/ceil of
//! square roots of quotients. All of it is done here over rationals held
//! as a numerator and a positive denominator, so every computed coordinate
//! is an exact function of the inputs.

use vstd::prelude::*;
use vstd::arithmetic::mul::lemma_mul_strictly_positive;

verus! {

/// The mathematical value of a rational: an integer numerator over a
/// positive integer denominator. Two values denote the same rational
/// exactly when they cross-multiply equally (`q_eqv`).
pub ghost struct Q {
    pub n: int,
    pub d: int,
}

/// A well-formed rational value has a positive denominator.
pub open spec fn q_wf(a: Q) -> bool {
    a.d >= 1
}

/// The rational with integer value `n`.
pub open spec fn q_int(n: int) -> Q {
    Q { n, d: 1 }
}

pub open spec fn q_add(a: Q, b: Q) -> Q {
    Q { n: a.n * b.d + b.n * a.d, d: a.d * b.d }
}

pub open spec fn q_sub(a: Q, b: Q) -> Q {
    Q { n: a.n * b.d - b.n * a.d, d: a.d * b.d }
}

pub open spec fn q_mul(a: Q, b: Q) -> Q {
    Q { n: a.n * b.n, d: a.d * b.d }
}

/// Division by a rational with positive numerator.
pub open spec fn q_div(a: Q, b: Q) -> Q
    recommends
        q_wf(b),
        b.n >= 1,
{
    Q { n: a.n * b.d, d: a.d * b.n }
}

pub open spec fn q_mul_int(a: Q, i: int) -> Q {
    Q { n: a.n * i, d: a.d }
}

/// Division by a positive integer.
pub open spec fn q_div_int(a: Q, i: int) -> Q
    recommends
        i >= 1,
{
    Q { n: a.n, d: a.d * i }
}

/// Value comparison by cross-multiplication (sound when both are well-formed).
pub open spec fn q_le(a: Q, b: Q) -> bool {
    a.n * b.d <= b.n * a.d
}

pub open spec fn q_lt(a: Q, b: Q) -> bool {
    a.n * b.d < b.n * a.d
}

/// Value equality: `a` and `b` denote the same rational number.
pub open spec fn q_eqv(a: Q, b: Q) -> bool {
    a.n * b.d == b.n * a.d
}

/// Strictly positive value (for a well-formed rational).
pub open spec fn q_pos(a: Q) -> bool {
    a.n >= 1
}

/// The smaller of two values; on ties the first argument is kept.
pub open spec fn q_min(a: Q, b: Q) -> Q {
    if q_le(a, b) {
        a
    } else {
        b
    }
}

/// The larger of two values; on ties the second argument is kept.
pub open spec fn q_max(a: Q, b: Q) -> Q {
    if q_le(a, b) {
        b
    } else {
        a
    }
}

/// Numerator magnitude within `nb`, denominator positive and within `db`.
pub open spec fn q_bounds(a: Q, nb: int, db: int) -> bool {
    &&& -nb <= a.n <= nb
    &&& 1 <= a.d <= db
}

/// Numerator and denominator both within `b` in magnitude, denominator positive.
pub open spec fn q_bounded(a: Q, b: int) -> bool {
    q_bounds(a, b, b)
}

/// Largest `h` in `[0, cap]` with `h * h * qd <= qn`: the floor of the
/// square root of the rational `qn / qd`, saturated at `cap`.
pub open spec fn sqrt_floor_cap(qn: int, qd: int, cap: int) -> int
    decreases cap,
{
    if cap <= 0 {
        0
    } else if cap * cap * qd <= qn {
        cap
    } else {
        sqrt_floor_cap(qn, qd, cap - 1)
    }
}

/// `sqrt_floor_cap` returns the largest value in `[0, cap]` whose square
/// does not exceed `qn / qd`.
pub proof fn lemma_sqrt_floor_cap_props(qn: int, qd: int, cap: int)
    requires
        qd >= 1,
        qn >= 0,
        cap >= 0,
    ensures
        0 <= sqrt_floor_cap(qn, qd, cap) <= cap,
        sqrt_floor_cap(qn, qd, cap) * sqrt_floor_cap(qn, qd, cap) * qd <= qn,
        forall|j: int| sqrt_floor_cap(qn, qd, cap) < j <= cap ==> #[trigger] (j * j) * qd > qn,
    decreases cap,
{
    let r: int = sqrt_floor_cap(qn, qd, cap);
    if cap <= 0 {
        assert(r == 0);
        assert(r * r * qd == 0) by (nonlinear_arith)
            requires
                r == 0,
        ;
    } else if cap * cap * qd <= qn {
        assert(r == cap);
    } else {
        lemma_sqrt_floor_cap_props(qn, qd, cap - 1);
        assert(r == sqrt_floor_cap(qn, qd, cap - 1));
    }
}

/// Magnitude bound under which every arithmetic operation below is free of
/// `i128` overflow: products of two such operands stay below `2^124`.
pub const OP_BOUND: i128 = 0x4000_0000_0000_0000;

/// Numerator magnitude accepted by the square-root helpers.
pub const SQRT_NUM_BOUND: i128 = 0x1_0000_0000_0000_0000_0000;

/// Denominator magnitude accepted by the square-root helpers.
pub const SQRT_DEN_BOUND: i128 = 0x4_0000_0000_0000_0000;

/// Largest saturation cap accepted by the square-root helpers.
pub const SQRT_CAP_MAX: u64 = 0x1_0000;

/// An exact rational scalar: `num / den` with `den >= 1`.
///
/// Values are kept unreduced, so each operation's result is a fixed
/// function of the operands' representations; `eq_val` compares by value.
#[derive(Clone, Copy, Debug, PartialEq, Eq, Structural)]
pub struct Rat {
    num: i128,
    den: i128,
}

impl View for Rat {
    type V = Q;

    closed spec fn view(&self) -> Q {
        Q { n: self.num as int, d: self.den as int }
    }
}

/// The view determines the scalar: equal views mean equal values.
pub proof fn lemma_rat_view_injective(a: Rat, b: Rat)
    requires
        a@ == b@,
    ensures
        a == b,
{
}

/// The value order is transitive over well-formed rationals.
pub proof fn lemma_q_le_trans(a: Q, b: Q, c: Q)
    by (nonlinear_arith)
    requires
        q_wf(a),
        q_wf(b),
        q_wf(c),
        q_le(a, b),
        q_le(b, c),
    ensures
        q_le(a, c),
{
}

/// `q_min` returns the smaller of its arguments, and one of them.
pub proof fn lemma_q_min_props(x: Q, y: Q)
    ensures
        q_le(q_min(x, y), x),
        q_le(q_min(x, y), y),
        q_min(x, y) == x || q_min(x, y) == y,
{
}

/// `q_max` returns the larger of its arguments, and one of them.
pub proof fn lemma_q_max_props(x: Q, y: Q)
    ensures
        q_le(x, q_max(x, y)),
        q_le(y, q_max(x, y)),
        q_max(x, y) == x || q_max(x, y) == y,
{
}

/// The value order respects value equality on the right.
pub proof fn lemma_q_le_eqv_right(a: Q, b: Q, c: Q)
    by (nonlinear_arith)
    requires
        q_wf(a),
        q_wf(b),
        q_wf(c),
        q_le(a, b),
        q_eqv(b, c),
    ensures
        q_le(a, c),
{
}

/// The value order respects value equality on the left.
pub proof fn lemma_q_le_eqv_left(a: Q, b: Q, c: Q)
    by (nonlinear_arith)
    requires
        q_wf(a),
        q_wf(b),
        q_wf(c),
        q_eqv(a, b),
        q_le(b, c),
    ensures
        q_le(a, c),
{
}

/// Value equality is transitive over well-formed rationals.
pub proof fn lemma_q_eqv_trans(a: Q, b: Q, c: Q)
    by (nonlinear_arith)
    requires
        q_wf(a),
        q_wf(b),
        q_wf(c),
        q_eqv(a, b),
        q_eqv(b, c),
    ensures
        q_eqv(a, c),
{
}

/// Addition respects value equality.
#[verifier::rlimit(50)]
pub proof fn lemma_q_add_congr(u: Q, u2: Q, v: Q, v2: Q)
    requires
        q_wf(u),
        q_wf(u2),
        q_wf(v),
        q_wf(v2),
        q_eqv(u, u2),
        q_eqv(v, v2),
    ensures
        q_eqv(q_add(u, v), q_add(u2, v2)),
        q_wf(q_add(u, v)),
        q_wf(q_add(u2, v2)),
{
    vstd::arithmetic::mul::lemma_mul_is_distributive_add_other_way(
        u2.d * v2.d,
        u.n * v.d,
        v.n * u.d,
    );
    assert((u.n * v.d) * (u2.d * v2.d) == (u.n * u2.d) * (v.d * v2.d)) by (nonlinear_arith);
    assert((v.n * u.d) * (u2.d * v2.d) == (v.n * v2.d) * (u.d * u2.d)) by (nonlinear_arith);
    assert((u.n * u2.d) * (v.d * v2.d) + (v.n * v2.d) * (u.d * u2.d) == (u2.n * u.d) * (v.d * v2.d)
        + (v2.n * v.d) * (u.d * u2.d)) by (nonlinear_arith)
        requires
            u.n * u2.d == u2.n * u.d,
            v.n * v2.d == v2.n * v.d,
    ;
    assert((u2.n * u.d) * (v.d * v2.d) == (u2.n * v2.d) * (u.d * v.d)) by (nonlinear_arith);
    assert((v2.n * v.d) * (u.d * u2.d) == (v2.n * u2.d) * (u.d * v.d)) by (nonlinear_arith);
    vstd::arithmetic::mul::lemma_mul_is_distributive_add_other_way(
        u.d * v.d,
        u2.n * v2.d,
        v2.n * u2.d,
    );
    assert(u.d * v.d >= 1 && u2.d * v2.d >= 1) by (nonlinear_arith)
        requires
            u.d >= 1,
            v.d >= 1,
            u2.d >= 1,
            v2.d >= 1,
    ;
}

/// Multiplication respects value equality.
pub proof fn lemma_q_mul_congr(u: Q, u2: Q, v: Q, v2: Q)
    requires
        q_wf(u),
        q_wf(u2),
        q_wf(v),
        q_wf(v2),
        q_eqv(u, u2),
        q_eqv(v, v2),
    ensures
        q_eqv(q_mul(u, v), q_mul(u2, v2)),
        q_wf(q_mul(u, v)),
        q_wf(q_mul(u2, v2)),
{
    assert((u.n * v.n) * (u2.d * v2.d) == (u.n * u2.d) * (v.n * v2.d)) by (nonlinear_arith);
    assert((u.n * u2.d) * (v.n * v2.d) == (u2.n * u.d) * (v2.n * v.d)) by (nonlinear_arith)
        requires
            u.n * u2.d == u2.n * u.d,
            v.n * v2.d == v2.n * v.d,
    ;
    assert((u2.n * u.d) * (v2.n * v.d) == (u2.n * v2.n) * (u.d * v.d)) by (nonlinear_arith);
    assert(u.d * v.d >= 1 && u2.d * v2.d >= 1) by (nonlinear_arith)
        requires
            u.d >= 1,
            v.d >= 1,
            u2.d >= 1,
            v2.d >= 1,
    ;
}

/// Product magnitude bound from factor magnitude bounds.
pub proof fn lemma_abs_mul_bound(x: int, y: int, bx: int, by: int)
    by (nonlinear_arith)
    requires
        -bx <= x <= bx,
        -by <= y <= by,
        0 <= bx,
        0 <= by,
    ensures
        -(bx * by) <= x * y <= bx * by,
{
}

impl Rat {
    /// Well-formed: positive denominator.
    pub open spec fn wf(self) -> bool {
        q_wf(self@)
    }

    /// Representation bounded by `b` (numerator magnitude and denominator).
    pub open spec fn bounded(self, b: int) -> bool {
        q_bounded(self@, b)
    }

    /// The rational `num / den`.
    pub fn new(num: i64, den: i64) -> (r: Rat)
        requires
            den >= 1,
        ensures
            r@ == (Q { n: num as int, d: den as int }),
            r.bounded(0x8000_0000_0000_0000),
    {
        Rat { num: num as i128, den: den as i128 }
    }

    /// The numerator of the held representation.
    pub fn numerator(&self) -> (n: i128)
        ensures
            n == self@.n,
    {
        self.num
    }

    /// The denominator of the held representation.
    pub fn denominator(&self) -> (d: i128)
        ensures
            d == self@.d,
    {
        self.den
    }

    /// The rational with integer value `num`.
    pub fn from_int(num: i64) -> (r: Rat)
        ensures
            r@ == q_int(num as int),
            r.bounded(0x8000_0000_0000_0000),
    {
        Rat { num: num as i128, den: 1 }
    }

    pub fn add(&self, other: &Rat) -> (r: Rat)
        requires
            self.bounded(OP_BOUND as int),
            other.bounded(OP_BOUND as int),
        ensures
            r@ == q_add(self@, other@),
            r.wf(),
    {
        proof {
            lemma_abs_mul_bound(self.num as int, other.den as int, OP_BOUND as int, OP_BOUND as int);
            lemma_abs_mul_bound(other.num as int, self.den as int, OP_BOUND as int, OP_BOUND as int);
            lemma_abs_mul_bound(self.den as int, other.den as int, OP_BOUND as int, OP_BOUND as int);
            lemma_mul_strictly_positive(self.den as int, other.den as int);
        }
        Rat { num: self.num * other.den + other.num * self.den, den: self.den * other.den }
    }

    pub fn sub(&self, other: &Rat) -> (r: Rat)
        requires
            self.bounded(OP_BOUND as int),
            other.bounded(OP_BOUND as int),
        ensures
            r@ == q_sub(self@, other@),
            r.wf(),
    {
        proof {
            lemma_abs_mul_bound(self.num as int, other.den as int, OP_BOUND as int, OP_BOUND as int);
            lemma_abs_mul_bound(other.num as int, self.den as int, OP_BOUND as int, OP_BOUND as int);
            lemma_abs_mul_bound(self.den as int, other.den as int, OP_BOUND as int, OP_BOUND as int);
            lemma_mul_strictly_positive(self.den as int, other.den as int);
        }
        Rat { num: self.num * other.den - other.num * self.den, den: self.den * other.den }
    }

    pub fn mul(&self, other: &Rat) -> (r: Rat)
        requires
            self.bounded(OP_BOUND as int),
            other.bounded(OP_BOUND as int),
        ensures
            r@ == q_mul(self@, other@),
            r.wf(),
    {
        proof {
            lemma_abs_mul_bound(self.num as int, other.num as int, OP_BOUND as int, OP_BOUND as int);
            lemma_abs_mul_bound(self.den as int, other.den as int, OP_BOUND as int, OP_BOUND as int);
            lemma_mul_strictly_positive(self.den as int, other.den as int);
        }
        Rat { num: self.num * other.num, den: self.den * other.den }
    }

    /// Division by a rational of strictly positive value.
    pub fn div(&self, other: &Rat) -> (r: Rat)
        requires
            self.bounded(OP_BOUND as int),
            other.bounded(OP_BOUND as int),
            q_pos(other@),
        ensures
            r@ == q_div(self@, other@),
            r.wf(),
    {
        proof {
            lemma_abs_mul_bound(self.num as int, other.den as int, OP_BOUND as int, OP_BOUND as int);
            lemma_abs_mul_bound(self.den as int, other.num as int, OP_BOUND as int, OP_BOUND as int);
            lemma_mul_strictly_positive(self.den as int, other.num as int);
        }
        Rat { num: self.num * other.den, den: self.den * other.num }
    }

    pub fn mul_int(&self, i: u64) -> (r: Rat)
        requires
            self.bounded(OP_BOUND as int),
            i <= OP_BOUND,
        ensures
            r@ == q_mul_int(self@, i as int),
            r.wf(),
    {
        proof {
            lemma_abs_mul_bound(self.num as int, i as int, OP_BOUND as int, OP_BOUND as int);
        }
        Rat { num: self.num * (i as i128), den: self.den }
    }

    pub fn div_int(&self, i: u64) -> (r: Rat)
        requires
            self.bounded(OP_BOUND as int),
            1 <= i <= OP_BOUND,
        ensures
            r@ == q_div_int(self@, i as int),
            r.wf(),
    {
        proof {
            lemma_abs_mul_bound(self.den as int, i as int, OP_BOUND as int, OP_BOUND as int);
            lemma_mul_strictly_positive(self.den as int, i as int);
        }
        Rat { num: self.num, den: self.den * (i as i128) }
    }

    /// Value comparison: `self <= other` as rational numbers.
    pub fn le(&self, other: &Rat) -> (r: bool)
        requires
            self.bounded(OP_BOUND as int),
            other.bounded(OP_BOUND as int),
        ensures
            r == q_le(self@, other@),
    {
        proof {
            lemma_abs_mul_bound(self.num as int, other.den as int, OP_BOUND as int, OP_BOUND as int);
            lemma_abs_mul_bound(other.num as int, self.den as int, OP_BOUND as int, OP_BOUND as int);
        }
        self.num * other.den <= other.num * self.den
    }

    /// Value comparison: `self < other` as rational numbers.
    pub fn lt(&self, other: &Rat) -> (r: bool)
        requires
            self.bounded(OP_BOUND as int),
            other.bounded(OP_BOUND as int),
        ensures
            r == q_lt(self@, other@),
    {
        proof {
            lemma_abs_mul_bound(self.num as int, other.den as int, OP_BOUND as int, OP_BOUND as int);
            lemma_abs_mul_bound(other.num as int, self.den as int, OP_BOUND as int, OP_BOUND as int);
        }
        self.num * other.den < other.num * self.den
    }

    /// Floor of the square root of a nonnegative rational, saturated at `cap`.
    pub fn sqrt_floor_capped(&self, cap: u64) -> (h: u64)
        requires
            q_bounds(self@, SQRT_NUM_BOUND as int, SQRT_DEN_BOUND as int),
            self@.n >= 0,
            cap <= SQRT_CAP_MAX,
        ensures
            h == sqrt_floor_cap(self@.n, self@.d, cap as int),
    {
        let qn: i128 = self.num;
        let qd: i128 = self.den;
        let mut h: u64 = 0;
        while h < cap
            invariant
                h <= cap,
                cap <= SQRT_CAP_MAX,
                1 <= qd <= SQRT_DEN_BOUND,
                0 <= qn <= SQRT_NUM_BOUND,
                (h as int) * (h as int) * (qd as int) <= qn as int,
            ensures
                h <= cap,
                (h as int) * (h as int) * (qd as int) <= qn as int,
                h == cap || (h + 1) * (h + 1) * (qd as int) > qn as int,
            decreases cap - h,
        {
            let nxt: u64 = h + 1;
            proof {
                lemma_abs_mul_bound(nxt as int, nxt as int, 0x1_0001, 0x1_0001);
                lemma_abs_mul_bound(nxt as int * nxt as int, qd as int, 0x1_0001int * 0x1_0001int, SQRT_DEN_BOUND as int);
            }
            if (nxt as i128) * (nxt as i128) * qd <= qn {
                h = nxt;
            } else {
                break;
            }
        }
        proof {
            lemma_sqrt_floor_cap_props(qn as int, qd as int, cap as int);
            let r: int = sqrt_floor_cap(qn as int, qd as int, cap as int);
            if h < r {
                assert((h + 1) * (h + 1) * (qd as int) <= r * r * (qd as int)) by (nonlinear_arith)
                    requires
                        0 <= h + 1 <= r,
                        qd >= 1,
                ;
            }
            if h > r {
                assert((h as int) * (h as int) * (qd as int) > qn as int);
            }
        }
        h
    }

    /// Whether `h` squared equals this rational exactly.
    pub fn sqrt_is_exact(&self, h: u64) -> (r: bool)
        requires
            q_bounds(self@, SQRT_NUM_BOUND as int, SQRT_DEN_BOUND as int),
            h <= SQRT_CAP_MAX,
        ensures
            r == ((h as int) * (h as int) * self@.d == self@.n),
    {
        proof {
            lemma_abs_mul_bound(h as int, h as int, 0x1_0000, 0x1_0000);
            lemma_abs_mul_bound(h as int * h as int, self.den as int, 0x1_0000int * 0x1_0000int, SQRT_DEN_BOUND as int);
        }
        (h as i128) * (h as i128) * self.den == self.num
    }

    /// Value equality: `self` and `other` denote the same rational number,
    /// whatever their representations.
    pub fn eq_val(&self, other: &Rat) -> (r: bool)
        requires
            self.bounded(OP_BOUND as int),
            other.bounded(OP_BOUND as int),
        ensures
            r == q_eqv(self@, other@),
    {
        proof {
            lemma_abs_mul_bound(self.num as int, other.den as int, OP_BOUND as int, OP_BOUND as int);
            lemma_abs_mul_bound(other.num as int, self.den as int, OP_BOUND as int, OP_BOUND as int);
        }
        self.num * other.den == other.num * self.den
    }
}

} // verus!
