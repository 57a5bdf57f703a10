//! Exact decimal coefficients. A coefficient is `num / 10^scale`, kept in
//! canonical form (a positive scale implies a numerator not divisible by
//! ten), so every representable rational has exactly one representation and
//! structural equality coincides with value equality.

use vstd::prelude::*;
use vstd::arithmetic::power::{
    pow,
    lemma_pow_positive,
    lemma_pow_adds,
    lemma_pow_increases,
    lemma_pow0,
    lemma_pow1,
};
use vstd::arithmetic::div_mod::{lemma_fundamental_div_mod, lemma_mod_multiples_basic};

verus! {

/// 10 raised to `k`.
pub open spec fn pow10(k: nat) -> int {
    pow(10, k)
}

pub proof fn lemma_pow10_positive(k: nat)
    ensures
        pow10(k) >= 1,
{
    lemma_pow_positive(10, k);
}

pub proof fn lemma_pow10_adds(j: nat, k: nat)
    ensures
        pow10(j + k) == pow10(j) * pow10(k),
{
    lemma_pow_adds(10, j, k);
}

pub proof fn lemma_pow10_unfold(k: nat)
    requires
        k >= 1,
    ensures
        pow10(k) == 10 * pow10((k - 1) as nat),
{
    lemma_pow10_adds(1nat, (k - 1) as nat);
    lemma_pow0(10);
    lemma_pow1(10);
}

pub proof fn lemma_pow10_increases(j: nat, k: nat)
    requires
        j <= k,
    ensures
        pow10(j) <= pow10(k),
{
    lemma_pow_increases(10, j, k);
}

/// A mathematical (unbounded) decimal value `num / 10^scale`, used by
/// specifications.
pub struct DecVal {
    pub num: int,
    pub scale: nat,
}

/// Canonical form of a [`DecVal`]: a positive scale never carries a
/// numerator divisible by ten.
pub open spec fn dec_wf(v: DecVal) -> bool {
    v.scale > 0 ==> v.num % 10 != 0
}

/// `a` and `b` denote the same rational, stated by cross-multiplication.
pub open spec fn cross_eq(a: DecVal, b: DecVal) -> bool {
    a.num * pow10(b.scale) == b.num * pow10(a.scale)
}

/// The raw (uncanonicalized) exact sum or difference of two decimals,
/// brought to the product scale.
pub open spec fn dec_combine(a: DecVal, b: DecVal, diff: bool) -> DecVal {
    DecVal {
        num: a.num * pow10(b.scale) + (if diff {
            -b.num
        } else {
            b.num
        }) * pow10(a.scale),
        scale: a.scale + b.scale,
    }
}

/// Whether a decimal is representable as a [`Coef`].
pub open spec fn dec_fits_i128(v: DecVal) -> bool {
    i128::MIN <= v.num <= i128::MAX && v.scale <= u32::MAX
}

/// The machine limit under which an exact sum or difference of two
/// representable decimals can be computed in 128 bits (the unbounded twin
/// of [`Coef::combine_fits`]).
pub open spec fn fits_int(a: DecVal, b: DecVal, diff: bool) -> bool {
    let m = if a.scale >= b.scale {
        a.scale
    } else {
        b.scale
    };
    let sa = a.num * pow10((m - a.scale) as nat);
    let sb = b.num * pow10((m - b.scale) as nat);
    let sc = if diff {
        sa - sb
    } else {
        sa + sb
    };
    b.num == 0 || (a.num == 0 && !diff) || (i128::MIN <= sa <= i128::MAX && i128::MIN <= sb
        <= i128::MAX && i128::MIN <= sc <= i128::MAX)
}

/// The canonical representation of a decimal value.
pub open spec fn canon_dec(v: DecVal) -> DecVal
    decreases v.scale,
{
    if v.num == 0 {
        DecVal { num: 0, scale: 0 }
    } else if v.scale > 0 && v.num % 10 == 0 {
        canon_dec(DecVal { num: v.num / 10, scale: (v.scale - 1) as nat })
    } else {
        v
    }
}

/// Canonicalization yields a canonical decimal of the same value, with a
/// numerator no larger in magnitude and a scale no larger.
pub proof fn lemma_canon_dec(v: DecVal)
    ensures
        dec_wf(canon_dec(v)),
        cross_eq(canon_dec(v), v),
        canon_dec(v).num <= (if v.num >= 0 {
            v.num
        } else {
            -v.num
        }),
        canon_dec(v).num >= (if v.num >= 0 {
            -v.num
        } else {
            v.num
        }),
        canon_dec(v).scale <= v.scale,
        v.num > 0 ==> canon_dec(v).num > 0,
        v.num < 0 ==> canon_dec(v).num < 0,
        v.num == 0 <==> canon_dec(v).num == 0,
    decreases v.scale,
{
    lemma_pow10_positive(v.scale);
    if v.num == 0 {
        lemma_pow10_positive(0);
    } else if v.scale > 0 && v.num % 10 == 0 {
        let w = DecVal { num: v.num / 10, scale: (v.scale - 1) as nat };
        lemma_fundamental_div_mod(v.num, 10);
        assert(v.num == 10 * w.num);
        lemma_canon_dec(w);
        let c = canon_dec(v);
        lemma_pow10_unfold(v.scale);
        lemma_pow10_positive(w.scale);
        lemma_pow10_positive(c.scale);
        assert(c.num * pow10(v.scale) == v.num * pow10(c.scale)) by (nonlinear_arith)
            requires
                c.num * pow10(w.scale) == w.num * pow10(c.scale),
                v.num == 10 * w.num,
                pow10(v.scale) == 10 * pow10(w.scale),
        ;
    }
}

/// Two canonical decimals of the same value are equal.
pub proof fn lemma_dec_unique(a: DecVal, b: DecVal)
    requires
        dec_wf(a),
        dec_wf(b),
        cross_eq(a, b),
    ensures
        a == b,
{
    let pa = pow10(a.scale);
    let pb = pow10(b.scale);
    lemma_pow10_positive(a.scale);
    lemma_pow10_positive(b.scale);
    if a.scale == b.scale {
        assert(a.num == b.num) by (nonlinear_arith)
            requires
                a.num * pb == b.num * pa,
                pa == pb,
                pa >= 1,
        ;
    } else if a.scale < b.scale {
        lemma_dec_scale_gap(a, b);
        assert(false);
    } else {
        assert(cross_eq(b, a));
        lemma_dec_scale_gap(b, a);
        assert(false);
    }
}

/// Helper: of two decimals of the same value, the one with the strictly
/// larger scale has a numerator divisible by ten (so it is not canonical).
proof fn lemma_dec_scale_gap(a: DecVal, b: DecVal)
    requires
        cross_eq(a, b),
        a.scale < b.scale,
        dec_wf(b),
    ensures
        b.num % 10 == 0,
{
    let d = (b.scale - a.scale) as nat;
    let pa = pow10(a.scale);
    let pd = pow10(d);
    lemma_pow10_positive(a.scale);
    lemma_pow10_positive(d);
    lemma_pow10_adds(a.scale, d);
    assert(a.num * (pa * pd) == b.num * pa);
    assert(a.num * pd == b.num) by (nonlinear_arith)
        requires
            a.num * (pa * pd) == b.num * pa,
            pa >= 1,
    ;
    lemma_pow10_unfold(d);
    let pd1 = pow10((d - 1) as nat);
    assert(b.num == 10 * (a.num * pd1)) by (nonlinear_arith)
        requires
            a.num * pd == b.num,
            pd == 10 * pd1,
    ;
    lemma_mod_multiples_basic(a.num * pd1, 10);
}

/// Combining respects value equality in the accumulator operand.
pub proof fn lemma_combine_respects_left(p: DecVal, p2: DecVal, q: DecVal, diff: bool)
    requires
        cross_eq(p, p2),
    ensures
        cross_eq(dec_combine(p, q, diff), dec_combine(p2, q, diff)),
{
    let y = if diff {
        -q.num
    } else {
        q.num
    };
    let pp = pow10(p.scale);
    let pp2 = pow10(p2.scale);
    let pq = pow10(q.scale);
    lemma_pow10_adds(p.scale, q.scale);
    lemma_pow10_adds(p2.scale, q.scale);
    vstd::arithmetic::mul::lemma_mul_is_distributive_add_other_way(
        pp2 * pq,
        p.num * pq,
        y * pp,
    );
    vstd::arithmetic::mul::lemma_mul_is_distributive_add_other_way(
        pp * pq,
        p2.num * pq,
        y * pp2,
    );
    let k = pq * pq;
    assert((p.num * pq) * (pp2 * pq) == (p.num * pp2) * k) by (nonlinear_arith)
        requires
            k == pq * pq,
    ;
    assert((p2.num * pq) * (pp * pq) == (p2.num * pp) * k) by (nonlinear_arith)
        requires
            k == pq * pq,
    ;
    assert((p.num * pp2) * k == (p2.num * pp) * k);
    assert((y * pp) * (pp2 * pq) == (y * pp2) * (pp * pq)) by (nonlinear_arith);
}

/// Two successive combinations commute: combining with `va` then `vb`
/// yields the same decimal as the other order.
pub proof fn lemma_combine_swap(x: DecVal, va: DecVal, sa: bool, vb: DecVal, sb: bool)
    ensures
        dec_combine(dec_combine(x, va, sa), vb, sb) == dec_combine(
            dec_combine(x, vb, sb),
            va,
            sa,
        ),
{
    let ya = if sa {
        -va.num
    } else {
        va.num
    };
    let yb = if sb {
        -vb.num
    } else {
        vb.num
    };
    let px = pow10(x.scale);
    let pa = pow10(va.scale);
    let pb = pow10(vb.scale);
    lemma_pow10_adds(x.scale, va.scale);
    lemma_pow10_adds(x.scale, vb.scale);
    vstd::arithmetic::mul::lemma_mul_is_distributive_add_other_way(pb, x.num * pa, ya * px);
    vstd::arithmetic::mul::lemma_mul_is_distributive_add_other_way(pa, x.num * pb, yb * px);
    assert((x.num * pa) * pb == (x.num * pb) * pa) by (nonlinear_arith);
    assert((ya * px) * pb == ya * (px * pb)) by (nonlinear_arith);
    assert((yb * px) * pa == yb * (px * pa)) by (nonlinear_arith);
    assert(x.scale + va.scale + vb.scale == x.scale + vb.scale + va.scale);
}

/// An exact decimal number with value `num / 10^scale`.
#[derive(Clone, Copy, PartialEq, Eq, Structural, Debug)]
pub struct Coef {
    pub num: i128,
    pub scale: u32,
}

impl Coef {
    /// The mathematical decimal this coefficient represents.
    pub open spec fn dec(self) -> DecVal {
        DecVal { num: self.num as int, scale: self.scale as nat }
    }

    /// Canonical form: a positive scale never carries a numerator divisible
    /// by ten (hence zero is always `0 / 10^0`).
    pub open spec fn wf(self) -> bool {
        self.scale > 0 ==> self.num % 10 != 0
    }

    /// `self` and `other` denote the same rational number
    /// (`num / 10^scale`), stated by cross-multiplication.
    pub open spec fn same_value(self, other: Coef) -> bool {
        self.num * pow10(other.scale as nat) == other.num * pow10(self.scale as nat)
    }

    /// The denoted rational is zero.
    pub open spec fn is_zero_value(self) -> bool {
        self.num == 0
    }

    /// `c` denotes the sum of the rationals `a` and `b`, stated by
    /// cross-multiplication.
    pub open spec fn is_sum(a: Coef, b: Coef, c: Coef) -> bool {
        c.num * pow10((a.scale + b.scale) as nat) == (a.num * pow10(b.scale as nat) + b.num
            * pow10(a.scale as nat)) * pow10(c.scale as nat)
    }

    /// `c` denotes the difference `a - b`, stated by cross-multiplication.
    pub open spec fn is_diff(a: Coef, b: Coef, c: Coef) -> bool {
        c.num * pow10((a.scale + b.scale) as nat) == (a.num * pow10(b.scale as nat) - b.num
            * pow10(a.scale as nat)) * pow10(c.scale as nat)
    }

    /// The machine limit under which an exact sum or difference can be
    /// computed in 128 bits: both numerators brought to the common scale,
    /// and their sum or difference, stay in range. (Met without scaling
    /// when a side is zero.)
    pub open spec fn combine_fits(a: Coef, b: Coef, diff: bool) -> bool {
        let m = if a.scale >= b.scale {
            a.scale
        } else {
            b.scale
        };
        let sa = a.num * pow10((m - a.scale) as nat);
        let sb = b.num * pow10((m - b.scale) as nat);
        let sc = if diff {
            sa - sb
        } else {
            sa + sb
        };
        b.num == 0 || (a.num == 0 && !diff) || (i128::MIN <= sa <= i128::MAX && i128::MIN <= sb
            <= i128::MAX && i128::MIN <= sc <= i128::MAX)
    }

    pub open spec fn spec_zero() -> Coef {
        Coef { num: 0, scale: 0 }
    }

    /// The zero coefficient.
    pub fn zero() -> (r: Coef)
        ensures
            r == Coef::spec_zero(),
            r.wf(),
    {
        Coef { num: 0, scale: 0 }
    }

    /// Whether the denoted value is zero.
    pub fn is_zero(&self) -> (r: bool)
        ensures
            r == self.is_zero_value(),
    {
        self.num == 0
    }

    /// The canonical coefficient with value `num / 10^scale`.
    pub fn new(num: i128, scale: u32) -> (r: Coef)
        ensures
            r.wf(),
            r.same_value(Coef { num, scale }),
    {
        canon(num, scale)
    }

    /// Exact sum. `None` exactly when bringing the numerators to the common
    /// scale, or adding them, leaves the 128-bit range.
    pub fn checked_add(&self, other: &Coef) -> (r: Option<Coef>)
        requires
            self.wf(),
            other.wf(),
        ensures
            r is Some <==> Coef::combine_fits(*self, *other, false),
            r matches Some(c) ==> c.wf() && Coef::is_sum(*self, *other, c),
    {
        combine(self, other, false)
    }

    /// Exact difference. `None` exactly when bringing the numerators to the
    /// common scale, or subtracting them, leaves the 128-bit range.
    pub fn checked_sub(&self, other: &Coef) -> (r: Option<Coef>)
        requires
            self.wf(),
            other.wf(),
        ensures
            r is Some <==> Coef::combine_fits(*self, *other, true),
            r matches Some(c) ==> c.wf() && Coef::is_diff(*self, *other, c),
    {
        combine(self, other, true)
    }
}

/// `10^k` in 128 bits; `None` exactly when it does not fit.
pub fn pow10_i128(k: u32) -> (r: Option<i128>)
    ensures
        r matches Some(v) ==> v == pow10(k as nat),
        r is Some <==> pow10(k as nat) <= i128::MAX,
{
    let mut r: i128 = 1;
    let mut j: u32 = 0;
    proof {
        lemma_pow0(10);
    }
    while j < k
        invariant
            j <= k,
            r == pow10(j as nat),
            r >= 1,
        decreases k - j,
    {
        match r.checked_mul(10) {
            Some(v) => {
                r = v;
                j = j + 1;
                proof {
                    lemma_pow10_unfold(j as nat);
                    lemma_pow10_positive(j as nat);
                }
            },
            None => {
                proof {
                    lemma_pow10_unfold((j + 1) as nat);
                    lemma_pow10_increases((j + 1) as nat, k as nat);
                }
                return None;
            },
        }
    }
    Some(r)
}

/// Transfers a cross-multiplied identity from a raw representation to any
/// representation of the same value.
proof fn lemma_cross_transfer(s: int, ab: nat, raw: Coef, c: Coef)
    requires
        raw.num * pow10(ab) == s * pow10(raw.scale as nat),
        c.same_value(raw),
    ensures
        c.num * pow10(ab) == s * pow10(c.scale as nat),
{
    let pm = pow10(raw.scale as nat);
    let pc = pow10(c.scale as nat);
    let pab = pow10(ab);
    lemma_pow10_positive(raw.scale as nat);
    assert(c.num * pab == s * pc) by (nonlinear_arith)
        requires
            raw.num * pab == s * pm,
            c.num * pm == raw.num * pc,
            pm >= 1,
    ;
}

/// The numerator of the sum or difference brought to the common scale `m`
/// denotes the same rational as the cross-multiplied combination.
proof fn lemma_raw_combine(a: Coef, b: Coef, m: u32, diff: bool)
    requires
        a.scale <= m,
        b.scale <= m,
    ensures
        (a.num * pow10((m - a.scale) as nat) + (if diff {
            -b.num
        } else {
            b.num as int
        }) * pow10((m - b.scale) as nat)) * pow10((a.scale + b.scale) as nat) == (a.num * pow10(
            b.scale as nat,
        ) + (if diff {
            -b.num
        } else {
            b.num as int
        }) * pow10(a.scale as nat)) * pow10(m as nat),
{
    let x = a.num as int;
    let y = if diff {
        -b.num
    } else {
        b.num as int
    };
    let pa = pow10(a.scale as nat);
    let pb = pow10(b.scale as nat);
    let pm = pow10(m as nat);
    let qa = pow10((m - a.scale) as nat);
    let qb = pow10((m - b.scale) as nat);
    let pab = pow10((a.scale + b.scale) as nat);
    lemma_pow10_adds((m - a.scale) as nat, a.scale as nat);
    lemma_pow10_adds((m - b.scale) as nat, b.scale as nat);
    lemma_pow10_adds(a.scale as nat, b.scale as nat);
    assert(qa * pab == pb * pm) by (nonlinear_arith)
        requires
            qa * pa == pm,
            pab == pa * pb,
    ;
    assert(qb * pab == pa * pm) by (nonlinear_arith)
        requires
            qb * pb == pm,
            pab == pa * pb,
    ;
    vstd::arithmetic::mul::lemma_mul_is_distributive_add_other_way(pab, x * qa, y * qb);
    vstd::arithmetic::mul::lemma_mul_is_associative(x, qa, pab);
    vstd::arithmetic::mul::lemma_mul_is_associative(x, pb, pm);
    vstd::arithmetic::mul::lemma_mul_is_associative(y, qb, pab);
    vstd::arithmetic::mul::lemma_mul_is_associative(y, pa, pm);
    vstd::arithmetic::mul::lemma_mul_is_distributive_add_other_way(pm, x * pb, y * pa);
    assert((x * qa + y * qb) * pab == (x * pb + y * pa) * pm);
}

/// Exact combination (sum or difference) of two canonical coefficients.
fn combine(a: &Coef, b: &Coef, diff: bool) -> (r: Option<Coef>)
    requires
        a.wf(),
        b.wf(),
    ensures
        r is Some <==> Coef::combine_fits(*a, *b, diff),
        r matches Some(c) ==> c.wf() && (if diff {
            Coef::is_diff(*a, *b, c)
        } else {
            Coef::is_sum(*a, *b, c)
        }),
{
    let ghost y: int = if diff {
        -b.num
    } else {
        b.num as int
    };
    let ghost combo: int = a.num * pow10(b.scale as nat) + y * pow10(a.scale as nat);
    let ghost ab: nat = (a.scale + b.scale) as nat;
    proof {
        lemma_pow0(10);
        lemma_pow10_positive(a.scale as nat);
        lemma_pow10_positive(b.scale as nat);
        lemma_pow10_positive(ab);
        lemma_pow10_adds(a.scale as nat, b.scale as nat);
    }
    if b.num == 0 {
        proof {
            assert(a.num * pow10(ab) == combo * pow10(a.scale as nat)) by (nonlinear_arith)
                requires
                    y == 0,
                    combo == a.num * pow10(b.scale as nat) + y * pow10(a.scale as nat),
                    pow10(ab) == pow10(a.scale as nat) * pow10(b.scale as nat),
            ;
        }
        return Some(*a);
    }
    if a.num == 0 {
        if diff && b.num == i128::MIN {
            return None;
        }
        let n: i128 = if diff {
            -b.num
        } else {
            b.num
        };
        let c = canon(n, b.scale);
        proof {
            let raw = Coef { num: n, scale: b.scale };
            assert(raw.num * pow10(ab) == combo * pow10(raw.scale as nat)) by (nonlinear_arith)
                requires
                    raw.num == y,
                    a.num == 0,
                    combo == a.num * pow10(b.scale as nat) + y * pow10(a.scale as nat),
                    pow10(ab) == pow10(a.scale as nat) * pow10(b.scale as nat),
                    raw.scale == b.scale,
                    pow10(a.scale as nat) >= 1,
            ;
            lemma_cross_transfer(combo, ab, raw, c);
            if diff {
                vstd::arithmetic::mul::lemma_mul_unary_negation(
                    b.num as int,
                    pow10(a.scale as nat),
                );
            }
        }
        return Some(c);
    }
    // both numerators are nonzero: bring them to the common scale
    let m: u32 = if a.scale >= b.scale {
        a.scale
    } else {
        b.scale
    };
    let ghost qa = pow10((m - a.scale) as nat);
    let ghost qb = pow10((m - b.scale) as nat);
    let ghost sa = a.num * qa;
    let ghost sb = b.num * qb;
    let sa_e: i128;
    let sb_e: i128;
    if a.scale >= b.scale {
        sa_e = a.num;
        proof {
            assert(qa == pow10(0nat));
            assert(sa == a.num * 1);
        }
        let p = match pow10_i128(m - b.scale) {
            Some(p) => p,
            None => {
                proof {
                    assert((m - b.scale) as nat >= 1);
                    lemma_pow10_mod((m - b.scale) as nat);
                    lemma_scaled_out_of_range(b.num as int, qb);
                }
                return None;
            },
        };
        sb_e = match b.num.checked_mul(p) {
            Some(v) => v,
            None => {
                return None;
            },
        };
    } else {
        sb_e = b.num;
        proof {
            assert(qb == pow10(0nat));
            assert(sb == b.num * 1);
        }
        let p = match pow10_i128(m - a.scale) {
            Some(p) => p,
            None => {
                proof {
                    assert((m - a.scale) as nat >= 1);
                    lemma_pow10_mod((m - a.scale) as nat);
                    lemma_scaled_out_of_range(a.num as int, qa);
                }
                return None;
            },
        };
        sa_e = match a.num.checked_mul(p) {
            Some(v) => v,
            None => {
                return None;
            },
        };
    }
    let sum_opt = if diff {
        sa_e.checked_sub(sb_e)
    } else {
        sa_e.checked_add(sb_e)
    };
    let sum = match sum_opt {
        Some(s) => s,
        None => {
            return None;
        },
    };
    let c = canon(sum, m);
    proof {
        lemma_raw_combine(*a, *b, m, diff);
        if diff {
            vstd::arithmetic::mul::lemma_mul_unary_negation(b.num as int, qb);
            vstd::arithmetic::mul::lemma_mul_unary_negation(b.num as int, pow10(a.scale as nat));
        }
        assert(sum == a.num * qa + y * qb);
        lemma_cross_transfer(combo, ab, Coef { num: sum, scale: m }, c);
    }
    Some(c)
}


/// A nonzero numerator scaled by a power of ten beyond the 128-bit range is
/// itself beyond the 128-bit range. (The divisibility premise separates the
/// scaled value from `i128::MIN` itself, which ends in the digit 8.)
proof fn lemma_scaled_out_of_range(x: int, p: int)
    requires
        x != 0,
        p > i128::MAX,
        p % 10 == 0,
    ensures
        x * p > i128::MAX || x * p < i128::MIN,
{
    lemma_fundamental_div_mod(p, 10);
    assert(p >= i128::MAX + 2);
    if x >= 1 {
        assert(x * p >= p) by (nonlinear_arith)
            requires
                x >= 1,
                p > 0,
        ;
    } else {
        assert(x * p <= -p) by (nonlinear_arith)
            requires
                x <= -1,
                p > 0,
        ;
    }
}

/// `combine_fits` on coefficients coincides with `fits_int` on the
/// decimals they represent.
pub proof fn lemma_fits_bridge(a: Coef, b: Coef, diff: bool)
    ensures
        Coef::combine_fits(a, b, diff) == fits_int(a.dec(), b.dec(), diff),
{
}

/// `is_sum`/`is_diff` on coefficients coincide with value equality against
/// the raw combined decimal.
pub proof fn lemma_combine_bridge(a: Coef, b: Coef, c: Coef, diff: bool)
    ensures
        (if diff {
            Coef::is_diff(a, b, c)
        } else {
            Coef::is_sum(a, b, c)
        }) == cross_eq(c.dec(), dec_combine(a.dec(), b.dec(), diff)),
{
    if diff {
        vstd::arithmetic::mul::lemma_mul_unary_negation(b.num as int, pow10(a.scale as nat));
    }
}

/// `wf` on a coefficient coincides with `dec_wf` on its decimal.
pub proof fn lemma_wf_bridge(c: Coef)
    ensures
        c.wf() == dec_wf(c.dec()),
{
}

/// Combining with a zero coefficient changes nothing: `a + 0 == a` and
/// `a - 0 == a`.
pub proof fn lemma_combine_zero(a: Coef)
    ensures
        Coef::is_sum(a, Coef::spec_zero(), a),
        Coef::is_diff(a, Coef::spec_zero(), a),
{
    lemma_pow0(10);
    assert(pow10((a.scale + 0) as nat) == pow10(a.scale as nat));
}

/// A power of ten larger than one is divisible by ten.
proof fn lemma_pow10_mod(k: nat)
    requires
        k >= 1,
    ensures
        pow10(k) % 10 == 0,
{
    lemma_pow10_unfold(k);
    lemma_mod_multiples_basic(pow10((k - 1) as nat), 10);
}

/// Two canonical coefficients with the same value are equal.
pub proof fn lemma_canonical_unique(a: Coef, b: Coef)
    requires
        a.wf(),
        b.wf(),
        a.same_value(b),
    ensures
        a == b,
{
    lemma_dec_unique(a.dec(), b.dec());
}

/// A well-formed coefficient is exactly the canonical representation of any
/// decimal it shares a value with.
pub proof fn lemma_coef_is_canon(c: Coef, v: DecVal)
    requires
        c.wf(),
        cross_eq(c.dec(), v),
    ensures
        c.dec() == canon_dec(v),
{
    lemma_canon_dec(v);
    let w = canon_dec(v);
    // both c.dec() and w are canonical and share the value of v
    lemma_pow10_positive(c.scale as nat);
    lemma_pow10_positive(v.scale);
    lemma_pow10_positive(w.scale);
    assert(cross_eq(c.dec(), w)) by {
        lemma_cross_eq_trans(c.dec(), v, w);
    }
    lemma_dec_unique(c.dec(), w);
}

/// Value equality of decimals is transitive.
pub proof fn lemma_cross_eq_trans(a: DecVal, b: DecVal, c: DecVal)
    requires
        cross_eq(a, b),
        cross_eq(c, b),
    ensures
        cross_eq(a, c),
{
    let pa = pow10(a.scale);
    let pb = pow10(b.scale);
    let pc = pow10(c.scale);
    lemma_pow10_positive(b.scale);
    assert(a.num * pc == c.num * pa) by (nonlinear_arith)
        requires
            a.num * pb == b.num * pa,
            c.num * pb == b.num * pc,
            pb >= 1,
    ;
}

/// The canonical coefficient with the value `num0 / 10^scale0`.
fn canon(num0: i128, scale0: u32) -> (r: Coef)
    ensures
        r.wf(),
        r.same_value(Coef { num: num0, scale: scale0 }),
{
    proof {
        lemma_pow10_positive(scale0 as nat);
    }
    if num0 == 0 {
        let r = Coef { num: 0, scale: 0 };
        assert(r.num * pow10(scale0 as nat) == num0 * pow10(0nat));
        return r;
    }
    if num0 == i128::MIN {
        // i128::MIN ends in the digit 8, so it is already canonical
        let r = Coef { num: num0, scale: scale0 };
        assert(r.num % 10 != 0);
        assert(r.num * pow10(scale0 as nat) == num0 * pow10(scale0 as nat));
        return r;
    }
    let neg = num0 < 0;
    let mut mag: i128 = if neg {
        -num0
    } else {
        num0
    };
    let mut scale: u32 = scale0;
    let ghost orig = Coef { num: num0, scale: scale0 };
    while mag % 10 == 0 && scale > 0
        invariant
            mag >= 1,
            (if neg {
                -(mag as int)
            } else {
                mag as int
            }) * pow10(orig.scale as nat) == orig.num * pow10(scale as nat),
            neg == (orig.num < 0),
            orig.num != 0,
        decreases scale,
    {
        let ghost old_mag = mag as int;
        let ghost old_scale = scale as nat;
        proof {
            lemma_fundamental_div_mod(mag as int, 10);
        }
        mag = mag / 10;
        scale = scale - 1;
        proof {
            lemma_pow10_unfold(old_scale);
            lemma_pow10_positive(scale as nat);
            let p0 = pow10(orig.scale as nat);
            let ps = pow10(scale as nat);
            if neg {
                assert(-mag * p0 == orig.num * ps) by (nonlinear_arith)
                    requires
                        old_mag == 10 * (mag as int),
                        -old_mag * p0 == orig.num * (10 * ps),
                ;
            } else {
                assert(mag * p0 == orig.num * ps) by (nonlinear_arith)
                    requires
                        old_mag == 10 * (mag as int),
                        old_mag * p0 == orig.num * (10 * ps),
                ;
            }
            assert(mag >= 1);
        }
    }
    let num: i128 = if neg {
        -mag
    } else {
        mag
    };
    proof {
        if scale > 0 {
            assert(mag % 10 != 0);
            if neg {
                assert((-mag) % 10 != 0) by (nonlinear_arith)
                    requires
                        mag >= 1,
                        mag % 10 != 0,
                ;
            }
        }
    }
    Coef { num, scale }
}

} // verus!
