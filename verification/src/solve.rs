//! The solver: classifies the reduced polynomial by its effective degree
//! and produces exact root data for degrees zero, one and two. Irrational
//! quadratic roots are reported as an exact axis and discriminant ratio
//! (`axis ± sqrt(disc)`), from which a caller can approximate numerically.

use vstd::prelude::*;
use crate::coef::{Coef, pow10, pow10_i128, lemma_pow10_positive, lemma_pow10_adds};
use crate::polynomial::{Polynomial, spec_coef_at, spec_degree, lemma_spec_degree_bounds};
use crate::polynomial::{lemma_coef_at_sorted, lemma_coef_at_absent};

verus! {

/// Why solving failed.
#[derive(Debug, Clone)]
pub enum SolveError {
    /// The reduced polynomial's effective degree is above two; carries that
    /// degree.
    UnsupportedDegree(i32),
    /// An exact intermediate value left the 128-bit range: a machine limit
    /// of the exact arithmetic.
    Overflow,
}

/// An exact rational number with a positive denominator.
#[derive(Clone, Copy, PartialEq, Eq, Structural, Debug)]
pub struct Ratio {
    pub num: i128,
    pub den: i128,
}

impl Ratio {
    pub open spec fn wf(self) -> bool {
        self.den > 0
    }
}

/// The outcome of solving the reduced equation.
#[derive(Clone, Copy, Debug)]
pub enum Solution {
    /// Degree zero, zero constant: every value satisfies the equation.
    AllReals,
    /// Degree zero, nonzero constant: no value satisfies the equation.
    NoSolution,
    /// Degree one: the unique root.
    One { root: Ratio },
    /// Degree two, positive discriminant: the roots are
    /// `axis - sqrt(disc)` and `axis + sqrt(disc)`.
    RealPair { axis: Ratio, disc: Ratio },
    /// Degree two, zero discriminant: one double root.
    Double { root: Ratio },
    /// Degree two, negative discriminant: the complex-conjugate roots are
    /// `re ± i * sqrt(im_sq)`.
    ComplexPair { re: Ratio, im_sq: Ratio },
}

/// `r` is the root of `b*x + c = 0`, by cross-multiplication.
pub open spec fn is_linear_root(b: Coef, c: Coef, r: Ratio) -> bool {
    b.num * r.num * pow10(c.scale as nat) + c.num * r.den * pow10(b.scale as nat) == 0
}

/// `r` is the quadratic's axis of symmetry `-b / (2a)`: the root of
/// `2a*x + b = 0`, by cross-multiplication.
pub open spec fn is_axis(a: Coef, b: Coef, r: Ratio) -> bool {
    2 * a.num * r.num * pow10(b.scale as nat) + b.num * r.den * pow10(a.scale as nat) == 0
}

/// The discriminant's numerator over the common scale
/// `10^(2*b.scale + a.scale + c.scale)`: its sign is the sign of
/// `b^2 - 4*a*c`.
pub open spec fn disc_num(a: Coef, b: Coef, c: Coef) -> int {
    b.num * b.num * pow10((a.scale + c.scale) as nat) - 4 * a.num * c.num * pow10(
        (2 * b.scale) as nat,
    )
}

/// `q` equals `(b^2 - 4ac) / (4a^2)` (the squared distance from the axis
/// to each real root), by cross-multiplication.
pub open spec fn is_disc_ratio(a: Coef, b: Coef, c: Coef, q: Ratio) -> bool {
    q.num * (4 * a.num * a.num * pow10((2 * b.scale + a.scale + c.scale) as nat)) == disc_num(
        a,
        b,
        c,
    ) * pow10((2 * a.scale) as nat) * q.den
}

/// `q` equals `(4ac - b^2) / (4a^2)` (the squared imaginary part of each
/// complex root), by cross-multiplication.
pub open spec fn is_neg_disc_ratio(a: Coef, b: Coef, c: Coef, q: Ratio) -> bool {
    q.num * (4 * a.num * a.num * pow10((2 * b.scale + a.scale + c.scale) as nat)) == (-disc_num(
        a,
        b,
        c,
    )) * pow10((2 * a.scale) as nat) * q.den
}

/// The machine limit under which the linear root can be computed exactly.
pub open spec fn linear_fits(b: Coef, c: Coef) -> bool {
    &&& pow10(b.scale as nat) <= i128::MAX
    &&& pow10(c.scale as nat) <= i128::MAX
    &&& -i128::MAX <= c.num * pow10(b.scale as nat) <= i128::MAX
    &&& -i128::MAX <= b.num * pow10(c.scale as nat) <= i128::MAX
}

/// The machine limit under which the axis `-b/(2a)` can be computed
/// exactly.
pub open spec fn axis_fits(a: Coef, b: Coef) -> bool {
    &&& pow10(a.scale as nat) <= i128::MAX
    &&& pow10(b.scale as nat) <= i128::MAX
    &&& -i128::MAX <= b.num * pow10(a.scale as nat) <= i128::MAX
    &&& -i128::MAX <= 2 * a.num <= i128::MAX
    &&& -i128::MAX <= 2 * a.num * pow10(b.scale as nat) <= i128::MAX
}

/// The machine limit under which the discriminant's numerator can be
/// computed exactly.
pub open spec fn disc_num_fits(a: Coef, b: Coef, c: Coef) -> bool {
    &&& i128::MIN <= b.num * b.num <= i128::MAX
    &&& pow10(a.scale as nat) <= i128::MAX
    &&& pow10(c.scale as nat) <= i128::MAX
    &&& pow10((a.scale + c.scale) as nat) <= i128::MAX
    &&& i128::MIN <= b.num * b.num * pow10((a.scale + c.scale) as nat) <= i128::MAX
    &&& i128::MIN <= 4 * a.num <= i128::MAX
    &&& i128::MIN <= 4 * a.num * c.num <= i128::MAX
    &&& pow10(b.scale as nat) <= i128::MAX
    &&& pow10((2 * b.scale) as nat) <= i128::MAX
    &&& i128::MIN <= 4 * a.num * c.num * pow10((2 * b.scale) as nat) <= i128::MAX
    &&& i128::MIN <= disc_num(a, b, c) <= i128::MAX
}

/// The machine limit under which the discriminant ratio over `4a^2` can be
/// computed exactly.
pub open spec fn disc_ratio_fits(a: Coef, b: Coef, c: Coef) -> bool {
    let dn = disc_num(a, b, c);
    &&& disc_num_fits(a, b, c)
    &&& pow10((2 * a.scale) as nat) <= i128::MAX
    &&& -i128::MAX <= dn * pow10((2 * a.scale) as nat) <= i128::MAX
    &&& i128::MIN <= a.num * a.num <= i128::MAX
    &&& i128::MIN <= 4 * (a.num * a.num) <= i128::MAX
    &&& pow10((2 * b.scale + a.scale + c.scale) as nat) <= i128::MAX
    &&& i128::MIN <= 4 * (a.num * a.num) * pow10((2 * b.scale + a.scale + c.scale) as nat)
        <= i128::MAX
}

/// The machine limit under which a degree-two polynomial can be solved
/// exactly.
pub open spec fn quad_fits(a: Coef, b: Coef, c: Coef) -> bool {
    &&& disc_num_fits(a, b, c)
    &&& axis_fits(a, b)
    &&& (disc_num(a, b, c) != 0 ==> disc_ratio_fits(a, b, c))
}

/// The root of `k*a*x + b = 0` (with `k` one or two), as a ratio with a
/// positive denominator.
fn scaled_root(a: Coef, b: Coef, k: i128) -> (r: Result<Ratio, SolveError>)
    requires
        a.num != 0,
        k == 1 || k == 2,
    ensures
        r is Ok <==> (pow10(a.scale as nat) <= i128::MAX && pow10(b.scale as nat) <= i128::MAX
            && -i128::MAX <= b.num * pow10(a.scale as nat) <= i128::MAX && -i128::MAX <= k
            * a.num <= i128::MAX && -i128::MAX <= k * a.num * pow10(b.scale as nat)
            <= i128::MAX),
        r matches Ok(q) ==> q.wf() && (k * a.num * q.num * pow10(b.scale as nat) + b.num * q.den
            * pow10(a.scale as nat) == 0),
        r matches Err(e) ==> e is Overflow,
{
    proof {
        lemma_pow10_positive(a.scale as nat);
        lemma_pow10_positive(b.scale as nat);
    }
    let pa = match pow10_i128(a.scale) {
        Some(p) => p,
        None => {
            return Err(SolveError::Overflow);
        },
    };
    let pb = match pow10_i128(b.scale) {
        Some(p) => p,
        None => {
            return Err(SolveError::Overflow);
        },
    };
    let bn_pa = match b.num.checked_mul(pa) {
        Some(v) => v,
        None => {
            return Err(SolveError::Overflow);
        },
    };
    if bn_pa == i128::MIN {
        return Err(SolveError::Overflow);
    }
    let ka = match a.num.checked_mul(k) {
        Some(v) => v,
        None => {
            proof {
                lemma_abs_mul_ge(a.num as int * k, pow10(b.scale as nat));
            }
            return Err(SolveError::Overflow);
        },
    };
    let den0 = match ka.checked_mul(pb) {
        Some(v) => v,
        None => {
            return Err(SolveError::Overflow);
        },
    };
    if den0 == i128::MIN {
        return Err(SolveError::Overflow);
    }
    proof {
        lemma_pow10_positive(b.scale as nat);
        vstd::arithmetic::mul::lemma_mul_nonzero(ka as int, pb as int);
        if ka == i128::MIN {
            lemma_abs_mul_ge(ka as int, pb as int);
        }
    }
    let q = if den0 > 0 {
        Ratio { num: -bn_pa, den: den0 }
    } else {
        Ratio { num: bn_pa, den: -den0 }
    };
    proof {
        let kk = k as int;
        let an = a.num as int;
        let bn = b.num as int;
        let qa = pow10(a.scale as nat);
        let qb = pow10(b.scale as nat);
        assert(kk * an * q.num * qb + bn * q.den * qa == 0) by (nonlinear_arith)
            requires
                q.num == -(bn * qa) && q.den == kk * an * qb || (q.num == bn * qa && q.den == -(
                kk * an * qb)),
        ;
    }
    Ok(q)
}

/// A product with a factor of magnitude at least one is at least as large
/// in magnitude as the other factor.
proof fn lemma_abs_mul_ge(x: int, p: int)
    requires
        p >= 1,
    ensures
        x >= 0 ==> x * p >= x,
        x < 0 ==> x * p <= x,
{
    if x >= 0 {
        assert(x * p >= x * 1) by (nonlinear_arith)
            requires
                p >= 1,
                x >= 0,
        ;
    } else {
        assert(x * p <= x * 1) by (nonlinear_arith)
            requires
                p >= 1,
                x < 0,
        ;
    }
}

impl Polynomial {
    /// The coefficients at degrees two, one and zero.
    fn get_square_coefs(&self) -> (r: (Coef, Coef, Coef))
        requires
            self.wf(),
        ensures
            r.0 == spec_coef_at(self.terms@, 2),
            r.1 == spec_coef_at(self.terms@, 1),
            r.2 == spec_coef_at(self.terms@, 0),
    {
        (self.coef_at(2), self.coef_at(1), self.coef_at(0))
    }

    /// The discriminant's exact numerator over the common scale.
    fn get_discriminant(&self) -> (r: Result<i128, SolveError>)
        requires
            self.wf(),
        ensures
            ({
                let a = spec_coef_at(self.terms@, 2);
                let b = spec_coef_at(self.terms@, 1);
                let c = spec_coef_at(self.terms@, 0);
                &&& (r is Ok <==> disc_num_fits(a, b, c))
                &&& (r matches Ok(dn) ==> dn == disc_num(a, b, c))
                &&& (r matches Err(e) ==> e is Overflow)
            }),
    {
        let (a, b, c) = self.get_square_coefs();
        proof {
            lemma_pow10_adds(a.scale as nat, c.scale as nat);
            lemma_pow10_adds(b.scale as nat, b.scale as nat);
            lemma_pow10_positive(a.scale as nat);
            lemma_pow10_positive(b.scale as nat);
            lemma_pow10_positive(c.scale as nat);
        }
        let t1 = match b.num.checked_mul(b.num) {
            Some(v) => v,
            None => {
                return Err(SolveError::Overflow);
            },
        };
        let pa = match pow10_i128(a.scale) {
            Some(p) => p,
            None => {
                proof {
                    lemma_abs_mul_ge(pow10(a.scale as nat), pow10(c.scale as nat));
                }
                return Err(SolveError::Overflow);
            },
        };
        let pc = match pow10_i128(c.scale) {
            Some(p) => p,
            None => {
                proof {
                    vstd::arithmetic::mul::lemma_mul_is_commutative(
                        pow10(a.scale as nat),
                        pow10(c.scale as nat),
                    );
                    lemma_abs_mul_ge(pow10(c.scale as nat), pow10(a.scale as nat));
                }
                return Err(SolveError::Overflow);
            },
        };
        let p1 = match pa.checked_mul(pc) {
            Some(v) => v,
            None => {
                return Err(SolveError::Overflow);
            },
        };
        let term1 = match t1.checked_mul(p1) {
            Some(v) => v,
            None => {
                return Err(SolveError::Overflow);
            },
        };
        let u1 = match a.num.checked_mul(4) {
            Some(v) => v,
            None => {
                return Err(SolveError::Overflow);
            },
        };
        let u2 = match u1.checked_mul(c.num) {
            Some(v) => v,
            None => {
                return Err(SolveError::Overflow);
            },
        };
        let pb = match pow10_i128(b.scale) {
            Some(p) => p,
            None => {
                proof {
                    lemma_abs_mul_ge(pow10(b.scale as nat), pow10(b.scale as nat));
                }
                return Err(SolveError::Overflow);
            },
        };
        let p2 = match pb.checked_mul(pb) {
            Some(v) => v,
            None => {
                return Err(SolveError::Overflow);
            },
        };
        let t3 = match u2.checked_mul(p2) {
            Some(v) => v,
            None => {
                return Err(SolveError::Overflow);
            },
        };
        let dn = match term1.checked_sub(t3) {
            Some(v) => v,
            None => {
                return Err(SolveError::Overflow);
            },
        };
        Ok(dn)
    }

    /// Solves a degree-zero equation: the constant must itself be zero.
    fn solve_zero_degree(&self) -> (r: Solution)
        requires
            self.wf(),
        ensures
            spec_coef_at(self.terms@, 0).num == 0 ==> r is AllReals,
            spec_coef_at(self.terms@, 0).num != 0 ==> r is NoSolution,
    {
        let (_, _, c) = self.get_square_coefs();
        if c.is_zero() {
            Solution::AllReals
        } else {
            Solution::NoSolution
        }
    }

    /// Solves a degree-one equation: the unique root is `-c / b`.
    fn solve_first_degree(&self) -> (r: Result<Solution, SolveError>)
        requires
            self.wf(),
            spec_coef_at(self.terms@, 1).num != 0,
        ensures
            ({
                let b = spec_coef_at(self.terms@, 1);
                let c = spec_coef_at(self.terms@, 0);
                &&& (r is Ok <==> linear_fits(b, c))
                &&& (r matches Ok(sol) ==> sol matches Solution::One { root } && root.wf()
                    && is_linear_root(b, c, root))
                &&& (r matches Err(e) ==> e is Overflow)
            }),
    {
        let (_, b, c) = self.get_square_coefs();
        proof {
            lemma_pow10_positive(c.scale as nat);
            lemma_abs_mul_ge(b.num as int, pow10(c.scale as nat));
        }
        match scaled_root(b, c, 1) {
            Ok(root) => Ok(Solution::One { root }),
            Err(e) => Err(e),
        }
    }

    /// Solves a degree-two equation by the sign of its discriminant.
    fn solve_second_degree(&self) -> (r: Result<Solution, SolveError>)
        requires
            self.wf(),
            spec_coef_at(self.terms@, 2).num != 0,
        ensures
            ({
                let a = spec_coef_at(self.terms@, 2);
                let b = spec_coef_at(self.terms@, 1);
                let c = spec_coef_at(self.terms@, 0);
                &&& (r is Ok <==> quad_fits(a, b, c))
                &&& (r matches Ok(sol) ==> match sol {
                    Solution::RealPair { axis, disc } => disc_num(a, b, c) > 0 && axis.wf()
                        && is_axis(a, b, axis) && disc.wf() && disc.num > 0 && is_disc_ratio(
                        a,
                        b,
                        c,
                        disc,
                    ),
                    Solution::Double { root } => disc_num(a, b, c) == 0 && root.wf() && is_axis(
                        a,
                        b,
                        root,
                    ),
                    Solution::ComplexPair { re, im_sq } => disc_num(a, b, c) < 0 && re.wf()
                        && is_axis(a, b, re) && im_sq.wf() && im_sq.num > 0
                        && is_neg_disc_ratio(a, b, c, im_sq),
                    _ => false,
                })
                &&& (r matches Err(e) ==> e is Overflow)
            }),
    {
        let d = match self.get_discriminant() {
            Ok(v) => v,
            Err(e) => {
                return Err(e);
            },
        };
        let (a, b, c) = self.get_square_coefs();
        if d < 0 {
            self.solve_second_degree_neg_d(d)
        } else if d > 0 {
            self.solve_second_degree_pos_d(d)
        } else {
            self.solve_second_degree_zero_d()
        }
    }

    /// Zero discriminant: one double root at the axis.
    fn solve_second_degree_zero_d(&self) -> (r: Result<Solution, SolveError>)
        requires
            self.wf(),
            spec_coef_at(self.terms@, 2).num != 0,
            disc_num(
                spec_coef_at(self.terms@, 2),
                spec_coef_at(self.terms@, 1),
                spec_coef_at(self.terms@, 0),
            ) == 0,
            disc_num_fits(
                spec_coef_at(self.terms@, 2),
                spec_coef_at(self.terms@, 1),
                spec_coef_at(self.terms@, 0),
            ),
        ensures
            ({
                let a = spec_coef_at(self.terms@, 2);
                let b = spec_coef_at(self.terms@, 1);
                let c = spec_coef_at(self.terms@, 0);
                &&& (r is Ok <==> quad_fits(a, b, c))
                &&& (r matches Ok(sol) ==> sol matches Solution::Double { root } && root.wf()
                    && is_axis(a, b, root))
                &&& (r matches Err(e) ==> e is Overflow)
            }),
    {
        let (a, b, _) = self.get_square_coefs();
        match scaled_root(a, b, 2) {
            Ok(root) => Ok(Solution::Double { root }),
            Err(e) => Err(e),
        }
    }

    /// Positive discriminant: two real roots around the axis.
    fn solve_second_degree_pos_d(&self, d: i128) -> (r: Result<Solution, SolveError>)
        requires
            self.wf(),
            spec_coef_at(self.terms@, 2).num != 0,
            d == disc_num(
                spec_coef_at(self.terms@, 2),
                spec_coef_at(self.terms@, 1),
                spec_coef_at(self.terms@, 0),
            ),
            d > 0,
            disc_num_fits(
                spec_coef_at(self.terms@, 2),
                spec_coef_at(self.terms@, 1),
                spec_coef_at(self.terms@, 0),
            ),
        ensures
            ({
                let a = spec_coef_at(self.terms@, 2);
                let b = spec_coef_at(self.terms@, 1);
                let c = spec_coef_at(self.terms@, 0);
                &&& (r is Ok <==> quad_fits(a, b, c))
                &&& (r matches Ok(sol) ==> sol matches Solution::RealPair { axis, disc }
                    && axis.wf() && is_axis(a, b, axis) && disc.wf() && disc.num > 0
                    && is_disc_ratio(a, b, c, disc))
                &&& (r matches Err(e) ==> e is Overflow)
            }),
    {
        let (a, b, c) = self.get_square_coefs();
        let axis = match scaled_root(a, b, 2) {
            Ok(q) => q,
            Err(e) => {
                return Err(e);
            },
        };
        match disc_over_four_a_sq(a, b, c, d, false) {
            Ok(disc) => Ok(Solution::RealPair { axis, disc }),
            Err(e) => Err(e),
        }
    }

    /// Negative discriminant: two complex-conjugate roots around the axis.
    fn solve_second_degree_neg_d(&self, d: i128) -> (r: Result<Solution, SolveError>)
        requires
            self.wf(),
            spec_coef_at(self.terms@, 2).num != 0,
            d == disc_num(
                spec_coef_at(self.terms@, 2),
                spec_coef_at(self.terms@, 1),
                spec_coef_at(self.terms@, 0),
            ),
            d < 0,
            disc_num_fits(
                spec_coef_at(self.terms@, 2),
                spec_coef_at(self.terms@, 1),
                spec_coef_at(self.terms@, 0),
            ),
        ensures
            ({
                let a = spec_coef_at(self.terms@, 2);
                let b = spec_coef_at(self.terms@, 1);
                let c = spec_coef_at(self.terms@, 0);
                &&& (r is Ok <==> quad_fits(a, b, c))
                &&& (r matches Ok(sol) ==> sol matches Solution::ComplexPair { re, im_sq }
                    && re.wf() && is_axis(a, b, re) && im_sq.wf() && im_sq.num > 0
                    && is_neg_disc_ratio(a, b, c, im_sq))
                &&& (r matches Err(e) ==> e is Overflow)
            }),
    {
        let (a, b, c) = self.get_square_coefs();
        let re = match scaled_root(a, b, 2) {
            Ok(q) => q,
            Err(e) => {
                return Err(e);
            },
        };
        match disc_over_four_a_sq(a, b, c, d, true) {
            Ok(im_sq) => Ok(Solution::ComplexPair { re, im_sq }),
            Err(e) => Err(e),
        }
    }

    /// Classifies the reduced polynomial by its effective degree and
    /// produces the exact root data; degrees above two are unsupported.
    pub fn solve(&self) -> (r: Result<Solution, SolveError>)
        requires
            self.wf(),
        ensures
            ({
                let s = self.terms@;
                let deg = spec_degree(s);
                let a = spec_coef_at(s, 2);
                let b = spec_coef_at(s, 1);
                let c = spec_coef_at(s, 0);
                &&& (r matches Ok(sol) ==> match sol {
                    Solution::AllReals => deg == 0 && c.num == 0,
                    Solution::NoSolution => deg == 0 && c.num != 0,
                    Solution::One { root } => deg == 1 && root.wf() && is_linear_root(
                        b,
                        c,
                        root,
                    ),
                    Solution::RealPair { axis, disc } => deg == 2 && disc_num(a, b, c) > 0
                        && axis.wf() && is_axis(a, b, axis) && disc.wf() && disc.num > 0
                        && is_disc_ratio(a, b, c, disc),
                    Solution::Double { root } => deg == 2 && disc_num(a, b, c) == 0
                        && root.wf() && is_axis(a, b, root),
                    Solution::ComplexPair { re, im_sq } => deg == 2 && disc_num(a, b, c) < 0
                        && re.wf() && is_axis(a, b, re) && im_sq.wf() && im_sq.num > 0
                        && is_neg_disc_ratio(a, b, c, im_sq),
                })
                &&& (r matches Err(e) ==> match e {
                    SolveError::UnsupportedDegree(dd) => dd == deg && deg > 2,
                    SolveError::Overflow => (deg == 1 && !linear_fits(b, c)) || (deg == 2
                        && !quad_fits(a, b, c)),
                })
                &&& (r is Ok <==> (deg == 0 || (deg == 1 && linear_fits(b, c)) || (deg == 2
                    && quad_fits(a, b, c))))
            }),
    {
        let deg = self.get_degree();
        proof {
            lemma_spec_degree_bounds(self.terms@);
            if deg == 1 || deg == 2 {
                let s = self.terms@;
                let i = choose|i: int|
                    0 <= i < s.len() && (#[trigger] s[i]).0 == spec_degree(s) && s[i].1.num
                        != 0;
                lemma_coef_at_sorted(s, i);
            }
        }
        match deg {
            0 => Ok(self.solve_zero_degree()),
            1 => self.solve_first_degree(),
            2 => self.solve_second_degree(),
            _ => Err(SolveError::UnsupportedDegree(deg)),
        }
    }
}

/// The ratio `±(b^2 - 4ac) / (4a^2)`, negated when `neg` is set, with a
/// positive numerator on the side the caller expects.
fn disc_over_four_a_sq(a: Coef, b: Coef, c: Coef, d: i128, neg: bool) -> (r: Result<
    Ratio,
    SolveError,
>)
    requires
        a.num != 0,
        d == disc_num(a, b, c),
        disc_num_fits(a, b, c),
        neg ==> d < 0,
        !neg ==> d > 0,
    ensures
        r is Ok <==> disc_ratio_fits(a, b, c),
        r matches Ok(q) ==> q.wf() && q.num > 0 && (if neg {
            is_neg_disc_ratio(a, b, c, q)
        } else {
            is_disc_ratio(a, b, c, q)
        }),
        r matches Err(e) ==> e is Overflow,
{
    proof {
        lemma_pow10_adds(a.scale as nat, a.scale as nat);
        lemma_pow10_adds(b.scale as nat, b.scale as nat);
        lemma_pow10_adds((2 * b.scale) as nat, a.scale as nat);
        lemma_pow10_adds((2 * b.scale + a.scale) as nat, c.scale as nat);
        lemma_pow10_positive(a.scale as nat);
        lemma_pow10_positive(b.scale as nat);
        lemma_pow10_positive(c.scale as nat);
        lemma_pow10_positive((2 * b.scale) as nat);
        lemma_pow10_positive((2 * b.scale + a.scale) as nat);
        lemma_pow10_positive((2 * b.scale + a.scale + c.scale) as nat);
    }
    let pa = match pow10_i128(a.scale) {
        Some(p) => p,
        None => {
            proof {
                lemma_abs_mul_ge(pow10(a.scale as nat), pow10(a.scale as nat));
            }
            return Err(SolveError::Overflow);
        },
    };
    let p2as = match pa.checked_mul(pa) {
        Some(v) => v,
        None => {
            return Err(SolveError::Overflow);
        },
    };
    let qn0 = match d.checked_mul(p2as) {
        Some(v) => v,
        None => {
            return Err(SolveError::Overflow);
        },
    };
    if qn0 == i128::MIN {
        return Err(SolveError::Overflow);
    }
    let qn = if neg {
        -qn0
    } else {
        qn0
    };
    let an2 = match a.num.checked_mul(a.num) {
        Some(v) => v,
        None => {
            proof {
                lemma_abs_mul_ge(4 * (a.num as int * a.num), 1);
            }
            return Err(SolveError::Overflow);
        },
    };
    let f = match an2.checked_mul(4) {
        Some(v) => v,
        None => {
            return Err(SolveError::Overflow);
        },
    };
    let pb = match pow10_i128(b.scale) {
        Some(p) => p,
        None => {
            proof {
                lemma_pow10_monotone_chain(a, b, c);
            }
            return Err(SolveError::Overflow);
        },
    };
    let p2bs = match pb.checked_mul(pb) {
        Some(v) => v,
        None => {
            proof {
                lemma_pow10_monotone_chain(a, b, c);
            }
            return Err(SolveError::Overflow);
        },
    };
    let p3 = match p2bs.checked_mul(pa) {
        Some(v) => v,
        None => {
            proof {
                lemma_pow10_monotone_chain(a, b, c);
            }
            return Err(SolveError::Overflow);
        },
    };
    let pc = match pow10_i128(c.scale) {
        Some(p) => p,
        None => {
            proof {
                lemma_pow10_monotone_chain(a, b, c);
            }
            return Err(SolveError::Overflow);
        },
    };
    let p_all = match p3.checked_mul(pc) {
        Some(v) => v,
        None => {
            return Err(SolveError::Overflow);
        },
    };
    let qd = match f.checked_mul(p_all) {
        Some(v) => v,
        None => {
            return Err(SolveError::Overflow);
        },
    };
    proof {
        let an = a.num as int;
        assert(an2 > 0) by (nonlinear_arith)
            requires
                an2 == an * an,
                an != 0,
        ;
        assert(qd > 0) by (nonlinear_arith)
            requires
                f == 4 * an2,
                an2 > 0,
                qd == f * (p_all as int),
                p_all >= 1,
        ;
        assert(p2as >= 1) by (nonlinear_arith)
            requires
                p2as == (pa as int) * (pa as int),
                pa >= 1,
        ;
        assert(qn > 0) by (nonlinear_arith)
            requires
                qn0 == (d as int) * (p2as as int),
                p2as >= 1,
                (neg ==> d < 0 && qn == -qn0),
                (!neg ==> d > 0 && qn == qn0),
        ;
        let q = Ratio { num: qn, den: qd };
        let dd = d as int;
        let pax = pow10(a.scale as nat);
        let pall = pow10((2 * b.scale + a.scale + c.scale) as nat);
        assert(p_all == pall);
        assert(p2as == pow10((2 * a.scale) as nat)) by {
            assert((a.scale + a.scale) as nat == (2 * a.scale) as nat);
        }
        if neg {
            assert(qn * (4 * an * an * pall) == (-dd) * pow10((2 * a.scale) as nat) * qd)
                by (nonlinear_arith)
                requires
                    qn == -(dd * pow10((2 * a.scale) as nat)),
                    qd == (4 * (an * an)) * pall,
            ;
        } else {
            assert(qn * (4 * an * an * pall) == dd * pow10((2 * a.scale) as nat) * qd)
                by (nonlinear_arith)
                requires
                    qn == dd * pow10((2 * a.scale) as nat),
                    qd == (4 * (an * an)) * pall,
            ;
        }
    }
    Ok(Ratio { num: qn, den: qd })
}

/// When one factor of the full power-of-ten product already leaves the
/// range, so does the product.
proof fn lemma_pow10_monotone_chain(a: Coef, b: Coef, c: Coef)
    ensures
        pow10(b.scale as nat) > i128::MAX ==> pow10(
            (2 * b.scale + a.scale + c.scale) as nat,
        ) > i128::MAX,
        pow10((2 * b.scale) as nat) > i128::MAX ==> pow10(
            (2 * b.scale + a.scale + c.scale) as nat,
        ) > i128::MAX,
        pow10((2 * b.scale + a.scale) as nat) > i128::MAX ==> pow10(
            (2 * b.scale + a.scale + c.scale) as nat,
        ) > i128::MAX,
        pow10(c.scale as nat) > i128::MAX ==> pow10((2 * b.scale + a.scale + c.scale) as nat)
            > i128::MAX,
{
    crate::coef::lemma_pow10_increases(b.scale as nat, (2 * b.scale + a.scale + c.scale) as nat);
    crate::coef::lemma_pow10_increases(
        (2 * b.scale) as nat,
        (2 * b.scale + a.scale + c.scale) as nat,
    );
    crate::coef::lemma_pow10_increases(
        (2 * b.scale + a.scale) as nat,
        (2 * b.scale + a.scale + c.scale) as nat,
    );
    crate::coef::lemma_pow10_increases(c.scale as nat, (2 * b.scale + a.scale + c.scale) as nat);
}

} // verus!
