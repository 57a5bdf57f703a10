//! Sparse polynomials: a sorted list of `(degree, coefficient)` entries with
//! unique non-negative degrees. An absent degree means a zero coefficient;
//! explicit zero entries are kept, as parsing produces them.

use vstd::prelude::*;
use crate::coef::{Coef, pow10, lemma_pow10_positive, lemma_pow10_adds, lemma_pow10_unfold};

verus! {

/// Whether degree `d` has an explicit entry.
pub open spec fn spec_has(s: Seq<(i32, Coef)>, d: int) -> bool {
    exists|i: int| 0 <= i < s.len() && (#[trigger] s[i]).0 == d
}

/// Whether one of the first `k` entries of `s` has degree `d`.
pub open spec fn prefix_has(s: Seq<(i32, Coef)>, k: int, d: int) -> bool {
    exists|i: int| 0 <= i < k && (#[trigger] s[i]).0 == d
}

/// The coefficient at degree `d`; zero when absent.
pub open spec fn spec_coef_at(s: Seq<(i32, Coef)>, d: int) -> Coef
    decreases s.len(),
{
    if s.len() == 0 {
        Coef::spec_zero()
    } else if s[0].0 == d {
        s[0].1
    } else {
        spec_coef_at(s.skip(1), d)
    }
}

/// Strictly increasing degrees (so each degree appears at most once).
pub open spec fn seq_sorted(s: Seq<(i32, Coef)>) -> bool {
    forall|i: int, j: int| 0 <= i < j < s.len() ==> (#[trigger] s[i]).0 < (#[trigger] s[j]).0
}

/// Well-formed term list: strictly increasing non-negative degrees,
/// canonical coefficients.
pub open spec fn seq_wf(s: Seq<(i32, Coef)>) -> bool {
    &&& seq_sorted(s)
    &&& forall|i: int| 0 <= i < s.len() ==> (#[trigger] s[i]).0 >= 0 && s[i].1.wf()
}

/// The effective degree of a term list: the largest degree carrying a
/// nonzero coefficient, or zero when every coefficient is zero.
pub open spec fn spec_degree(s: Seq<(i32, Coef)>) -> int
    decreases s.len(),
{
    if s.len() == 0 {
        0
    } else {
        let rest = spec_degree(s.drop_last());
        if s.last().1.num != 0 && s.last().0 > rest {
            s.last().0 as int
        } else {
            rest
        }
    }
}

pub proof fn lemma_coef_at_absent(s: Seq<(i32, Coef)>, d: int)
    requires
        !spec_has(s, d),
    ensures
        spec_coef_at(s, d) == Coef::spec_zero(),
    decreases s.len(),
{
    if s.len() > 0 {
        assert(s[0].0 != d);
        assert(forall|i: int|
            0 <= i < s.skip(1).len() ==> (#[trigger] s.skip(1)[i]) == s[i + 1]);
        lemma_coef_at_absent(s.skip(1), d);
    }
}

pub proof fn lemma_coef_at_present(s: Seq<(i32, Coef)>, d: int, k: int)
    requires
        0 <= k < s.len(),
        s[k].0 == d,
        forall|j: int| 0 <= j < k ==> (#[trigger] s[j]).0 != d,
    ensures
        spec_coef_at(s, d) == s[k].1,
    decreases s.len(),
{
    if k == 0 {
    } else {
        assert(s[0].0 != d);
        assert(forall|i: int|
            0 <= i < s.skip(1).len() ==> (#[trigger] s.skip(1)[i]) == s[i + 1]);
        lemma_coef_at_present(s.skip(1), d, k - 1);
    }
}

/// In a sorted term list the entry at any index gives the coefficient of
/// its degree.
pub proof fn lemma_coef_at_sorted(s: Seq<(i32, Coef)>, k: int)
    requires
        seq_sorted(s),
        0 <= k < s.len(),
    ensures
        spec_coef_at(s, s[k].0 as int) == s[k].1,
{
    lemma_coef_at_present(s, s[k].0 as int, k);
}

/// The effective degree is non-negative, bounds every nonzero entry, and is
/// itself carried by a nonzero entry unless it is zero.
pub proof fn lemma_spec_degree_bounds(s: Seq<(i32, Coef)>)
    requires
        forall|i: int| 0 <= i < s.len() ==> (#[trigger] s[i]).0 >= 0,
    ensures
        spec_degree(s) >= 0,
        forall|i: int|
            0 <= i < s.len() && (#[trigger] s[i]).1.num != 0 ==> s[i].0 <= spec_degree(s),
        spec_degree(s) == 0 || exists|i: int|
            0 <= i < s.len() && (#[trigger] s[i]).0 == spec_degree(s) && s[i].1.num != 0,
    decreases s.len(),
{
    if s.len() > 0 {
        assert(forall|i: int|
            0 <= i < s.drop_last().len() ==> (#[trigger] s.drop_last()[i]) == s[i]);
        lemma_spec_degree_bounds(s.drop_last());
        let rest = spec_degree(s.drop_last());
        assert forall|i: int|
            0 <= i < s.len() && (#[trigger] s[i]).1.num != 0 implies s[i].0 <= spec_degree(
            s,
        ) by {
            if i < s.len() - 1 {
                assert(s.drop_last()[i] == s[i]);
            }
        }
        if s.last().1.num != 0 && s.last().0 > rest {
            assert(s[s.len() - 1].0 == spec_degree(s) && s[s.len() - 1].1.num != 0);
        } else {
            if rest != 0 {
                let i = choose|i: int|
                    0 <= i < s.drop_last().len() && (#[trigger] s.drop_last()[i]).0 == rest
                        && s.drop_last()[i].1.num != 0;
                assert(s[i].0 == spec_degree(s) && s[i].1.num != 0);
            }
        }
    }
}

/// A sparse polynomial over exact decimal coefficients.
#[derive(Debug)]
pub struct Polynomial {
    pub terms: Vec<(i32, Coef)>,
}

impl Polynomial {
    /// Sorted unique non-negative degrees, canonical coefficients.
    pub open spec fn wf(self) -> bool {
        seq_wf(self.terms@)
    }

    /// The empty polynomial.
    pub fn new() -> (r: Polynomial)
        ensures
            r.wf(),
            r.terms@.len() == 0,
    {
        Polynomial { terms: Vec::new() }
    }

    /// An identical copy.
    pub fn duplicate(&self) -> (r: Polynomial)
        ensures
            r.terms@ == self.terms@,
    {
        let mut terms: Vec<(i32, Coef)> = Vec::new();
        let mut i: usize = 0;
        while i < self.terms.len()
            invariant
                i <= self.terms@.len(),
                terms@ == self.terms@.take(i as int),
            decreases self.terms@.len() - i,
        {
            terms.push(self.terms[i]);
            i = i + 1;
            proof {
                assert(self.terms@.take(i as int) =~= self.terms@.take(i - 1).push(
                    self.terms@[i - 1],
                ));
            }
        }
        proof {
            assert(self.terms@.take(self.terms@.len() as int) =~= self.terms@);
        }
        Polynomial { terms }
    }

    /// The coefficient at `deg` (zero when the degree is absent).
    pub fn coef_at(&self, deg: i32) -> (c: Coef)
        requires
            self.wf(),
        ensures
            c == spec_coef_at(self.terms@, deg as int),
    {
        let mut i: usize = 0;
        while i < self.terms.len()
            invariant
                i <= self.terms@.len(),
                forall|j: int| 0 <= j < i ==> (#[trigger] self.terms@[j]).0 != deg,
            decreases self.terms@.len() - i,
        {
            if self.terms[i].0 == deg {
                proof {
                    lemma_coef_at_present(self.terms@, deg as int, i as int);
                }
                return self.terms[i].1;
            }
            i = i + 1;
        }
        proof {
            lemma_coef_at_absent(self.terms@, deg as int);
        }
        Coef::zero()
    }

    /// The degrees with explicit entries, in increasing order.
    pub fn degrees(&self) -> (r: Vec<i32>)
        ensures
            r@ == self.terms@.map_values(|t: (i32, Coef)| t.0),
    {
        let mut r: Vec<i32> = Vec::new();
        let mut i: usize = 0;
        while i < self.terms.len()
            invariant
                i <= self.terms@.len(),
                r@ == self.terms@.take(i as int).map_values(|t: (i32, Coef)| t.0),
            decreases self.terms@.len() - i,
        {
            r.push(self.terms[i].0);
            i = i + 1;
            proof {
                assert(self.terms@.take(i as int) =~= self.terms@.take(i - 1).push(
                    self.terms@[i - 1],
                ));
                assert(self.terms@.take(i as int).map_values(|t: (i32, Coef)| t.0) =~= self
                    .terms@.take(i - 1).map_values(|t: (i32, Coef)| t.0).push(
                    self.terms@[i - 1].0,
                ));
            }
        }
        proof {
            assert(self.terms@.take(self.terms@.len() as int) =~= self.terms@);
        }
        r
    }

    /// The effective degree: the largest degree with a nonzero coefficient,
    /// or zero when every coefficient is zero. Explicit zero entries are
    /// ignored.
    pub fn get_degree(&self) -> (r: i32)
        requires
            self.wf(),
        ensures
            r == spec_degree(self.terms@),
    {
        let mut max_degree: i32 = 0;
        let mut i: usize = 0;
        while i < self.terms.len()
            invariant
                i <= self.terms@.len(),
                max_degree == spec_degree(self.terms@.take(i as int)),
            decreases self.terms@.len() - i,
        {
            let (degree, value) = self.terms[i];
            if !value.is_zero() && degree > max_degree {
                max_degree = degree;
            }
            i = i + 1;
            proof {
                let t = self.terms@.take(i as int);
                assert(t =~= self.terms@.take(i - 1).push(self.terms@[i - 1]));
                assert(t.drop_last() =~= self.terms@.take(i - 1));
                assert(t.last() == self.terms@[i - 1]);
            }
        }
        proof {
            assert(self.terms@.take(self.terms@.len() as int) =~= self.terms@);
        }
        max_degree
    }

    /// Adds `c` to the coefficient at `deg` (inserting the degree if it is
    /// absent). Fails, changing nothing, exactly when the exact sum leaves
    /// the 128-bit range.
    pub fn add_term(&mut self, deg: i32, c: Coef) -> (ok: bool)
        requires
            old(self).wf(),
            c.wf(),
            deg >= 0,
        ensures
            final(self).wf(),
            ok <==> Coef::combine_fits(spec_coef_at(old(self).terms@, deg as int), c, false),
            !ok ==> *final(self) == *old(self),
            ok ==> Coef::is_sum(
                spec_coef_at(old(self).terms@, deg as int),
                c,
                spec_coef_at(final(self).terms@, deg as int),
            ),
            ok ==> forall|d: int|
                d != deg ==> spec_coef_at(final(self).terms@, d) == spec_coef_at(
                    old(self).terms@,
                    d,
                ),
            ok ==> forall|d: int|
                spec_has(final(self).terms@, d) == (spec_has(old(self).terms@, d) || d == deg),
    {
        self.accum_term(deg, c, false)
    }

    /// Subtracts `c` from the coefficient at `deg`, as `add_term`.
    pub fn sub_term(&mut self, deg: i32, c: Coef) -> (ok: bool)
        requires
            old(self).wf(),
            c.wf(),
            deg >= 0,
        ensures
            final(self).wf(),
            ok <==> Coef::combine_fits(spec_coef_at(old(self).terms@, deg as int), c, true),
            !ok ==> *final(self) == *old(self),
            ok ==> Coef::is_diff(
                spec_coef_at(old(self).terms@, deg as int),
                c,
                spec_coef_at(final(self).terms@, deg as int),
            ),
            ok ==> forall|d: int|
                d != deg ==> spec_coef_at(final(self).terms@, d) == spec_coef_at(
                    old(self).terms@,
                    d,
                ),
            ok ==> forall|d: int|
                spec_has(final(self).terms@, d) == (spec_has(old(self).terms@, d) || d == deg),
    {
        self.accum_term(deg, c, true)
    }

    /// Shared body of `add_term` and `sub_term`.
    fn accum_term(&mut self, deg: i32, c: Coef, diff: bool) -> (ok: bool)
        requires
            old(self).wf(),
            c.wf(),
            deg >= 0,
        ensures
            final(self).wf(),
            ok <==> Coef::combine_fits(spec_coef_at(old(self).terms@, deg as int), c, diff),
            !ok ==> *final(self) == *old(self),
            ok ==> (if diff {
                Coef::is_diff(
                    spec_coef_at(old(self).terms@, deg as int),
                    c,
                    spec_coef_at(final(self).terms@, deg as int),
                )
            } else {
                Coef::is_sum(
                    spec_coef_at(old(self).terms@, deg as int),
                    c,
                    spec_coef_at(final(self).terms@, deg as int),
                )
            }),
            ok ==> forall|d: int|
                d != deg ==> spec_coef_at(final(self).terms@, d) == spec_coef_at(
                    old(self).terms@,
                    d,
                ),
            ok ==> forall|d: int|
                spec_has(final(self).terms@, d) == (spec_has(old(self).terms@, d) || d == deg),
    {
        let ghost s = self.terms@;
        let mut i: usize = 0;
        while i < self.terms.len() && self.terms[i].0 < deg
            invariant
                self.terms@ == s,
                i <= s.len(),
                forall|j: int| 0 <= j < i ==> (#[trigger] s[j]).0 < deg,
            decreases s.len() - i,
        {
            i = i + 1;
        }
        if i < self.terms.len() && self.terms[i].0 == deg {
            // the degree is present: combine into its entry
            let cur = self.terms[i].1;
            proof {
                lemma_coef_at_sorted(s, i as int);
            }
            let combined = if diff {
                cur.checked_sub(&c)
            } else {
                cur.checked_add(&c)
            };
            match combined {
                Some(nc) => {
                    self.terms.remove(i);
                    self.terms.insert(i, (deg, nc));
                    proof {
                        let s2 = self.terms@;
                        assert(s2 =~= s.update(i as int, (deg, nc)));
                        assert(seq_wf(s2));
                        lemma_coef_at_sorted(s2, i as int);
                        assert forall|d: int| d != deg implies spec_coef_at(s2, d)
                            == spec_coef_at(s, d) by {
                            lemma_coef_at_frame(s, s2, i as int, d);
                        }
                        assert forall|d: int| spec_has(s2, d) == (spec_has(s, d) || d
                            == deg) by {
                            lemma_has_update(s, s2, i as int, deg as int, d);
                        }
                    }
                    true
                },
                None => false,
            }
        } else {
            // the degree is absent: insert a fresh entry holding the signed
            // contribution
            proof {
                assert forall|j: int| 0 <= j < s.len() implies (#[trigger] s[j]).0
                    != deg by {
                    if j >= i {
                        assert(s[i as int].0 > deg || i >= s.len());
                        if j > i {
                            assert(s[i as int].0 < s[j].0);
                        }
                    }
                }
                lemma_coef_at_absent(s, deg as int);
            }
            let zero = Coef::zero();
            let signed_c = if diff {
                zero.checked_sub(&c)
            } else {
                zero.checked_add(&c)
            };
            match signed_c {
                Some(nc) => {
                    self.terms.insert(i, (deg, nc));
                    proof {
                        let s2 = self.terms@;
                        assert(s2 == s.insert(i as int, (deg, nc)));
                        assert forall|p: int, q: int| 0 <= p < q < s2.len() implies (
                        #[trigger] s2[p]).0 < (#[trigger] s2[q]).0 by {
                            assert(s2[p] == if p < i {
                                s[p]
                            } else if p == i {
                                (deg, nc)
                            } else {
                                s[p - 1]
                            });
                            assert(s2[q] == if q < i {
                                s[q]
                            } else if q == i {
                                (deg, nc)
                            } else {
                                s[q - 1]
                            });
                        }
                        assert(seq_wf(s2));
                        lemma_coef_at_sorted(s2, i as int);
                        assert(s2[i as int] == (deg, nc));
                        assert forall|d: int| d != deg implies spec_coef_at(s2, d)
                            == spec_coef_at(s, d) by {
                            lemma_coef_at_insert_frame(s, s2, i as int, d);
                        }
                        assert forall|d: int| spec_has(s2, d) == (spec_has(s, d) || d
                            == deg) by {
                            lemma_has_insert(s, s2, i as int, deg as int, d);
                        }
                    }
                    true
                },
                None => false,
            }
        }
    }
}

impl Polynomial {
    /// The degree-wise difference `self - rhs`; the result's explicit
    /// entries are the union of both entry sets, and a missing degree counts
    /// as zero on both sides. `None` exactly when some degree's exact
    /// difference leaves the 128-bit range.
    pub fn sub(&self, rhs: &Polynomial) -> (r: Option<Polynomial>)
        requires
            self.wf(),
            rhs.wf(),
        ensures
            r is Some <==> forall|i: int|
                0 <= i < rhs.terms@.len() ==> Coef::combine_fits(
                    spec_coef_at(self.terms@, (#[trigger] rhs.terms@[i]).0 as int),
                    rhs.terms@[i].1,
                    true,
                ),
            r matches Some(p) ==> p.wf() && (forall|d: int|
                spec_has(p.terms@, d) == (spec_has(self.terms@, d) || spec_has(
                    rhs.terms@,
                    d,
                ))) && (forall|d: int|
                Coef::is_diff(
                    spec_coef_at(self.terms@, d),
                    spec_coef_at(rhs.terms@, d),
                    spec_coef_at(p.terms@, d),
                )),
    {
        let mut out = self.duplicate();
        let ghost s = self.terms@;
        let ghost t = rhs.terms@;
        let mut k: usize = 0;
        while k < rhs.terms.len()
            invariant
                s == self.terms@,
                t == rhs.terms@,
                seq_wf(s),
                seq_wf(t),
                out.wf(),
                k <= t.len(),
                forall|d: int|
                    #![trigger spec_has(out.terms@, d)]
                    spec_has(out.terms@, d) == (spec_has(s, d) || prefix_has(t, k as int, d)),
                forall|i: int|
                    0 <= i < k ==> Coef::combine_fits(
                        spec_coef_at(s, (#[trigger] t[i]).0 as int),
                        t[i].1,
                        true,
                    ),
                forall|i: int|
                    0 <= i < k ==> Coef::is_diff(
                        spec_coef_at(s, (#[trigger] t[i]).0 as int),
                        t[i].1,
                        spec_coef_at(out.terms@, t[i].0 as int),
                    ),
                forall|d: int|
                    (forall|i: int| 0 <= i < k ==> (#[trigger] t[i]).0 != d) ==> spec_coef_at(
                        out.terms@,
                        d,
                    ) == spec_coef_at(s, d),
            decreases t.len() - k,
        {
            let (deg, c) = rhs.terms[k];
            proof {
                assert(forall|i: int| 0 <= i < k ==> (#[trigger] t[i]).0 != deg);
                assert(spec_coef_at(out.terms@, deg as int) == spec_coef_at(s, deg as int));
            }
            let ghost out_before = out.terms@;
            let ok = out.sub_term(deg, c);
            if !ok {
                proof {
                    assert(!Coef::combine_fits(
                        spec_coef_at(s, t[k as int].0 as int),
                        t[k as int].1,
                        true,
                    ));
                }
                return None;
            }
            k = k + 1;
            proof {
                assert forall|i: int| 0 <= i < k implies Coef::is_diff(
                    spec_coef_at(s, (#[trigger] t[i]).0 as int),
                    t[i].1,
                    spec_coef_at(out.terms@, t[i].0 as int),
                ) by {
                    if i < k - 1 {
                        assert(t[i].0 < t[k - 1].0);
                        assert(spec_coef_at(out.terms@, t[i].0 as int) == spec_coef_at(
                            out_before,
                            t[i].0 as int,
                        ));
                    }
                }
                assert forall|d: int| #![trigger spec_has(out.terms@, d)]
                    spec_has(out.terms@, d) == (spec_has(s, d) || prefix_has(
                    t,
                    k as int,
                    d,
                )) by {
                    assert(spec_has(out.terms@, d) == (spec_has(out_before, d) || d == deg));
                    assert(spec_has(out_before, d) == (spec_has(s, d) || prefix_has(
                        t,
                        k - 1,
                        d,
                    )));
                    if d == deg {
                        assert(t[k - 1].0 == d);
                        assert(prefix_has(t, k as int, d));
                    } else {
                        assert(prefix_has(t, k as int, d) == prefix_has(t, k - 1, d)) by {
                            if prefix_has(t, k as int, d) {
                                let i = choose|i: int|
                                    0 <= i < k && (#[trigger] t[i]).0 == d;
                                assert(i != k - 1);
                                assert(0 <= i < k - 1 && t[i].0 == d);
                            }
                            if prefix_has(t, k - 1, d) {
                                let i = choose|i: int|
                                    0 <= i < k - 1 && (#[trigger] t[i]).0 == d;
                                assert(0 <= i < k && t[i].0 == d);
                            }
                        }
                    }
                }
            }
        }
        proof {
            assert forall|d: int| #![trigger spec_has(out.terms@, d)]
                spec_has(out.terms@, d) == (spec_has(s, d) || spec_has(t, d)) by {
                assert(spec_has(out.terms@, d) == (spec_has(s, d) || prefix_has(
                    t,
                    t.len() as int,
                    d,
                )));
                assert(prefix_has(t, t.len() as int, d) == spec_has(t, d)) by {
                    if prefix_has(t, t.len() as int, d) {
                        let i = choose|i: int|
                            0 <= i < t.len() && (#[trigger] t[i]).0 == d;
                        assert(spec_has(t, d));
                    }
                    if spec_has(t, d) {
                        let i = choose|i: int| 0 <= i < t.len() && (#[trigger] t[i]).0 == d;
                        assert(prefix_has(t, t.len() as int, d));
                    }
                }
            }
            assert forall|d: int| Coef::is_diff(
                spec_coef_at(s, d),
                spec_coef_at(t, d),
                spec_coef_at(out.terms@, d),
            ) by {
                if spec_has(t, d) {
                    let i = choose|i: int| 0 <= i < t.len() && (#[trigger] t[i]).0 == d;
                    lemma_coef_at_sorted(t, i);
                } else {
                    lemma_coef_at_absent(t, d);
                    assert(spec_coef_at(out.terms@, d) == spec_coef_at(s, d)) by {
                        assert(forall|i: int| 0 <= i < t.len() ==> (#[trigger] t[i]).0 != d);
                    }
                    crate::coef::lemma_combine_zero(spec_coef_at(s, d));
                }
            }
        }
        Some(out)
    }
}

/// Subtracting a polynomial from itself never leaves the 128-bit range:
/// every degree subtracts a coefficient from itself.
pub proof fn lemma_sub_self_fits(p: Polynomial)
    requires
        p.wf(),
    ensures
        forall|i: int|
            0 <= i < p.terms@.len() ==> Coef::combine_fits(
                spec_coef_at(p.terms@, (#[trigger] p.terms@[i]).0 as int),
                p.terms@[i].1,
                true,
            ),
{
    assert forall|i: int| 0 <= i < p.terms@.len() implies Coef::combine_fits(
        spec_coef_at(p.terms@, (#[trigger] p.terms@[i]).0 as int),
        p.terms@[i].1,
        true,
    ) by {
        lemma_coef_at_sorted(p.terms@, i);
        let c = p.terms@[i].1;
        assert(pow10(0) == 1) by {
            vstd::arithmetic::power::lemma_pow0(10);
        }
        assert(c.num * pow10((c.scale - c.scale) as nat) == c.num);
        assert(Coef::combine_fits(c, c, true));
    }
}

/// Subtraction is the inverse of addition: a polynomial that satisfies the
/// degree-wise difference relation of `P - P` has all-zero coefficients.
pub proof fn lemma_sub_self_zero(p: Polynomial, q: Polynomial)
    requires
        p.wf(),
        q.wf(),
        forall|d: int|
            Coef::is_diff(
                spec_coef_at(p.terms@, d),
                spec_coef_at(p.terms@, d),
                #[trigger] spec_coef_at(q.terms@, d),
            ),
    ensures
        forall|d: int| spec_coef_at(q.terms@, d) == Coef::spec_zero(),
{
    assert forall|d: int| spec_coef_at(q.terms@, d) == Coef::spec_zero() by {
        let c = spec_coef_at(p.terms@, d);
        let z = spec_coef_at(q.terms@, d);
        assert(Coef::is_diff(c, c, z));
        lemma_pow10_positive((c.scale + c.scale) as nat);
        lemma_pow10_positive(z.scale as nat);
        assert(z.num * pow10((c.scale + c.scale) as nat) == 0) by {
            assert((c.num * pow10(c.scale as nat) - c.num * pow10(c.scale as nat)) * pow10(
                z.scale as nat,
            ) == 0);
        }
        assert(z.num == 0) by (nonlinear_arith)
            requires
                z.num * pow10((c.scale + c.scale) as nat) == 0,
                pow10((c.scale + c.scale) as nat) >= 1,
        ;
        if q.wf() {
            assert(z.wf()) by {
                lemma_coef_at_wf(q.terms@, d);
            }
        }
        assert(z.scale == 0);
    }
}

/// The coefficient at any degree of a well-formed term list is canonical.
pub proof fn lemma_coef_at_wf(s: Seq<(i32, Coef)>, d: int)
    requires
        forall|i: int| 0 <= i < s.len() ==> (#[trigger] s[i]).1.wf(),
    ensures
        spec_coef_at(s, d).wf(),
    decreases s.len(),
{
    if s.len() > 0 && s[0].0 != d {
        assert(forall|i: int|
            0 <= i < s.skip(1).len() ==> (#[trigger] s.skip(1)[i]) == s[i + 1]);
        lemma_coef_at_wf(s.skip(1), d);
    }
}

/// Updating one entry leaves the coefficient of every other degree
/// unchanged.
proof fn lemma_coef_at_frame(s: Seq<(i32, Coef)>, s2: Seq<(i32, Coef)>, i: int, d: int)
    requires
        seq_sorted(s),
        0 <= i < s.len(),
        s2 == s.update(i, (s[i].0, s2[i].1)),
        d != s[i].0,
    ensures
        spec_coef_at(s2, d) == spec_coef_at(s, d),
{
    assert(seq_sorted(s2));
    if spec_has(s, d) {
        let k = choose|k: int| 0 <= k < s.len() && (#[trigger] s[k]).0 == d;
        lemma_coef_at_sorted(s, k);
        assert(s2[k].0 == d && s2[k].1 == s[k].1);
        lemma_coef_at_sorted(s2, k);
    } else {
        lemma_coef_at_absent(s, d);
        assert(!spec_has(s2, d)) by {
            if spec_has(s2, d) {
                let k = choose|k: int| 0 <= k < s2.len() && (#[trigger] s2[k]).0 == d;
                assert(s[k].0 == d);
            }
        }
        lemma_coef_at_absent(s2, d);
    }
}

proof fn lemma_has_update(s: Seq<(i32, Coef)>, s2: Seq<(i32, Coef)>, i: int, deg: int, d: int)
    requires
        0 <= i < s.len(),
        s[i].0 == deg,
        s2 == s.update(i, (s[i].0, s2[i].1)),
    ensures
        spec_has(s2, d) == (spec_has(s, d) || d == deg),
{
    if spec_has(s2, d) {
        let k = choose|k: int| 0 <= k < s2.len() && (#[trigger] s2[k]).0 == d;
        assert(s[k].0 == d);
    }
    if spec_has(s, d) {
        let k = choose|k: int| 0 <= k < s.len() && (#[trigger] s[k]).0 == d;
        assert(s2[k].0 == d);
    }
    if d == deg {
        assert(s2[i].0 == d);
    }
}

/// Inserting an entry for a fresh degree leaves the coefficient of every
/// other degree unchanged.
proof fn lemma_coef_at_insert_frame(s: Seq<(i32, Coef)>, s2: Seq<(i32, Coef)>, i: int, d: int)
    requires
        seq_sorted(s),
        seq_sorted(s2),
        0 <= i <= s.len(),
        s2 == s.insert(i, s2[i]),
        d != s2[i].0,
    ensures
        spec_coef_at(s2, d) == spec_coef_at(s, d),
{
    if spec_has(s, d) {
        let k = choose|k: int| 0 <= k < s.len() && (#[trigger] s[k]).0 == d;
        lemma_coef_at_sorted(s, k);
        if k < i {
            assert(s2[k].0 == d && s2[k].1 == s[k].1);
            lemma_coef_at_sorted(s2, k);
        } else {
            assert(s2[k + 1].0 == d && s2[k + 1].1 == s[k].1);
            lemma_coef_at_sorted(s2, k + 1);
        }
    } else {
        lemma_coef_at_absent(s, d);
        assert(!spec_has(s2, d)) by {
            if spec_has(s2, d) {
                let k = choose|k: int| 0 <= k < s2.len() && (#[trigger] s2[k]).0 == d;
                assert(k != i);
                if k < i {
                    assert(s[k].0 == d);
                } else {
                    assert(s[k - 1].0 == d);
                }
            }
        }
        lemma_coef_at_absent(s2, d);
    }
}

proof fn lemma_has_insert(s: Seq<(i32, Coef)>, s2: Seq<(i32, Coef)>, i: int, deg: int, d: int)
    requires
        0 <= i <= s.len(),
        s2 == s.insert(i, s2[i]),
        s2[i].0 == deg,
    ensures
        spec_has(s2, d) == (spec_has(s, d) || d == deg),
{
    if spec_has(s2, d) && d != deg {
        let k = choose|k: int| 0 <= k < s2.len() && (#[trigger] s2[k]).0 == d;
        assert(k != i);
        if k < i {
            assert(s[k].0 == d);
        } else {
            assert(s[k - 1].0 == d);
        }
    }
    if spec_has(s, d) {
        let k = choose|k: int| 0 <= k < s.len() && (#[trigger] s[k]).0 == d;
        if k < i {
            assert(s2[k].0 == d);
        } else {
            assert(s2[k + 1].0 == d);
        }
    }
    if d == deg {
        assert(s2[i].0 == d);
    }
}

} // verus!
