//! The canonical reduced-form rendering: terms in descending degree order,
//! each written `coefficient*X^degree` with the coefficient as an exact
//! decimal, joined by ` + ` and closed by ` = 0`.

use vstd::prelude::*;
use crate::coef::{Coef, DecVal, canon_dec, pow10};
use crate::polynomial::Polynomial;
use crate::chars::{string_from_chars, is_digit_char, digit_val, is_sign_char, is_space_char};
use crate::parse::{all_digit_chars, digits_val};

verus! {

/// The character of one decimal digit.
pub open spec fn digit_char(d: int) -> char {
    if d == 0 {
        '0'
    } else if d == 1 {
        '1'
    } else if d == 2 {
        '2'
    } else if d == 3 {
        '3'
    } else if d == 4 {
        '4'
    } else if d == 5 {
        '5'
    } else if d == 6 {
        '6'
    } else if d == 7 {
        '7'
    } else if d == 8 {
        '8'
    } else {
        '9'
    }
}

/// The decimal digits of a non-negative integer, most significant first.
pub open spec fn digits_of(n: int) -> Seq<char>
    decreases n,
{
    if n < 10 {
        seq![digit_char(n)]
    } else {
        digits_of(n / 10).push(digit_char(n % 10))
    }
}

/// A run of `k` zero characters.
pub open spec fn zero_chars(k: int) -> Seq<char> {
    Seq::new(k as nat, |i: int| '0')
}

/// The magnitude of a coefficient's numerator.
pub open spec fn coef_mag(c: Coef) -> int {
    if c.num >= 0 {
        c.num as int
    } else {
        -(c.num as int)
    }
}

/// The unsigned decimal text of a coefficient: the integer part, then `.`
/// and the fraction when the scale is positive.
pub open spec fn coef_body(c: Coef) -> Seq<char> {
    let ds = digits_of(coef_mag(c));
    if c.scale == 0 {
        ds
    } else if ds.len() > c.scale {
        ds.take(ds.len() - c.scale as int) + seq!['.'] + ds.skip(ds.len() - c.scale as int)
    } else {
        seq!['0', '.'] + zero_chars(c.scale - ds.len()) + ds
    }
}

/// The decimal text of a coefficient: optional `-`, then the unsigned
/// body.
pub open spec fn coef_chars(c: Coef) -> Seq<char> {
    if c.num < 0 {
        seq!['-'] + coef_body(c)
    } else {
        coef_body(c)
    }
}

/// The text of one term, `coefficient*X^degree`.
pub open spec fn term_chars(deg: i32, c: Coef) -> Seq<char> {
    coef_chars(c) + seq!['*', 'X', '^'] + digits_of(deg as int)
}

/// The terms of a (degree-ascending) list rendered in descending order,
/// joined by ` + `.
pub open spec fn render_desc(s: Seq<(i32, Coef)>) -> Seq<char>
    decreases s.len(),
{
    if s.len() == 0 {
        Seq::empty()
    } else if s.len() == 1 {
        term_chars(s[0].0, s[0].1)
    } else {
        term_chars(s.last().0, s.last().1) + seq![' ', '+', ' '] + render_desc(s.drop_last())
    }
}

/// The canonical reduced form of a polynomial, closed by ` = 0`.
pub open spec fn render_spec(s: Seq<(i32, Coef)>) -> Seq<char> {
    render_desc(s) + seq![' ', '=', ' ', '0']
}

/// One decimal digit as a character.
fn digit_char_of(d: u128) -> (r: char)
    requires
        d < 10,
    ensures
        r == digit_char(d as int),
{
    match d {
        0 => '0',
        1 => '1',
        2 => '2',
        3 => '3',
        4 => '4',
        5 => '5',
        6 => '6',
        7 => '7',
        8 => '8',
        _ => '9',
    }
}

/// The decimal digits of `n`, most significant first.
fn digits_vec(n: u128) -> (r: Vec<char>)
    ensures
        r@ == digits_of(n as int),
        r@.len() >= 1,
    decreases n,
{
    if n < 10 {
        let mut v: Vec<char> = Vec::new();
        v.push(digit_char_of(n));
        proof {
            assert(v@ =~= seq![digit_char(n as int)]);
        }
        v
    } else {
        let mut v = digits_vec(n / 10);
        v.push(digit_char_of(n % 10));
        proof {
            assert(n as int / 10 == (n / 10) as int);
            assert(n as int % 10 == (n % 10) as int);
        }
        v
    }
}

/// The decimal text of a coefficient.
fn coef_chars_vec(c: &Coef) -> (r: Vec<char>)
    ensures
        r@ == coef_chars(*c),
{
    let neg = c.num < 0;
    let mag: u128 = if c.num >= 0 {
        c.num as u128
    } else {
        ((-(c.num + 1)) as u128) + 1
    };
    proof {
        if c.num < 0 {
            assert(mag as int == -(c.num as int));
        }
    }
    let ds = digits_vec(mag);
    let mut out: Vec<char> = Vec::new();
    if neg {
        out.push('-');
    }
    if c.scale == 0 {
        let mut i: usize = 0;
        while i < ds.len()
            invariant
                i <= ds@.len(),
                out@ == (if neg {
                    seq!['-']
                } else {
                    Seq::<char>::empty()
                }) + ds@.take(i as int),
            decreases ds@.len() - i,
        {
            out.push(ds[i]);
            i = i + 1;
            proof {
                assert(ds@.take(i as int) =~= ds@.take(i - 1).push(ds@[i - 1]));
            }
        }
        proof {
            assert(ds@.take(ds@.len() as int) =~= ds@);
            assert(out@ =~= coef_chars(*c));
        }
    } else if ds.len() > c.scale as usize {
        let split = ds.len() - c.scale as usize;
        let mut i: usize = 0;
        while i < ds.len()
            invariant
                i <= ds@.len(),
                split == ds@.len() - c.scale,
                c.scale > 0,
                ds@.len() > c.scale,
                out@ == (if neg {
                    seq!['-']
                } else {
                    Seq::<char>::empty()
                }) + (if i <= split {
                    ds@.take(i as int)
                } else {
                    ds@.take(split as int) + seq!['.'] + ds@.subrange(split as int, i as int)
                }),
            decreases ds@.len() - i,
        {
            if i == split {
                out.push('.');
            }
            out.push(ds[i]);
            i = i + 1;
            proof {
                assert(ds@.take(i as int) =~= ds@.take(i - 1).push(ds@[i - 1]));
                if i > split {
                    assert(ds@.subrange(split as int, i as int) =~= ds@.subrange(
                        split as int,
                        i - 1,
                    ).push(ds@[i - 1]));
                }
            }
        }
        proof {
            assert(ds@.take(ds@.len() as int) =~= ds@);
            assert(ds@.subrange(split as int, ds@.len() as int) =~= ds@.skip(split as int));
            assert(out@ =~= coef_chars(*c));
        }
    } else {
        out.push('0');
        out.push('.');
        let zeros = c.scale as usize - ds.len();
        let mut z: usize = 0;
        while z < zeros
            invariant
                z <= zeros,
                zeros == c.scale - ds@.len(),
                c.scale > 0,
                ds@.len() <= c.scale,
                out@ == (if neg {
                    seq!['-']
                } else {
                    Seq::<char>::empty()
                }) + seq!['0', '.'] + zero_chars(z as int),
            decreases zeros - z,
        {
            out.push('0');
            z = z + 1;
            proof {
                assert(zero_chars(z as int) =~= zero_chars(z - 1).push('0'));
            }
        }
        let mut i: usize = 0;
        while i < ds.len()
            invariant
                i <= ds@.len(),
                zeros == c.scale - ds@.len(),
                c.scale > 0,
                ds@.len() <= c.scale,
                out@ == (if neg {
                    seq!['-']
                } else {
                    Seq::<char>::empty()
                }) + seq!['0', '.'] + zero_chars(zeros as int) + ds@.take(i as int),
            decreases ds@.len() - i,
        {
            out.push(ds[i]);
            i = i + 1;
            proof {
                assert(ds@.take(i as int) =~= ds@.take(i - 1).push(ds@[i - 1]));
            }
        }
        proof {
            assert(ds@.take(ds@.len() as int) =~= ds@);
            assert(out@ =~= coef_chars(*c));
        }
    }
    out
}

/// The text of one term.
fn term_chars_vec(deg: i32, c: &Coef) -> (r: Vec<char>)
    requires
        deg >= 0,
    ensures
        r@ == term_chars(deg, *c),
{
    let mut out = coef_chars_vec(c);
    out.push('*');
    out.push('X');
    out.push('^');
    let dv = digits_vec(deg as u128);
    let ghost mid = out@;
    let mut j: usize = 0;
    while j < dv.len()
        invariant
            j <= dv@.len(),
            out@ == mid + dv@.take(j as int),
        decreases dv@.len() - j,
    {
        out.push(dv[j]);
        j = j + 1;
        proof {
            assert(dv@.take(j as int) =~= dv@.take(j - 1).push(dv@[j - 1]));
        }
    }
    proof {
        assert(dv@.take(dv@.len() as int) =~= dv@);
        assert(out@ =~= term_chars(deg, *c));
    }
    out
}

impl Polynomial {
    /// The canonical reduced form: terms in descending degree order,
    /// `coefficient*X^degree`, joined by ` + `, closed by ` = 0`.
    pub fn reduced_form(&self) -> (r: String)
        requires
            self.wf(),
        ensures
            r@ == render_spec(self.terms@),
    {
        let ghost s = self.terms@;
        let mut out: Vec<char> = Vec::new();
        let n = self.terms.len();
        let mut k: usize = 0;
        proof {
            assert(s.take(n as int) =~= s);
        }
        while k < n
            invariant
                s == self.terms@,
                self.wf(),
                k <= n,
                n == s.len(),
                out@ + render_desc(s.take((n - k) as int)) == render_desc(s),
            decreases n - k,
        {
            let idx = n - 1 - k;
            let (deg, c) = self.terms[idx];
            let tv = term_chars_vec(deg, &c);
            let ghost before = out@;
            let mut j: usize = 0;
            while j < tv.len()
                invariant
                    j <= tv@.len(),
                    out@ == before + tv@.take(j as int),
                decreases tv@.len() - j,
            {
                out.push(tv[j]);
                j = j + 1;
                proof {
                    assert(tv@.take(j as int) =~= tv@.take(j - 1).push(tv@[j - 1]));
                }
            }
            proof {
                assert(tv@.take(tv@.len() as int) =~= tv@);
            }
            if idx > 0 {
                out.push(' ');
                out.push('+');
                out.push(' ');
            }
            k = k + 1;
            proof {
                let t1 = s.take((idx + 1) as int);
                assert(t1.last() == s[idx as int]);
                assert(t1.drop_last() =~= s.take(idx as int));
                if idx > 0 {
                    assert(render_desc(t1) == term_chars(s[idx as int].0, s[idx as int].1)
                        + seq![' ', '+', ' '] + render_desc(s.take(idx as int)));
                    assert(out@ =~= before + tv@ + seq![' ', '+', ' ']);
                    assert(out@ + render_desc(s.take(idx as int)) =~= before + render_desc(
                        t1,
                    ));
                } else {
                    assert(t1.len() == 1);
                    assert(render_desc(t1) == term_chars(s[0].0, s[0].1));
                    assert(s.take(0) =~= Seq::<(i32, Coef)>::empty());
                    assert(out@ + render_desc(s.take(0)) =~= before + render_desc(t1));
                }
            }
        }
        proof {
            assert(s.take(0) =~= Seq::<(i32, Coef)>::empty());
            assert(render_desc(s.take((n - k) as int)) == Seq::<char>::empty());
            assert(out@ =~= render_desc(s));
        }
        out.push(' ');
        out.push('=');
        out.push(' ');
        out.push('0');
        proof {
            assert(out@ =~= render_spec(s));
        }
        string_from_chars(&out)
    }
}

/// A digit character carries its digit back.
proof fn lemma_digit_char_val(d: int)
    requires
        0 <= d <= 9,
    ensures
        is_digit_char(digit_char(d)),
        digit_val(digit_char(d)) == d,
{
}

/// The digits of a non-negative integer are digits and denote it.
proof fn lemma_digits_of_props(n: int)
    requires
        n >= 0,
    ensures
        all_digit_chars(digits_of(n)),
        digits_val(digits_of(n)) == n,
        digits_of(n).len() >= 1,
    decreases n,
{
    if n < 10 {
        lemma_digit_char_val(n);
        assert(digits_of(n) =~= seq![digit_char(n)]);
        assert(digits_of(n).drop_last() =~= Seq::<char>::empty());
        assert(digits_val(Seq::<char>::empty()) == 0);
        assert(digits_of(n).last() == digit_char(n));
    } else {
        vstd::arithmetic::div_mod::lemma_fundamental_div_mod(n, 10);
        lemma_digits_of_props(n / 10);
        lemma_digit_char_val(n % 10);
        let ds = digits_of(n);
        assert(ds == digits_of(n / 10).push(digit_char(n % 10)));
        assert(ds.drop_last() =~= digits_of(n / 10));
        assert(ds.last() == digit_char(n % 10));
        assert forall|i: int| 0 <= i < ds.len() implies is_digit_char(#[trigger] ds[i]) by {
            if i < ds.len() - 1 {
                assert(ds[i] == digits_of(n / 10)[i]);
            }
        }
    }
}

/// Concatenation of digit strings: the left part is shifted by the length
/// of the right part.
proof fn lemma_digits_val_concat(a: Seq<char>, b: Seq<char>)
    ensures
        digits_val(a + b) == digits_val(a) * pow10(b.len() as nat) + digits_val(b),
    decreases b.len(),
{
    if b.len() == 0 {
        assert(a + b =~= a);
        assert(pow10(0) == 1) by {
            vstd::arithmetic::power::lemma_pow0(10);
        }
    } else {
        lemma_digits_val_concat(a, b.drop_last());
        assert((a + b).drop_last() =~= a + b.drop_last());
        assert((a + b).last() == b.last());
        crate::coef::lemma_pow10_unfold(b.len() as nat);
        let p1 = pow10((b.len() - 1) as nat);
        assert((digits_val(a) * p1 + digits_val(b.drop_last())) * 10 + digit_val(b.last())
            == digits_val(a) * (10 * p1) + (digits_val(b.drop_last()) * 10 + digit_val(
            b.last(),
        ))) by (nonlinear_arith);
    }
}

/// Digit characters are not signs, separators, or letters of the term
/// grammar.
proof fn lemma_digit_char_classes(c: char)
    requires
        is_digit_char(c),
    ensures
        !is_sign_char(c),
        !is_space_char(c),
        c != '.',
        c != '*',
        c != 'X',
        c != '^',
        c != '=',
{
}

/// A canonical decimal is its own canonical representation.
proof fn lemma_canon_id(v: DecVal)
    requires
        crate::coef::dec_wf(v),
    ensures
        canon_dec(v) == v,
{
    crate::coef::lemma_canon_dec(v);
    crate::coef::lemma_dec_unique(canon_dec(v), v);
}

/// The magnitude of a canonical numerator keeps its non-divisibility by
/// ten.
proof fn lemma_mag_mod(c: Coef)
    requires
        c.wf(),
    ensures
        c.scale > 0 ==> coef_mag(c) % 10 != 0,
{
    if c.scale > 0 && c.num < 0 {
        let x = c.num as int;
        let q = x / 10;
        let r = x % 10;
        vstd::arithmetic::div_mod::lemma_fundamental_div_mod(x, 10);
        assert(0 <= r < 10);
        assert(-x == (-q - 1) * 10 + (10 - r)) by (nonlinear_arith)
            requires
                x == 10 * q + r,
        ;
        vstd::arithmetic::div_mod::lemma_fundamental_div_mod_converse(-x, 10, -q - 1, 10 - r);
    }
}

/// The unsigned text of a term: the coefficient body without its sign,
/// then `*X^degree`.
pub open spec fn unsigned_term(deg: i32, c: Coef) -> Seq<char> {
    coef_body(c) + seq!['*', 'X', '^'] + digits_of(deg as int)
}

/// Scanning the numeric run across a stretch of digits holding at most
/// one (new) decimal point advances to its end.
proof fn lemma_run_scan(t: Seq<char>, i: int, k: int, sd: bool)
    requires
        0 <= i <= k <= t.len(),
        forall|p: int| i <= p < k ==> (is_digit_char(#[trigger] t[p]) || t[p] == '.'),
        forall|p: int, q: int|
            i <= p < q < k && (#[trigger] t[p]) == '.' ==> (#[trigger] t[q]) != '.',
        sd ==> forall|p: int| i <= p < k ==> (#[trigger] t[p]) != '.',
    ensures
        crate::parse::run_end_from(t, i, sd) == crate::parse::run_end_from(
            t,
            k,
            sd || exists|p: int| i <= p < k && (#[trigger] t[p]) == '.',
        ),
    decreases k - i,
{
    if i < k {
        if is_digit_char(t[i]) {
            lemma_digit_char_classes(t[i]);
            lemma_run_scan(t, i + 1, k, sd);
            assert((exists|p: int| i <= p < k && (#[trigger] t[p]) == '.') == (exists|p: int|
                i + 1 <= p < k && (#[trigger] t[p]) == '.'));
        } else {
            assert(t[i] == '.');
            assert(!sd);
            lemma_run_scan(t, i + 1, k, true);
            assert(exists|p: int| i <= p < k && (#[trigger] t[p]) == '.');
        }
    }
}

/// The digit characters of a coefficient's body denote the magnitude of
/// its numerator.
#[verifier::rlimit(60)]
proof fn lemma_body_digits(c: Coef)
    ensures
        digits_val(coef_body(c).filter(|ch: char| is_digit_char(ch))) == coef_mag(c),
{
    let fpred = |ch: char| is_digit_char(ch);
    let mag = coef_mag(c);
    lemma_digits_of_props(mag);
    let ds = digits_of(mag);
    let body = coef_body(c);
    if c.scale == 0 {
        crate::string_utils::lemma_filter_all(body, fpred);
        assert(body =~= ds);
    } else if ds.len() > c.scale {
        let split = ds.len() - c.scale as int;
        let a = ds.take(split);
        let b = ds.skip(split);
        assert(body =~= (a + seq!['.']) + b);
        Seq::filter_distributes_over_add(a + seq!['.'], b, fpred);
        Seq::filter_distributes_over_add(a, seq!['.'], fpred);
        crate::parse::lemma_filter_singleton('.', fpred);
        crate::string_utils::lemma_filter_all(a, fpred);
        crate::string_utils::lemma_filter_all(b, fpred);
        assert(body.filter(fpred) =~= ds);
        assert(a + b =~= ds);
    } else {
        let z = c.scale as int - ds.len();
        let zs = zero_chars(z);
        assert(forall|i: int| 0 <= i < zs.len() ==> (#[trigger] zs[i]) == '0');
        assert(forall|i: int| 0 <= i < zs.len() ==> is_digit_char(#[trigger] zs[i]));
        assert(body =~= ((seq!['0'] + seq!['.']) + zs) + ds);
        Seq::filter_distributes_over_add((seq!['0'] + seq!['.']) + zs, ds, fpred);
        Seq::filter_distributes_over_add(seq!['0'] + seq!['.'], zs, fpred);
        Seq::filter_distributes_over_add(seq!['0'], seq!['.'], fpred);
        crate::parse::lemma_filter_singleton('.', fpred);
        crate::parse::lemma_filter_singleton('0', fpred);
        crate::string_utils::lemma_filter_all(zs, fpred);
        crate::string_utils::lemma_filter_all(ds, fpred);
        assert(body.filter(fpred) =~= (seq!['0'] + zs) + ds);
        lemma_digits_val_concat(seq!['0'] + zs, ds);
        lemma_digits_val_concat(seq!['0'], zs);
        assert(digits_val(seq!['0']) == 0) by {
            assert(seq!['0'].drop_last() =~= Seq::<char>::empty());
            assert(digits_val(Seq::<char>::empty()) == 0);
            assert(seq!['0'].last() == '0');
        }
        assert(digits_val(zs) == 0) by {
            assert(forall|i: int| 0 <= i < zs.len() ==> digit_val(#[trigger] zs[i]) == 0);
            crate::parse::lemma_digits_append_zeros(Seq::<char>::empty(), zs);
            assert(Seq::<char>::empty() + zs =~= zs);
            assert(digits_val(Seq::<char>::empty()) == 0);
            lemma_pow10_pos(zs.len() as int);
        }
        assert(digits_val(seq!['0'] + zs) == 0);
        vstd::arithmetic::mul::lemma_mul_by_zero_is_zero(pow10(ds.len() as nat));
        assert(digits_val((seq!['0'] + zs) + ds) == digits_val(ds));
    }
}

/// The unsigned text of a term parses back to exactly its degree and the
/// magnitude of its coefficient.
#[verifier::rlimit(100)]
pub(crate) proof fn lemma_unsigned_term_parses(deg: i32, c: Coef)
    requires
        deg >= 0,
        c.wf(),
        c.num > i128::MIN,
    ensures
        ({
            let u = unsigned_term(deg, c);
            &&& u.len() > 0
            &&& forall|p: int|
                0 <= p < u.len() ==> !is_sign_char(#[trigger] u[p]) && !is_space_char(u[p])
                    && u[p] != '='
            &&& crate::parse::token_ok(u)
            &&& crate::parse::term_deg(u) == deg as int
            &&& canon_dec(crate::parse::term_dec(u)) == (DecVal {
                num: coef_mag(c),
                scale: c.scale as nat,
            })
        }),
{
    let fpred = |ch: char| is_digit_char(ch);
    let mag = coef_mag(c);
    lemma_digits_of_props(mag);
    let ds = digits_of(mag);
    let body = coef_body(c);
    let dd = digits_of(deg as int);
    lemma_digits_of_props(deg as int);
    let u = unsigned_term(deg, c);
    let bl = body.len() as int;
    // the body is digits with at most one dot, and it carries the digits
    // of the magnitude at the scale's fraction length
    assert(u.len() == bl + 3 + dd.len());
    assert(forall|p: int| 0 <= p < bl ==> u[p] == body[p]);
    assert(u[bl] == '*' && u[bl + 1] == 'X' && u[bl + 2] == '^');
    assert(forall|p: int| 0 <= p < dd.len() ==> u[bl + 3 + p] == dd[p]);
    let dot_at: int = if c.scale == 0 {
        -1
    } else if ds.len() > c.scale {
        ds.len() - c.scale as int
    } else {
        1
    };
    assert forall|p: int| 0 <= p < bl implies (if p == dot_at {
        body[p] == '.'
    } else {
        is_digit_char(#[trigger] body[p])
    }) by {
        if c.scale == 0 {
        } else if ds.len() > c.scale {
            let split = ds.len() - c.scale as int;
            if p < split {
                assert(body[p] == ds.take(split)[p]);
                assert(ds[p] == body[p]);
            } else if p > split {
                assert(body[p] == ds.skip(split)[p - split - 1]);
            }
        } else {
            let z = c.scale as int - ds.len();
            if p == 0 {
                assert(body[0] == '0');
            } else if 2 <= p < 2 + z {
                assert(body[p] == zero_chars(z)[p - 2]);
                assert(body[p] == '0');
            } else if p >= 2 + z {
                assert(body[p] == ds[p - 2 - z]);
            }
        }
    }
    // character classes over the whole token
    assert forall|p: int|
        0 <= p < u.len() implies !is_sign_char(#[trigger] u[p]) && !is_space_char(u[p]) && u[p]
        != '=' by {
        if p < bl {
            if p == dot_at {
            } else {
                lemma_digit_char_classes(body[p]);
            }
        } else if p >= bl + 3 {
            lemma_digit_char_classes(dd[p - bl - 3]);
        }
    }
    // the numeric run is exactly the body
    lemma_run_scan(u, 0, bl, false);
    assert(crate::parse::run_end(u) == bl) by {
        assert(crate::parse::run_end_from(u, bl, true) == bl);
        assert(crate::parse::run_end_from(u, bl, false) == bl);
    }
    let run = u.take(bl);
    assert(run =~= body);
    // the run's digit characters denote the magnitude
    lemma_body_digits(c);
    assert(digits_val(run.filter(fpred)) == mag);
    // the run has a digit and its fraction length is the scale
    assert(crate::parse::run_has_digit(run)) by {
        if c.scale == 0 || ds.len() > c.scale {
            assert(is_digit_char(run[0]));
        } else {
            assert(run[0] == '0');
            assert(is_digit_char(run[0]));
        }
    }
    assert(crate::parse::run_frac_len(run) == c.scale as int) by {
        if dot_at >= 0 {
            assert(run[dot_at] == '.');
            assert(exists|p: int| 0 <= p < run.len() && (#[trigger] run[p]) == '.');
            let p0 = choose|p: int| 0 <= p < run.len() && (#[trigger] run[p]) == '.';
            assert(p0 == dot_at) by {
                if p0 != dot_at {
                    assert(is_digit_char(run[p0]));
                    lemma_digit_char_classes(run[p0]);
                }
            }
        } else {
            assert(!(exists|p: int| 0 <= p < run.len() && (#[trigger] run[p]) == '.')) by {
                if exists|p: int| 0 <= p < run.len() && (#[trigger] run[p]) == '.' {
                    let p0 = choose|p: int|
                        0 <= p < run.len() && (#[trigger] run[p]) == '.';
                    assert(is_digit_char(run[p0]));
                    lemma_digit_char_classes(run[p0]);
                }
            }
        }
    }
    assert(crate::parse::term_dec(u) == (DecVal { num: mag, scale: c.scale as nat }));
    lemma_mag_mod(c);
    lemma_canon_id(DecVal { num: mag, scale: c.scale as nat });
    // the remainder is `X^` and the degree digits
    let rem0 = u.skip(bl);
    assert(rem0 =~= seq!['*', 'X', '^'] + dd);
    assert(rem0[0] == '*');
    let rem = crate::parse::term_rem(u);
    assert(rem =~= seq!['X', '^'] + dd) by {
        assert(rem0.skip(1) =~= seq!['X', '^'] + dd);
    }
    assert(rem.skip(2) =~= dd);
    assert(crate::parse::xhat_ok(rem));
    assert(crate::parse::rem_deg(rem) == deg as int);
    // the edge checks pass
    assert(is_digit_char(u[0])) by {
        if c.scale == 0 || ds.len() > c.scale {
        } else {
            assert(body[0] == '0');
        }
    }
    assert(u[u.len() - 1] == dd[dd.len() - 1]);
    assert(is_digit_char(u[u.len() - 1]));
    lemma_digit_char_classes(u[0]);
    assert(!crate::parse::term_edge_bad(u));
    assert(crate::parse::token_ok(u));
}

/// `10^k` is positive (integer-length form).
proof fn lemma_pow10_pos(k: int)
    requires
        k >= 0,
    ensures
        pow10(k as nat) >= 1,
{
    crate::coef::lemma_pow10_positive(k as nat);
}

} // verus!
