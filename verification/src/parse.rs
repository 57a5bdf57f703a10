//! The text-to-polynomial parser. A normalized side is scanned into signed
//! tokens; each token must match the grammar `[coef][*]X[^exp]` or `[coef]`,
//! and contributes `coef` at its degree; the side's polynomial is the exact
//! signed sum of all contributions.

use vstd::prelude::*;
use crate::chars::{
    is_digit_char,
    digit_val,
    is_sign_char,
    is_digit,
    is_sign,
    chars_of,
    string_from_chars,
};
use crate::coef::{Coef, DecVal, canon_dec, dec_fits_i128, cross_eq, lemma_coef_is_canon};
use crate::coef::{pow10, lemma_pow10_positive, lemma_pow10_unfold, lemma_canon_dec};

verus! {

/// Why parsing failed. Every failure is recoverable and carries enough
/// context to format a message.
#[derive(Debug, Clone)]
pub enum ParseError {
    /// A term does not match the `[coef][*]X[^exp]` or `[coef]` grammar;
    /// carries the offending text.
    MalformedTerm(String),
    /// One side of `=` is empty after normalization.
    EmptySide,
    /// The input holds no `=`.
    MissingEquals,
    /// The input holds more than one `=`.
    MultipleEquals,
    /// An exact coefficient leaves the 128-bit decimal representation: a
    /// machine limit of the exact arithmetic, not a grammar failure.
    Overflow,
}

/// Every character is an ASCII decimal digit.
pub open spec fn all_digit_chars(s: Seq<char>) -> bool {
    forall|i: int| 0 <= i < s.len() ==> is_digit_char(#[trigger] s[i])
}

/// The non-negative integer a digit string denotes.
pub open spec fn digits_val(s: Seq<char>) -> int
    decreases s.len(),
{
    if s.len() == 0 {
        0
    } else {
        digits_val(s.drop_last()) * 10 + digit_val(s.last())
    }
}

pub proof fn lemma_digits_val_nonneg(s: Seq<char>)
    requires
        all_digit_chars(s),
    ensures
        digits_val(s) >= 0,
    decreases s.len(),
{
    if s.len() > 0 {
        assert(forall|i: int|
            0 <= i < s.drop_last().len() ==> (#[trigger] s.drop_last()[i]) == s[i]);
        lemma_digits_val_nonneg(s.drop_last());
        assert(is_digit_char(s.last()));
    }
}

/// The end of the numeric run (digits and at most one decimal point)
/// starting at `i`.
pub open spec fn run_end_from(t: Seq<char>, i: int, seen_dot: bool) -> int
    decreases t.len() - i,
{
    if i < 0 || i >= t.len() {
        if i > t.len() {
            t.len() as int
        } else {
            i
        }
    } else if is_digit_char(t[i]) {
        run_end_from(t, i + 1, seen_dot)
    } else if t[i] == '.' && !seen_dot {
        run_end_from(t, i + 1, true)
    } else {
        i
    }
}

/// The end of the leading numeric run of a token.
pub open spec fn run_end(t: Seq<char>) -> int {
    run_end_from(t, 0, false)
}

pub proof fn lemma_run_end_bounds(t: Seq<char>, i: int, seen_dot: bool)
    requires
        0 <= i <= t.len(),
    ensures
        i <= run_end_from(t, i, seen_dot) <= t.len(),
    decreases t.len() - i,
{
    if i < t.len() {
        if is_digit_char(t[i]) {
            lemma_run_end_bounds(t, i + 1, seen_dot);
        } else if t[i] == '.' && !seen_dot {
            lemma_run_end_bounds(t, i + 1, true);
        }
    }
}

/// The digit characters of the numeric run, in order (the decimal point
/// removed).
pub open spec fn run_digits(r: Seq<char>) -> Seq<char> {
    r.filter(|c: char| is_digit_char(c))
}

/// The count of digits after the decimal point of the run (zero when there
/// is no point).
pub open spec fn run_frac_len(r: Seq<char>) -> int {
    if exists|p: int| 0 <= p < r.len() && (#[trigger] r[p]) == '.' {
        r.len() - 1 - (choose|p: int| 0 <= p < r.len() && (#[trigger] r[p]) == '.')
    } else {
        0
    }
}

/// Whether the numeric run holds at least one digit. When it does not, the
/// coefficient defaults to one.
pub open spec fn run_has_digit(r: Seq<char>) -> bool {
    exists|i: int| 0 <= i < r.len() && is_digit_char(#[trigger] r[i])
}

/// The (unsigned, uncanonicalized) decimal coefficient of a token.
pub open spec fn term_dec(t: Seq<char>) -> DecVal {
    let r = t.take(run_end(t));
    if run_has_digit(r) {
        DecVal { num: digits_val(run_digits(r)), scale: run_frac_len(r) as nat }
    } else {
        DecVal { num: 1, scale: 0 }
    }
}

/// What remains of a token after the numeric run, with one leading `*`
/// stripped.
pub open spec fn term_rem(t: Seq<char>) -> Seq<char> {
    let rem0 = t.skip(run_end(t));
    if rem0.len() > 0 && rem0[0] == '*' {
        rem0.skip(1)
    } else {
        rem0
    }
}

/// An explicit-exponent remainder: `X^` followed by one or more digits
/// denoting a degree that fits an `i32`.
pub open spec fn xhat_ok(rem: Seq<char>) -> bool {
    rem.len() >= 3 && rem[0] == 'X' && rem[1] == '^' && all_digit_chars(rem.skip(2))
        && digits_val(rem.skip(2)) <= i32::MAX
}

/// A valid remainder: empty (degree 0), exactly `X` (degree 1), or
/// `X^<degree>`.
pub open spec fn rem_ok(rem: Seq<char>) -> bool {
    rem.len() == 0 || (rem.len() == 1 && rem[0] == 'X') || xhat_ok(rem)
}

/// The degree a valid remainder denotes.
pub open spec fn rem_deg(rem: Seq<char>) -> int {
    if rem.len() == 0 {
        0
    } else if rem.len() == 1 {
        1
    } else {
        digits_val(rem.skip(2))
    }
}

/// The degree of a valid token.
pub open spec fn term_deg(t: Seq<char>) -> int {
    rem_deg(term_rem(t))
}

/// Whether a token fails the up-front shape checks: it may not begin with
/// `*` and must end with a digit or `X`.
pub open spec fn term_edge_bad(t: Seq<char>) -> bool {
    t.len() > 0 && (t[0] == '*' || !(is_digit_char(t[t.len() - 1]) || t[t.len() - 1] == 'X'))
}

/// A well-formed token: empty, or passing the edge checks with a valid
/// remainder after the numeric run.
pub open spec fn token_ok(t: Seq<char>) -> bool {
    t.len() == 0 || (!term_edge_bad(t) && rem_ok(term_rem(t)))
}

/// The text a `MalformedTerm` failure for this token carries: the whole
/// token when an edge check fails, the remainder otherwise.
pub open spec fn term_err_payload(t: Seq<char>) -> Seq<char> {
    if term_edge_bad(t) {
        t
    } else {
        term_rem(t)
    }
}

/// Parses the degree remainder of a term: `X^<non-negative integer>`,
/// where the integer must consume the whole remainder and fit an `i32`.
pub fn parse_degree(degree: &String) -> (r: Result<i32, ParseError>)
    ensures
        r matches Ok(d) ==> xhat_ok(degree@) && d == rem_deg(degree@) && d >= 0,
        r is Ok <==> xhat_ok(degree@),
        r matches Err(e) ==> (e matches ParseError::MalformedTerm(s) && s@ == degree@),
{
    let v = chars_of(degree.as_str());
    let res = parse_degree_chars(&v);
    match res {
        Ok(d) => Ok(d),
        Err(_) => Err(ParseError::MalformedTerm(string_from_chars(&v))),
    }
}

/// Chars-level degree parser; the error carries no text (the caller knows
/// the input).
fn parse_degree_chars(rem: &Vec<char>) -> (r: Result<i32, ()>)
    ensures
        r matches Ok(d) ==> xhat_ok(rem@) && d == rem_deg(rem@) && d >= 0,
        r is Ok <==> xhat_ok(rem@),
{
    let n = rem.len();
    if n < 3 || rem[0] != 'X' || rem[1] != '^' {
        return Err(());
    }
    let mut acc: i64 = 0;
    let mut i: usize = 2;
    proof {
        assert(rem@.skip(2).take(0) =~= Seq::<char>::empty());
    }
    while i < n
        invariant
            2 <= i <= n,
            n == rem@.len(),
            n >= 3,
            all_digit_chars(rem@.skip(2).take(i - 2)),
            acc == digits_val(rem@.skip(2).take(i - 2)),
            0 <= acc <= i32::MAX,
        decreases n - i,
    {
        let c = rem[i];
        if !is_digit(c) {
            proof {
                assert(rem@.skip(2)[i - 2] == c);
                assert(!all_digit_chars(rem@.skip(2)));
            }
            return Err(());
        }
        let d = (c as u32) - 48;
        let next: i64 = acc * 10 + (d as i64);
        proof {
            let pre = rem@.skip(2).take(i - 2);
            assert(rem@.skip(2).take(i - 1) =~= pre.push(c));
            assert(pre.push(c).drop_last() =~= pre);
        }
        if next > 2147483647i64 {
            // the exponent does not fit an i32: the whole remainder is
            // rejected, as an unparsable integer
            proof {
                if all_digit_chars(rem@.skip(2)) {
                    lemma_digits_prefix_monotonic(rem@.skip(2), (i - 1) as int);
                }
            }
            return Err(());
        }
        acc = next;
        i = i + 1;
    }
    proof {
        assert(rem@.skip(2).take(n - 2) =~= rem@.skip(2));
    }
    Ok(acc as i32)
}

/// A digit string denotes at least as much as any of its prefixes; in
/// particular an over-large prefix makes the whole string over-large.
proof fn lemma_digits_prefix_monotonic(s: Seq<char>, k: int)
    requires
        0 <= k <= s.len(),
        all_digit_chars(s),
        digits_val(s.take(k)) > i32::MAX,
    ensures
        digits_val(s) > i32::MAX,
    decreases s.len() - k,
{
    if k < s.len() {
        let t = s.take(k + 1);
        assert(t.drop_last() =~= s.take(k));
        assert(is_digit_char(s[k]));
        assert(digits_val(t) == digits_val(s.take(k)) * 10 + digit_val(s[k]));
        lemma_digits_prefix_monotonic(s, k + 1);
    } else {
        assert(s.take(k) =~= s);
    }
}

/// As above, against the 128-bit bound.
proof fn lemma_digits_prefix_monotonic_128(s: Seq<char>, k: int)
    requires
        0 <= k <= s.len(),
        all_digit_chars(s),
        digits_val(s.take(k)) > i128::MAX,
    ensures
        digits_val(s) > i128::MAX,
    decreases s.len() - k,
{
    if k < s.len() {
        let t = s.take(k + 1);
        assert(t.drop_last() =~= s.take(k));
        assert(is_digit_char(s[k]));
        assert(digits_val(t) == digits_val(s.take(k)) * 10 + digit_val(s[k]));
        lemma_digits_prefix_monotonic_128(s, k + 1);
    } else {
        assert(s.take(k) =~= s);
    }
}

/// Appending `z` zero digits multiplies a digit string's value by `10^z`.
pub(crate) proof fn lemma_digits_append_zeros(s: Seq<char>, zs: Seq<char>)
    requires
        forall|i: int| 0 <= i < zs.len() ==> digit_val(#[trigger] zs[i]) == 0,
    ensures
        digits_val(s + zs) == digits_val(s) * pow10(zs.len() as nat),
    decreases zs.len(),
{
    if zs.len() == 0 {
        assert(s + zs =~= s);
        assert(pow10(0) == 1) by {
            vstd::arithmetic::power::lemma_pow0(10);
        }
    } else {
        let zs1 = zs.drop_last();
        assert(forall|i: int| 0 <= i < zs1.len() ==> (#[trigger] zs1[i]) == zs[i]);
        lemma_digits_append_zeros(s, zs1);
        assert((s + zs).drop_last() =~= s + zs1);
        assert(digit_val((s + zs).last()) == 0);
        assert(digits_val(s + zs) == digits_val(s + zs1) * 10);
        lemma_pow10_unfold(zs.len() as nat);
        assert(digits_val(s) * pow10(zs1.len() as nat) * 10 == digits_val(s) * pow10(
            zs.len() as nat,
        )) by (nonlinear_arith)
            requires
                pow10(zs.len() as nat) == 10 * pow10(zs1.len() as nat),
        ;
    }
}

/// A nonempty digit string's value ends in its last digit.
proof fn lemma_digits_last_mod(s: Seq<char>)
    requires
        all_digit_chars(s),
        s.len() > 0,
    ensures
        digits_val(s) % 10 == digit_val(s.last()),
{
    assert(is_digit_char(s.last()));
    vstd::arithmetic::div_mod::lemma_mod_multiples_vanish(
        digits_val(s.drop_last()),
        digit_val(s.last()),
        10,
    );
    vstd::arithmetic::div_mod::lemma_small_mod(digit_val(s.last()) as nat, 10);
}

/// Filtering changes nothing when every element already satisfies the
/// predicate (digit-run version).
pub(crate) proof fn lemma_filter_keeps_all<A>(s: Seq<A>, pred: spec_fn(A) -> bool)
    requires
        forall|i: int| 0 <= i < s.len() ==> pred(#[trigger] s[i]),
    ensures
        s.filter(pred) == s,
    decreases s.len(),
{
    reveal(Seq::filter);
    if s.len() == 0 {
        assert(s.filter(pred) =~= s);
    } else {
        assert(forall|i: int|
            0 <= i < s.drop_last().len() ==> pred(#[trigger] s.drop_last()[i]));
        lemma_filter_keeps_all(s.drop_last(), pred);
        assert(s.filter(pred) =~= s);
    }
}

/// Filtering a one-element sequence keeps or drops its element.
pub(crate) proof fn lemma_filter_singleton<A>(c: A, pred: spec_fn(A) -> bool)
    ensures
        seq![c].filter(pred) == if pred(c) {
            seq![c]
        } else {
            Seq::<A>::empty()
        },
{
    reveal(Seq::filter);
    assert(Seq::<A>::empty().filter(pred) =~= Seq::<A>::empty());
    assert(seq![c].drop_last() =~= Seq::<A>::empty());
    assert(seq![c].last() == c);
    if pred(c) {
        assert(seq![c].filter(pred) =~= Seq::<A>::empty().push(c));
        assert(Seq::<A>::empty().push(c) =~= seq![c]);
    }
}

/// Parses one unsigned token into its degree and canonical coefficient.
/// `Ok(None)` is the empty token, which contributes nothing.
pub fn parse_term_chars(tok: &Vec<char>) -> (r: Result<Option<(i32, Coef)>, ParseError>)
    ensures
        r matches Ok(None) <==> tok@.len() == 0,
        (r matches Err(e) && e matches ParseError::MalformedTerm(_)) <==> !token_ok(tok@),
        r matches Err(e) ==> (e matches ParseError::MalformedTerm(s) ==> s@ == term_err_payload(
            tok@,
        )),
        (r matches Err(e) && e matches ParseError::Overflow) <==> (token_ok(tok@) && tok@.len()
            > 0 && !dec_fits_i128(canon_dec(term_dec(tok@)))),
        r matches Ok(Some(dc)) ==> dc.0 == term_deg(tok@) && dc.0 >= 0 && dc.1.wf()
            && dc.1.dec() == canon_dec(term_dec(tok@)),
        r matches Ok(Some(dc)) <==> (tok@.len() > 0 && token_ok(tok@) && dec_fits_i128(
            canon_dec(term_dec(tok@)),
        )),
{
    let ghost t = tok@;
    let n = tok.len();
    if n == 0 {
        return Ok(None);
    }
    let last = tok[n - 1];
    if tok[0] == '*' || !(is_digit(last) || last == 'X') {
        return Err(ParseError::MalformedTerm(string_from_chars(tok)));
    }
    // scan the leading numeric run
    let mut i: usize = 0;
    let mut seen_dot = false;
    let mut dot_at: usize = 0;
    let mut has_digit = false;
    while i < n && (is_digit(tok[i]) || (tok[i] == '.' && !seen_dot))
        invariant
            t == tok@,
            n == t.len(),
            i <= n,
            run_end(t) == run_end_from(t, i as int, seen_dot),
            has_digit == run_has_digit(t.take(i as int)),
            seen_dot == exists|p: int| 0 <= p < i && (#[trigger] t[p]) == '.',
            seen_dot ==> dot_at < i && t[dot_at as int] == '.',
            forall|p: int| 0 <= p < i ==> (is_digit_char(#[trigger] t[p]) || (seen_dot && p
                == dot_at)),
        decreases n - i,
    {
        let c = tok[i];
        if is_digit(c) {
            has_digit = true;
        } else {
            seen_dot = true;
            dot_at = i;
        }
        i = i + 1;
        proof {
            assert(t.take(i as int) =~= t.take(i - 1).push(c));
            if is_digit_char(c) {
                assert(is_digit_char(t.take(i as int)[i - 1]));
            }
            assert forall|p: int| (0 <= p < i && (#[trigger] t[p]) == '.') implies (seen_dot)
                by {}
        }
    }
    proof {
        assert(run_end(t) == i);
    }
    let ghost run = t.take(i as int);
    // the remainder after the run, with one leading '*' stripped
    let mut rem_start: usize = i;
    if rem_start < n && tok[rem_start] == '*' {
        rem_start = rem_start + 1;
    }
    let mut rem: Vec<char> = Vec::new();
    let mut k: usize = rem_start;
    while k < n
        invariant
            t == tok@,
            rem_start <= k <= n == t.len(),
            rem@ == t.subrange(rem_start as int, k as int),
        decreases n - k,
    {
        rem.push(tok[k]);
        k = k + 1;
        proof {
            assert(t.subrange(rem_start as int, k as int) =~= t.subrange(
                rem_start as int,
                k - 1,
            ).push(t[k - 1]));
        }
    }
    proof {
        assert(rem@ =~= term_rem(t)) by {
            assert(t.skip(i as int) =~= t.subrange(i as int, n as int));
            if i < n && t[i as int] == '*' {
                assert(t.skip(i as int).skip(1) =~= t.subrange(i + 1, n as int));
            }
        }
    }
    let deg: i32;
    if rem.len() == 0 {
        deg = 0;
    } else if rem.len() == 1 && rem[0] == 'X' {
        deg = 1;
    } else {
        match parse_degree_chars(&rem) {
            Ok(d) => {
                deg = d;
            },
            Err(_) => {
                proof {
                    assert(!rem_ok(term_rem(t)));
                }
                return Err(ParseError::MalformedTerm(string_from_chars(&rem)));
            },
        }
    }
    // the grammar is now known good; materialize the exact coefficient
    let coef: Coef;
    if !has_digit {
        coef = Coef { num: 1, scale: 0 };
        proof {
            assert(term_dec(t) == DecVal { num: 1int, scale: 0nat });
            assert(canon_dec(term_dec(t)) == term_dec(t));
            assert(coef.dec() == canon_dec(term_dec(t)));
        }
    } else {
        // trim the trailing zeros of the fraction: they do not change the
        // value and keep the representation canonical
        let mut e: usize = i;
        if seen_dot {
            while e > dot_at + 1 && (tok[e - 1] as u32) == 48
                invariant
                    t == tok@,
                    dot_at + 1 <= e <= i,
                    i <= n == t.len(),
                    forall|p: int| e <= p < i ==> digit_val(#[trigger] t[p]) == 0,
                decreases e,
            {
                e = e - 1;
            }
        }
        let scale_usize: usize = if seen_dot {
            e - 1 - dot_at
        } else {
            0
        };
        // digit characters that make up the canonical numerator
        let ghost kept = t.take(e as int).filter(|c: char| is_digit_char(c));
        proof {
            lemma_run_parts(t, i as int, e as int, seen_dot, dot_at as int, scale_usize as int);
        }
        if scale_usize > 0xffff_ffffusize {
            return Err(ParseError::Overflow);
        }
        // accumulate the kept digits exactly
        let mut acc: i128 = 0;
        let mut j: usize = 0;
        proof {
            assert(t.take(0).filter(|c: char| is_digit_char(c)) =~= Seq::<char>::empty());
        }
        while j < e
            invariant
                t == tok@,
                j <= e <= i <= n == t.len(),
                t.len() > 0,
                token_ok(t),
                seen_dot ==> dot_at < i && t[dot_at as int] == '.',
                forall|p: int| 0 <= p < i ==> (is_digit_char(#[trigger] t[p]) || (seen_dot
                    && p == dot_at)),
                acc >= 0,
                acc == digits_val(t.take(j as int).filter(|c: char| is_digit_char(c))),
                kept == t.take(e as int).filter(|c: char| is_digit_char(c)),
                all_digit_chars(kept),
                digits_val(kept) > i128::MAX ==> !dec_fits_i128(canon_dec(term_dec(t))),
                digits_val(kept) <= i128::MAX && scale_usize <= u32::MAX ==> canon_dec(
                    term_dec(t),
                ) == (DecVal { num: digits_val(kept), scale: scale_usize as nat }),
            decreases e - j,
        {
            let c = tok[j];
            let ghost pre = t.take(j as int).filter(|c: char| is_digit_char(c));
            proof {
                Seq::filter_distributes_over_add(
                    t.take(j as int),
                    seq![c],
                    |c: char| is_digit_char(c),
                );
                assert(t.take(j as int) + seq![c] =~= t.take(j + 1));
                lemma_filter_singleton(c, |c: char| is_digit_char(c));
            }
            if is_digit(c) {
                proof {
                    assert(t.take(j + 1).filter(|c: char| is_digit_char(c)) =~= pre.push(c));
                    assert(pre.push(c).drop_last() =~= pre);
                    assert(pre.push(c).is_prefix_of(kept)) by {
                        lemma_filter_prefix(t, (j + 1) as int, e as int);
                    }
                }
                let d: i128 = ((c as u32) - 48) as i128;
                let shifted = match acc.checked_mul(10) {
                    Some(v) => v,
                    None => {
                        proof {
                            lemma_kept_overflow(kept, pre.push(c));
                            assert(digits_val(kept) > i128::MAX);
                            assert(!dec_fits_i128(canon_dec(term_dec(t))));
                            assert(token_ok(t));
                        }
                        return Err(ParseError::Overflow);
                    },
                };
                let next = match shifted.checked_add(d) {
                    Some(v) => v,
                    None => {
                        proof {
                            lemma_kept_overflow(kept, pre.push(c));
                            assert(digits_val(kept) > i128::MAX);
                            assert(!dec_fits_i128(canon_dec(term_dec(t))));
                            assert(token_ok(t));
                        }
                        return Err(ParseError::Overflow);
                    },
                };
                acc = next;
            } else {
                proof {
                    assert(t.take(j + 1).filter(|c: char| is_digit_char(c)) =~= pre);
                }
            }
            j = j + 1;
        }
        proof {
            assert(t.take(e as int).filter(|c: char| is_digit_char(c)) == kept);
        }
        coef = Coef { num: acc, scale: scale_usize as u32 };
    }
    proof {
        assert(token_ok(t));
        assert(deg == term_deg(t));
        lemma_canon_dec(term_dec(t));
        assert(coef.wf());
    }
    Ok(Some((deg, coef)))
}

/// A filtered prefix is a prefix of the filtered whole.
proof fn lemma_filter_prefix(t: Seq<char>, a: int, b: int)
    requires
        0 <= a <= b <= t.len(),
    ensures
        t.take(a).filter(|c: char| is_digit_char(c)).is_prefix_of(
            t.take(b).filter(|c: char| is_digit_char(c)),
        ),
{
    Seq::filter_distributes_over_add(
        t.take(a),
        t.subrange(a, b),
        |c: char| is_digit_char(c),
    );
    assert(t.take(a) + t.subrange(a, b) =~= t.take(b));
}

/// When an accumulated digit prefix already leaves the 128-bit range, the
/// canonical coefficient does not fit.
proof fn lemma_kept_overflow(kept: Seq<char>, pre: Seq<char>)
    requires
        all_digit_chars(kept),
        pre.is_prefix_of(kept),
        digits_val(pre) > i128::MAX,
        digits_val(kept) > i128::MAX ==> true,
    ensures
        digits_val(kept) > i128::MAX,
{
    assert(kept.take(pre.len() as int) =~= pre);
    lemma_digits_prefix_monotonic_128(kept, pre.len() as int);
}

/// Relates the trimmed digit accumulation to the canonical coefficient of
/// the token: the kept digits and the trimmed fraction length form the
/// canonical representation of the token's decimal.
proof fn lemma_run_parts(t: Seq<char>, i: int, e: int, seen_dot: bool, dot_at: int, ts: int)
    requires
        0 <= i <= t.len(),
        run_end(t) == i,
        run_has_digit(t.take(i)),
        seen_dot ==> 0 <= dot_at < i && t[dot_at] == '.' && dot_at + 1 <= e <= i,
        !seen_dot ==> e == i,
        seen_dot == exists|p: int| 0 <= p < i && (#[trigger] t[p]) == '.',
        forall|p: int| 0 <= p < i ==> (is_digit_char(#[trigger] t[p]) || (seen_dot && p
            == dot_at)),
        forall|p: int| e <= p < i ==> digit_val(#[trigger] t[p]) == 0,
        seen_dot ==> (e > dot_at + 1 ==> digit_val(t[e - 1]) != 0),
        ts == (if seen_dot {
            e - 1 - dot_at
        } else {
            0
        }),
    ensures
        all_digit_chars(t.take(e).filter(|c: char| is_digit_char(c))),
        ({
            let kept = t.take(e).filter(|c: char| is_digit_char(c));
            &&& (digits_val(kept) > i128::MAX ==> !dec_fits_i128(canon_dec(term_dec(t))))
            &&& (digits_val(kept) <= i128::MAX && ts <= u32::MAX ==> canon_dec(term_dec(t))
                == (DecVal { num: digits_val(kept), scale: ts as nat }))
            &&& (ts > u32::MAX ==> !dec_fits_i128(canon_dec(term_dec(t))))
        }),
{
    let fpred = |c: char| is_digit_char(c);
    let run = t.take(i);
    let kept = t.take(e).filter(fpred);
    broadcast use vstd::seq_lib::group_filter_ensures;

    assert(all_digit_chars(kept)) by {
        assert(forall|q: int|
            0 <= q < kept.len() ==> is_digit_char(#[trigger] kept[q]));
    }
    lemma_digits_val_nonneg(kept);
    // the digit characters of the run are the kept digits plus the trimmed
    // zeros
    let zs = t.subrange(e, i);
    assert(t.take(e) + zs =~= run);
    Seq::filter_distributes_over_add(t.take(e), zs, fpred);
    assert(forall|p: int| 0 <= p < zs.len() ==> digit_val(#[trigger] zs[p]) == 0);
    assert(forall|p: int| 0 <= p < zs.len() ==> is_digit_char(#[trigger] zs[p]));
    lemma_filter_keeps_all(zs, fpred);
    assert(run_digits(run) == kept + zs);
    lemma_digits_append_zeros(kept, zs);
    let z = zs.len() as nat;
    lemma_pow10_positive(z);
    assert(digits_val(run_digits(run)) == digits_val(kept) * pow10(z));
    // the fraction length of the run
    let fl = run_frac_len(run);
    if seen_dot {
        assert(run[dot_at] == '.');
        assert(exists|p: int| 0 <= p < run.len() && (#[trigger] run[p]) == '.');
        let p0 = choose|p: int| 0 <= p < run.len() && (#[trigger] run[p]) == '.';
        assert(p0 == dot_at);
        assert(fl == i - 1 - dot_at);
        assert(fl == ts + z);
    } else {
        assert(!(exists|p: int| 0 <= p < run.len() && (#[trigger] run[p]) == '.')) by {
            if exists|p: int| 0 <= p < run.len() && (#[trigger] run[p]) == '.' {
                let p0 = choose|p: int| 0 <= p < run.len() && (#[trigger] run[p]) == '.';
                assert(t[p0] == '.');
                assert(is_digit_char(t[p0]));
            }
        }
        assert(fl == 0);
        assert(z == 0);
        assert(fl == ts + z);
    }
    let raw = term_dec(t);
    assert(raw == DecVal { num: digits_val(run_digits(run)), scale: fl as nat });
    let tv = DecVal { num: digits_val(kept), scale: ts as nat };
    // tv is canonical
    assert(crate::coef::dec_wf(tv)) by {
        if ts > 0 {
            assert(seen_dot && e > dot_at + 1);
            assert(digit_val(t[e - 1]) != 0);
            assert(is_digit_char(t[e - 1]));
            assert(kept.len() > 0 && kept.last() == t[e - 1]) by {
                let before = t.take(e - 1).filter(fpred);
                Seq::filter_distributes_over_add(t.take(e - 1), seq![t[e - 1]], fpred);
                assert(t.take(e - 1) + seq![t[e - 1]] =~= t.take(e));
                lemma_filter_singleton(t[e - 1], fpred);
                assert(kept =~= before.push(t[e - 1]));
            }
            lemma_digits_last_mod(kept);
            assert(digit_val(kept.last()) != 0);
        }
    }
    // tv has the same value as the raw decimal
    assert(cross_eq(tv, raw)) by {
        lemma_pow10_positive(ts as nat);
        crate::coef::lemma_pow10_adds(ts as nat, z);
        assert(tv.num * pow10(raw.scale) == raw.num * pow10(tv.scale)) by (nonlinear_arith)
            requires
                raw.num == tv.num * pow10(z),
                pow10(raw.scale) == pow10(tv.scale) * pow10(z),
                raw.scale == tv.scale + z,
                pow10((tv.scale + z) as nat) == pow10(tv.scale) * pow10(z),
        ;
    }
    lemma_canon_dec(raw);
    crate::coef::lemma_cross_eq_trans(canon_dec(raw), raw, tv);
    crate::coef::lemma_dec_unique(canon_dec(raw), tv);
    assert(canon_dec(raw) == tv);
}

/// The signed tokens of a side, scanned left to right: the text is cut at
/// every sign, and each token carries the sign standing before it (with an
/// implicit leading `+`). `cur` is the token being gathered.
pub open spec fn side_tokens_acc(s: Seq<char>, neg: bool, cur: Seq<char>) -> Seq<
    (bool, Seq<char>),
>
    decreases s.len(),
{
    if s.len() == 0 {
        seq![(neg, cur)]
    } else if is_sign_char(s[0]) {
        seq![(neg, cur)] + side_tokens_acc(s.skip(1), s[0] == '-', Seq::empty())
    } else {
        side_tokens_acc(s.skip(1), neg, cur.push(s[0]))
    }
}

/// The signed tokens of a whole side.
pub open spec fn side_tokens(s: Seq<char>) -> Seq<(bool, Seq<char>)> {
    side_tokens_acc(s, false, Seq::empty())
}

/// Outcome of evaluating a side, or one step of it.
pub enum SideOut {
    /// A token failed the grammar; carries the offending text.
    Malformed(Seq<char>),
    /// An exact value left the 128-bit decimal representation.
    TooBig,
    /// The accumulated degree-to-coefficient map, every value canonical.
    Done(Map<int, DecVal>),
}

/// The decimal a map holds at `d` (zero when absent).
pub open spec fn map_get(m: Map<int, DecVal>, d: int) -> DecVal {
    if m.dom().contains(d) {
        m[d]
    } else {
        DecVal { num: 0, scale: 0 }
    }
}

/// One signed token applied to the accumulated map: an empty token
/// contributes nothing; a malformed one fails; otherwise its canonical
/// coefficient is added to (or subtracted from) the entry at its degree.
pub open spec fn token_step(m: Map<int, DecVal>, neg: bool, t: Seq<char>) -> SideOut {
    if t.len() == 0 {
        SideOut::Done(m)
    } else if !token_ok(t) {
        SideOut::Malformed(term_err_payload(t))
    } else {
        let tv = canon_dec(term_dec(t));
        if !dec_fits_i128(tv) {
            SideOut::TooBig
        } else {
            let d = term_deg(t);
            let cur = map_get(m, d);
            if !crate::coef::fits_int(cur, tv, neg) {
                SideOut::TooBig
            } else {
                SideOut::Done(m.insert(d, canon_dec(crate::coef::dec_combine(cur, tv, neg))))
            }
        }
    }
}

/// All signed tokens applied in order, stopping at the first failure.
pub open spec fn side_eval(toks: Seq<(bool, Seq<char>)>, m: Map<int, DecVal>) -> SideOut
    decreases toks.len(),
{
    if toks.len() == 0 {
        SideOut::Done(m)
    } else {
        match token_step(m, toks[0].0, toks[0].1) {
            SideOut::Done(m2) => side_eval(toks.skip(1), m2),
            out => out,
        }
    }
}

/// What a whole side denotes: its signed tokens evaluated from the empty
/// map.
pub open spec fn side_result(s: Seq<char>) -> SideOut {
    side_eval(side_tokens(s), Map::empty())
}

/// The polynomial realizes the accumulated map: the same explicit degrees,
/// and at every degree the map's canonical decimal (zero when absent).
pub open spec fn poly_matches(p: crate::polynomial::Polynomial, m: Map<int, DecVal>) -> bool {
    &&& forall|d: int|
        #![trigger crate::polynomial::spec_has(p.terms@, d)]
        crate::polynomial::spec_has(p.terms@, d) == m.dom().contains(d)
    &&& forall|d: int|
        #![trigger crate::polynomial::spec_coef_at(p.terms@, d)]
        crate::polynomial::spec_coef_at(p.terms@, d).dec() == map_get(m, d)
}

/// Applies one signed token to the polynomial under construction. The
/// ghost map mirrors the polynomial and advances by one interpreter step.
fn apply_token(
    poly: &mut crate::polynomial::Polynomial,
    neg: bool,
    tok: &Vec<char>,
    m: Ghost<Map<int, DecVal>>,
) -> (r: (Result<(), ParseError>, Ghost<Map<int, DecVal>>))
    requires
        old(poly).wf(),
        poly_matches(*old(poly), m@),
    ensures
        final(poly).wf(),
        r.0 is Ok <==> token_step(m@, neg, tok@) is Done,
        r.0 is Ok ==> token_step(m@, neg, tok@) == SideOut::Done(r.1@) && poly_matches(
            *final(poly),
            r.1@,
        ),
        r.0 matches Err(e) ==> match e {
            ParseError::MalformedTerm(s) => token_step(m@, neg, tok@) == SideOut::Malformed(
                s@,
            ),
            ParseError::Overflow => token_step(m@, neg, tok@) == SideOut::TooBig,
            _ => false,
        },
{
    match parse_term_chars(tok) {
        Ok(None) => (Ok(()), m),
        Ok(Some((d, c))) => {
            let ghost cur = crate::polynomial::spec_coef_at(poly.terms@, d as int);
            proof {
                crate::polynomial::lemma_coef_at_wf(poly.terms@, d as int);
                crate::coef::lemma_fits_bridge(cur, c, neg);
            }
            let ok = if neg {
                poly.sub_term(d, c)
            } else {
                poly.add_term(d, c)
            };
            if ok {
                let ghost m2 = m@.insert(
                    d as int,
                    canon_dec(crate::coef::dec_combine(map_get(m@, d as int), c.dec(), neg)),
                );
                proof {
                    let nc = crate::polynomial::spec_coef_at(poly.terms@, d as int);
                    crate::polynomial::lemma_coef_at_wf(poly.terms@, d as int);
                    crate::coef::lemma_combine_bridge(cur, c, nc, neg);
                    lemma_coef_is_canon(nc, crate::coef::dec_combine(cur.dec(), c.dec(), neg));
                    assert(token_step(m@, neg, tok@) == SideOut::Done(m2));
                    assert forall|dd: int|
                        #![trigger crate::polynomial::spec_coef_at(poly.terms@, dd)]
                        crate::polynomial::spec_coef_at(poly.terms@, dd).dec() == map_get(
                        m2,
                        dd,
                    ) by {
                        if dd != d {
                            assert(crate::polynomial::spec_coef_at(poly.terms@, dd)
                                == crate::polynomial::spec_coef_at(old(poly).terms@, dd));
                        }
                    }
                }
                (Ok(()), Ghost(m2))
            } else {
                (Err(ParseError::Overflow), m)
            }
        },
        Err(e) => {
            proof {
                if !token_ok(tok@) {
                    assert(tok@.len() > 0);
                }
            }
            (Err(e), m)
        },
    }
}

/// Parses one normalized side into its polynomial: the side is scanned
/// into signed tokens and each token's exact contribution is accumulated.
pub fn parse_side_chars(side: &Vec<char>) -> (r: Result<crate::polynomial::Polynomial, ParseError>)
    ensures
        side@.len() == 0 <==> r matches Err(ParseError::EmptySide),
        r matches Ok(p) ==> p.wf() && (side_result(side@) matches SideOut::Done(m)
            && poly_matches(p, m)),
        r matches Err(e) ==> match e {
            ParseError::EmptySide => side@.len() == 0,
            ParseError::MalformedTerm(s) => side_result(side@) == SideOut::Malformed(s@),
            ParseError::Overflow => side_result(side@) == SideOut::TooBig,
            _ => false,
        },
        side@.len() > 0 ==> (r is Ok <==> side_result(side@) is Done),
{
    let ghost s = side@;
    if side.len() == 0 {
        return Err(ParseError::EmptySide);
    }
    let mut poly = crate::polynomial::Polynomial::new();
    let mut m: Ghost<Map<int, DecVal>> = Ghost(Map::empty());
    let mut neg = false;
    let mut cur: Vec<char> = Vec::new();
    let mut i: usize = 0;
    proof {
        assert(s.skip(0) =~= s);
        assert(poly_matches(poly, m@)) by {
            assert(forall|d: int|
                !crate::polynomial::spec_has(poly.terms@, d) && !m@.dom().contains(d));
            assert forall|d: int|
                #![trigger crate::polynomial::spec_coef_at(poly.terms@, d)]
                crate::polynomial::spec_coef_at(poly.terms@, d).dec() == map_get(m@, d) by {
                crate::polynomial::lemma_coef_at_absent(poly.terms@, d);
            }
        }
    }
    while i < side.len()
        invariant
            s == side@,
            i <= s.len(),
            poly.wf(),
            poly_matches(poly, m@),
            side_result(s) == side_eval(side_tokens_acc(s.skip(i as int), neg, cur@), m@),
        decreases s.len() - i,
    {
        let c = side[i];
        proof {
            assert(s.skip(i as int)[0] == c);
            assert(s.skip(i as int).skip(1) =~= s.skip(i + 1));
        }
        if is_sign(c) {
            let ghost suffix_toks = side_tokens_acc(s.skip(i as int), neg, cur@);
            let ghost rest_toks = side_tokens_acc(s.skip(i + 1), c == '-', Seq::empty());
            proof {
                assert(suffix_toks == seq![(neg, cur@)] + rest_toks);
                assert(suffix_toks[0] == (neg, cur@));
                assert(suffix_toks.skip(1) =~= rest_toks);
            }
            let (res, m2) = apply_token(&mut poly, neg, &cur, m);
            match res {
                Ok(()) => {
                    proof {
                        assert(side_eval(suffix_toks, m@) == side_eval(rest_toks, m2@));
                    }
                    m = m2;
                },
                Err(e) => {
                    proof {
                        match e {
                            ParseError::MalformedTerm(ref sp) => {
                                assert(side_eval(suffix_toks, m@) == SideOut::Malformed(sp@));
                            },
                            ParseError::Overflow => {
                                assert(side_eval(suffix_toks, m@) == SideOut::TooBig);
                            },
                            _ => {
                                assert(false);
                            },
                        }
                    }
                    return Err(e);
                },
            }
            neg = c == '-';
            cur.clear();
        } else {
            proof {
                assert(side_tokens_acc(s.skip(i as int), neg, cur@) == side_tokens_acc(
                    s.skip(i + 1),
                    neg,
                    cur@.push(c),
                ));
            }
            cur.push(c);
        }
        i = i + 1;
    }
    // the final token runs to the end of the side
    let ghost suffix_toks = side_tokens_acc(s.skip(i as int), neg, cur@);
    proof {
        assert(s.skip(i as int) =~= Seq::<char>::empty());
        assert(suffix_toks == seq![(neg, cur@)]);
        assert(suffix_toks[0] == (neg, cur@));
        assert(suffix_toks.skip(1) =~= Seq::<(bool, Seq<char>)>::empty());
    }
    let (res, m2) = apply_token(&mut poly, neg, &cur, m);
    match res {
        Ok(()) => {
            proof {
                assert(side_eval(suffix_toks.skip(1), m2@) == SideOut::Done(m2@));
                assert(side_eval(suffix_toks, m@) == SideOut::Done(m2@));
            }
            Ok(poly)
        },
        Err(e) => {
            proof {
                match e {
                    ParseError::MalformedTerm(ref sp) => {
                        assert(side_eval(suffix_toks, m@) == SideOut::Malformed(sp@));
                    },
                    ParseError::Overflow => {
                        assert(side_eval(suffix_toks, m@) == SideOut::TooBig);
                    },
                    _ => {
                        assert(false);
                    },
                }
            }
            Err(e)
        },
    }
}

/// Parses one side of an equation (the text between `=` signs), already
/// normalized.
pub fn parse_equation(eq: &str) -> (r: Result<crate::polynomial::Polynomial, ParseError>)
    ensures
        eq@.len() == 0 <==> r matches Err(ParseError::EmptySide),
        r matches Ok(p) ==> p.wf() && (side_result(eq@) matches SideOut::Done(m)
            && poly_matches(p, m)),
        r matches Err(e) ==> match e {
            ParseError::EmptySide => eq@.len() == 0,
            ParseError::MalformedTerm(s) => side_result(eq@) == SideOut::Malformed(s@),
            ParseError::Overflow => side_result(eq@) == SideOut::TooBig,
            _ => false,
        },
        eq@.len() > 0 ==> (r is Ok <==> side_result(eq@) is Done),
{
    let v = chars_of(eq);
    parse_side_chars(&v)
}

/// One token's exact (unbounded) contribution to the accumulated map.
pub open spec fn step_pure(m: Map<int, DecVal>, tok: (bool, Seq<char>)) -> Map<int, DecVal> {
    if tok.1.len() == 0 {
        m
    } else {
        let tv = canon_dec(term_dec(tok.1));
        let d = term_deg(tok.1);
        m.insert(d, canon_dec(crate::coef::dec_combine(map_get(m, d), tv, tok.0)))
    }
}

/// The exact accumulation of all signed tokens, free of machine limits.
pub open spec fn accum_pure(toks: Seq<(bool, Seq<char>)>, m: Map<int, DecVal>) -> Map<
    int,
    DecVal,
>
    decreases toks.len(),
{
    if toks.len() == 0 {
        m
    } else {
        accum_pure(toks.skip(1), step_pure(m, toks[0]))
    }
}

/// When a side evaluates without failure, its result is exactly the pure
/// accumulation of its tokens.
pub proof fn lemma_side_eval_is_pure(toks: Seq<(bool, Seq<char>)>, m: Map<int, DecVal>)
    requires
        side_eval(toks, m) is Done,
    ensures
        side_eval(toks, m) == SideOut::Done(accum_pure(toks, m)),
    decreases toks.len(),
{
    if toks.len() > 0 {
        match token_step(m, toks[0].0, toks[0].1) {
            SideOut::Done(m2) => {
                assert(m2 == step_pure(m, toks[0]));
                lemma_side_eval_is_pure(toks.skip(1), m2);
            },
            _ => {
                assert(false);
            },
        }
    }
}

/// Two successive token contributions commute.
proof fn lemma_step_pure_commutes(
    m: Map<int, DecVal>,
    x: (bool, Seq<char>),
    y: (bool, Seq<char>),
)
    ensures
        step_pure(step_pure(m, x), y) == step_pure(step_pure(m, y), x),
{
    if x.1.len() == 0 || y.1.len() == 0 {
    } else {
        let dx = term_deg(x.1);
        let dy = term_deg(y.1);
        let vx = canon_dec(term_dec(x.1));
        let vy = canon_dec(term_dec(y.1));
        if dx != dy {
            let m1 = step_pure(step_pure(m, x), y);
            let m2 = step_pure(step_pure(m, y), x);
            assert(map_get(step_pure(m, x), dy) == map_get(m, dy));
            assert(map_get(step_pure(m, y), dx) == map_get(m, dx));
            assert(m1 =~= m2);
        } else {
            let g = map_get(m, dx);
            let c1 = canon_dec(crate::coef::dec_combine(g, vx, x.0));
            let c2 = canon_dec(crate::coef::dec_combine(g, vy, y.0));
            let n1 = canon_dec(crate::coef::dec_combine(c1, vy, y.0));
            let n2 = canon_dec(crate::coef::dec_combine(c2, vx, x.0));
            assert(map_get(step_pure(m, x), dx) == c1);
            assert(map_get(step_pure(m, y), dy) == c2);
            crate::coef::lemma_canon_dec(crate::coef::dec_combine(g, vx, x.0));
            crate::coef::lemma_canon_dec(crate::coef::dec_combine(g, vy, y.0));
            crate::coef::lemma_canon_dec(crate::coef::dec_combine(c1, vy, y.0));
            crate::coef::lemma_canon_dec(crate::coef::dec_combine(c2, vx, x.0));
            // both orders denote the same rational, and both are canonical
            crate::coef::lemma_combine_respects_left(
                c1,
                crate::coef::dec_combine(g, vx, x.0),
                vy,
                y.0,
            );
            crate::coef::lemma_combine_swap(g, vx, x.0, vy, y.0);
            crate::coef::lemma_combine_respects_left(
                c2,
                crate::coef::dec_combine(g, vy, y.0),
                vx,
                x.0,
            );
            crate::coef::lemma_cross_eq_trans(
                n1,
                crate::coef::dec_combine(c1, vy, y.0),
                crate::coef::dec_combine(
                    crate::coef::dec_combine(g, vx, x.0),
                    vy,
                    y.0,
                ),
            );
            crate::coef::lemma_cross_eq_trans(
                n2,
                crate::coef::dec_combine(c2, vx, x.0),
                crate::coef::dec_combine(
                    crate::coef::dec_combine(g, vy, y.0),
                    vx,
                    x.0,
                ),
            );
            assert(crate::coef::cross_eq(
                n1,
                crate::coef::dec_combine(crate::coef::dec_combine(g, vy, y.0), vx, x.0),
            ));
            crate::coef::lemma_cross_eq_trans(
                n1,
                crate::coef::dec_combine(crate::coef::dec_combine(g, vy, y.0), vx, x.0),
                n2,
            );
            crate::coef::lemma_dec_unique(n1, n2);
            assert(step_pure(step_pure(m, x), y) =~= step_pure(step_pure(m, y), x));
        }
    }
}

/// Accumulating token `j` first, then the rest in order, yields the same
/// map.
proof fn lemma_accum_pure_remove(toks: Seq<(bool, Seq<char>)>, j: int, m: Map<int, DecVal>)
    requires
        0 <= j < toks.len(),
    ensures
        accum_pure(toks, m) == accum_pure(toks.remove(j), step_pure(m, toks[j])),
    decreases j,
{
    if j == 0 {
        assert(toks.remove(0) =~= toks.skip(1));
    } else {
        lemma_accum_pure_remove(toks.skip(1), j - 1, step_pure(m, toks[0]));
        lemma_step_pure_commutes(m, toks[0], toks[j]);
        assert(toks.skip(1)[j - 1] == toks[j]);
        assert(toks.remove(j).skip(1) =~= toks.skip(1).remove(j - 1));
        assert(toks.remove(j)[0] == toks[0]);
        assert(accum_pure(toks.remove(j), step_pure(m, toks[j])) == accum_pure(
            toks.skip(1).remove(j - 1),
            step_pure(step_pure(m, toks[j]), toks[0]),
        ));
    }
}

/// Reduction is order-independent: permuting the signed terms of a side
/// leaves the accumulated polynomial map unchanged.
pub proof fn lemma_accum_pure_permutation(
    t1: Seq<(bool, Seq<char>)>,
    t2: Seq<(bool, Seq<char>)>,
    m: Map<int, DecVal>,
)
    requires
        t1.to_multiset() == t2.to_multiset(),
    ensures
        accum_pure(t1, m) == accum_pure(t2, m),
    decreases t1.len(),
{
    t1.to_multiset_ensures();
    t2.to_multiset_ensures();
    if t1.len() == 0 {
        assert(t2.len() == 0);
    } else {
        let x = t1[0];
        assert(t1.contains(x));
        assert(t2.to_multiset().count(x) > 0);
        assert(t2.contains(x));
        let j = choose|j: int| 0 <= j < t2.len() && t2[j] == x;
        lemma_accum_pure_remove(t2, j, m);
        assert(t1.skip(1) =~= t1.remove(0));
        assert(t1.remove(0).to_multiset() =~= t1.to_multiset().remove(x));
        assert(t2.remove(j).to_multiset() =~= t2.to_multiset().remove(x));
        lemma_accum_pure_permutation(t1.skip(1), t2.remove(j), step_pure(m, x));
    }
}

/// The number of `=` characters in a sequence.
pub open spec fn eq_count(s: Seq<char>) -> int {
    s.filter(|c: char| c == '=').len() as int
}

/// The position of the `=` splitting the equation (meaningful when there
/// is exactly one; the length when there is none).
pub open spec fn eq_pos(s: Seq<char>) -> int {
    if exists|p: int| 0 <= p < s.len() && (#[trigger] s[p]) == '=' {
        choose|p: int| 0 <= p < s.len() && (#[trigger] s[p]) == '='
    } else {
        s.len() as int
    }
}

/// Two distinct `=` positions force a count of at least two.
proof fn lemma_two_equals(s: Seq<char>, p1: int, p2: int)
    requires
        0 <= p1 < p2 < s.len(),
        s[p1] == '=',
        s[p2] == '=',
    ensures
        eq_count(s) >= 2,
{
    let pred = |c: char| c == '=';
    let a = s.take(p1);
    let b = seq![s[p1]];
    let c = s.subrange(p1 + 1, p2);
    let d = seq![s[p2]];
    let e = s.skip(p2 + 1);
    assert(s =~= a + b + c + d + e);
    Seq::filter_distributes_over_add(a + b + c + d, e, pred);
    Seq::filter_distributes_over_add(a + b + c, d, pred);
    Seq::filter_distributes_over_add(a + b, c, pred);
    Seq::filter_distributes_over_add(a, b, pred);
    lemma_filter_singleton(s[p1], pred);
    lemma_filter_singleton(s[p2], pred);
    broadcast use vstd::seq_lib::group_filter_ensures;

    assert(s.filter(pred).len() == a.filter(pred).len() + 1 + c.filter(pred).len() + 1
        + e.filter(pred).len());
}

/// The result's explicit degrees are the union of the two sides', and
/// every coefficient is the canonical exact difference `left - right`.
pub open spec fn poly_is_diff_of(
    q: crate::polynomial::Polynomial,
    ml: Map<int, DecVal>,
    mr: Map<int, DecVal>,
) -> bool {
    &&& forall|d: int|
        #![trigger crate::polynomial::spec_has(q.terms@, d)]
        crate::polynomial::spec_has(q.terms@, d) == (ml.dom().contains(d) || mr.dom().contains(
            d,
        ))
    &&& forall|d: int|
        #![trigger crate::polynomial::spec_coef_at(q.terms@, d)]
        crate::polynomial::spec_coef_at(q.terms@, d).dec() == canon_dec(
            crate::coef::dec_combine(map_get(ml, d), map_get(mr, d), true),
        )
}

/// The machine limit under which the degree-wise difference of the two
/// sides can be computed in 128 bits.
pub open spec fn sub_fits(ml: Map<int, DecVal>, mr: Map<int, DecVal>) -> bool {
    forall|d: int|
        #[trigger] mr.dom().contains(d) ==> crate::coef::fits_int(map_get(ml, d), mr[d], true)
}

/// Parses a whole polynomial equation: the input is normalized, split at
/// its single `=`, each side parsed, and the right side subtracted from
/// the left, yielding the canonical polynomial equal to zero.
pub fn parse_polynomial(input: &String) -> (r: Result<crate::polynomial::Polynomial, ParseError>)
    ensures
        ({
            let n = crate::string_utils::normalize_spec(input@);
            let p = eq_pos(n);
            let l = n.take(p);
            let rt = n.skip(p + 1);
            &&& (r matches Err(ParseError::MissingEquals) <==> eq_count(n) == 0)
            &&& (r matches Err(ParseError::MultipleEquals) <==> eq_count(n) >= 2)
            &&& (eq_count(n) == 1 ==> match r {
                Ok(q) => q.wf() && l.len() > 0 && rt.len() > 0 && (side_result(l)
                    matches SideOut::Done(ml) && side_result(rt) matches SideOut::Done(mr)
                    && sub_fits(ml, mr) && poly_is_diff_of(q, ml, mr)),
                Err(ParseError::EmptySide) => l.len() == 0 || (side_result(l) is Done
                    && rt.len() == 0),
                Err(ParseError::MalformedTerm(s)) => (l.len() > 0 && side_result(l)
                    == SideOut::Malformed(s@)) || (side_result(l) is Done && rt.len() > 0
                    && side_result(rt) == SideOut::Malformed(s@)),
                Err(ParseError::Overflow) => (l.len() > 0 && side_result(l) == SideOut::TooBig)
                    || (side_result(l) is Done && rt.len() > 0 && side_result(rt)
                    == SideOut::TooBig) || (side_result(l) matches SideOut::Done(ml)
                    && side_result(rt) matches SideOut::Done(mr) && !sub_fits(ml, mr)),
                _ => false,
            })
        }),
{
    let v0 = chars_of(input.as_str());
    let v1 = crate::string_utils::strip_space_chars(&v0);
    let nv = crate::string_utils::collapse_sign_chars(&v1);
    let ghost n = nv@;
    proof {
        assert(n == crate::string_utils::normalize_spec(input@));
    }
    // count the '=' characters, remembering the first
    let mut cnt: usize = 0;
    let mut first: usize = 0;
    let mut i: usize = 0;
    let ghost pred = |c: char| c == '=';
    proof {
        assert(n.take(0).filter(pred) =~= Seq::<char>::empty());
    }
    while i < nv.len()
        invariant
            n == nv@,
            i <= n.len(),
            cnt == n.take(i as int).filter(pred).len(),
            pred == (|c: char| c == '='),
            cnt > 0 ==> first < i && n[first as int] == '=' && (forall|p: int|
                0 <= p < first ==> (#[trigger] n[p]) != '='),
            cnt == 0 ==> forall|p: int| 0 <= p < i ==> (#[trigger] n[p]) != '=',
        decreases n.len() - i,
    {
        let c = nv[i];
        proof {
            Seq::filter_distributes_over_add(n.take(i as int), seq![c], pred);
            assert(n.take(i as int) + seq![c] =~= n.take(i + 1));
            lemma_filter_singleton(c, pred);
        }
        if c == '=' {
            if cnt == 0 {
                first = i;
            }
            cnt = cnt + 1;
        }
        i = i + 1;
    }
    proof {
        assert(n.take(n.len() as int) =~= n);
    }
    if cnt == 0 {
        proof {
            assert(!(exists|p: int| 0 <= p < n.len() && (#[trigger] n[p]) == '=')) by {
                if exists|p: int| 0 <= p < n.len() && (#[trigger] n[p]) == '=' {
                    let p = choose|p: int| 0 <= p < n.len() && (#[trigger] n[p]) == '=';
                }
            }
        }
        return Err(ParseError::MissingEquals);
    }
    if cnt >= 2 {
        return Err(ParseError::MultipleEquals);
    }
    // exactly one '=': it is the split point
    proof {
        assert(exists|p: int| 0 <= p < n.len() && (#[trigger] n[p]) == '=');
        let p0 = choose|p: int| 0 <= p < n.len() && (#[trigger] n[p]) == '=';
        if p0 != first {
            if p0 < first {
                lemma_two_equals(n, p0, first as int);
            } else {
                lemma_two_equals(n, first as int, p0);
            }
            assert(false);
        }
        assert(eq_pos(n) == first);
    }
    let mut left: Vec<char> = Vec::new();
    let mut j: usize = 0;
    while j < first
        invariant
            n == nv@,
            first < n.len(),
            j <= first,
            left@ == n.take(first as int).take(j as int),
        decreases first - j,
    {
        left.push(nv[j]);
        j = j + 1;
        proof {
            assert(n.take(first as int).take(j as int) =~= n.take(first as int).take(
                j - 1,
            ).push(n[j - 1]));
        }
    }
    proof {
        assert(left@ =~= n.take(first as int));
    }
    let mut right: Vec<char> = Vec::new();
    let mut k: usize = first + 1;
    while k < nv.len()
        invariant
            n == nv@,
            first + 1 <= k <= n.len(),
            right@ == n.subrange(first + 1, k as int),
        decreases n.len() - k,
    {
        right.push(nv[k]);
        k = k + 1;
        proof {
            assert(n.subrange(first + 1, k as int) =~= n.subrange(first + 1, k - 1).push(
                n[k - 1],
            ));
        }
    }
    proof {
        assert(right@ =~= n.skip(first + 1));
    }
    let pl = match parse_side_chars(&left) {
        Ok(p) => p,
        Err(e) => {
            return Err(e);
        },
    };
    let pr = match parse_side_chars(&right) {
        Ok(p) => p,
        Err(e) => {
            return Err(e);
        },
    };
    let ghost ml = (choose|m: Map<int, DecVal>| side_result(left@) == SideOut::Done(m));
    let ghost mr = (choose|m: Map<int, DecVal>| side_result(right@) == SideOut::Done(m));
    proof {
        assert(side_result(left@) == SideOut::Done(ml));
        assert(side_result(right@) == SideOut::Done(mr));
        assert(poly_matches(pl, ml));
        assert(poly_matches(pr, mr));
    }
    match pl.sub(&pr) {
        Some(q) => {
            proof {
                lemma_sub_result(pl, pr, q, ml, mr);
            }
            Ok(q)
        },
        None => {
            proof {
                assert(!sub_fits(ml, mr)) by {
                    let i0 = choose|i: int|
                        0 <= i < pr.terms@.len() && !Coef::combine_fits(
                            crate::polynomial::spec_coef_at(
                                pl.terms@,
                                (#[trigger] pr.terms@[i]).0 as int,
                            ),
                            pr.terms@[i].1,
                            true,
                        );
                    let d = pr.terms@[i0].0 as int;
                    crate::polynomial::lemma_coef_at_sorted(pr.terms@, i0);
                    crate::coef::lemma_fits_bridge(
                        crate::polynomial::spec_coef_at(pl.terms@, d),
                        pr.terms@[i0].1,
                        true,
                    );
                    assert(mr.dom().contains(d));
                    assert(!crate::coef::fits_int(map_get(ml, d), mr[d], true));
                }
            }
            Err(ParseError::Overflow)
        },
    }
}

/// When the exec subtraction succeeds, its result realizes the canonical
/// degree-wise difference of the two accumulated maps, and the difference
/// fits.
proof fn lemma_sub_result(
    pl: crate::polynomial::Polynomial,
    pr: crate::polynomial::Polynomial,
    q: crate::polynomial::Polynomial,
    ml: Map<int, DecVal>,
    mr: Map<int, DecVal>,
)
    requires
        pl.wf(),
        pr.wf(),
        q.wf(),
        poly_matches(pl, ml),
        poly_matches(pr, mr),
        forall|i: int|
            0 <= i < pr.terms@.len() ==> Coef::combine_fits(
                crate::polynomial::spec_coef_at(pl.terms@, (#[trigger] pr.terms@[i]).0 as int),
                pr.terms@[i].1,
                true,
            ),
        forall|d: int|
            crate::polynomial::spec_has(q.terms@, d) == (crate::polynomial::spec_has(
                pl.terms@,
                d,
            ) || crate::polynomial::spec_has(pr.terms@, d)),
        forall|d: int|
            Coef::is_diff(
                crate::polynomial::spec_coef_at(pl.terms@, d),
                crate::polynomial::spec_coef_at(pr.terms@, d),
                #[trigger] crate::polynomial::spec_coef_at(q.terms@, d),
            ),
    ensures
        sub_fits(ml, mr),
        poly_is_diff_of(q, ml, mr),
{
    assert forall|d: int| #[trigger]
        mr.dom().contains(d) implies crate::coef::fits_int(map_get(ml, d), mr[d], true) by {
        assert(crate::polynomial::spec_has(pr.terms@, d));
        let i = choose|i: int|
            0 <= i < pr.terms@.len() && (#[trigger] pr.terms@[i]).0 == d;
        crate::polynomial::lemma_coef_at_sorted(pr.terms@, i);
        crate::coef::lemma_fits_bridge(
            crate::polynomial::spec_coef_at(pl.terms@, d),
            pr.terms@[i].1,
            true,
        );
    }
    assert forall|d: int|
        #![trigger crate::polynomial::spec_coef_at(q.terms@, d)]
        crate::polynomial::spec_coef_at(q.terms@, d).dec() == canon_dec(
        crate::coef::dec_combine(map_get(ml, d), map_get(mr, d), true),
    ) by {
        let cl = crate::polynomial::spec_coef_at(pl.terms@, d);
        let cr = crate::polynomial::spec_coef_at(pr.terms@, d);
        let cq = crate::polynomial::spec_coef_at(q.terms@, d);
        crate::polynomial::lemma_coef_at_wf(q.terms@, d);
        crate::coef::lemma_combine_bridge(cl, cr, cq, true);
        lemma_coef_is_canon(cq, crate::coef::dec_combine(cl.dec(), cr.dec(), true));
    }
}

/// Parses one unsigned token into a polynomial holding its single
/// contribution (or no entry for the empty token).
pub fn parse_term(term: &str) -> (r: Result<crate::polynomial::Polynomial, ParseError>)
    ensures
        r matches Ok(p) ==> p.wf() && (if term@.len() == 0 {
            p.terms@.len() == 0
        } else {
            p.terms@.len() == 1 && p.terms@[0].0 == term_deg(term@) && p.terms@[0].1.dec()
                == canon_dec(term_dec(term@))
        }),
        r is Ok <==> token_ok(term@) && (term@.len() == 0 || dec_fits_i128(
            canon_dec(term_dec(term@)),
        )),
        (r matches Err(e) && e matches ParseError::MalformedTerm(_)) <==> !token_ok(term@),
        r matches Err(e) ==> (e matches ParseError::MalformedTerm(s) ==> s@ == term_err_payload(
            term@,
        )),
{
    let v = chars_of(term);
    match parse_term_chars(&v) {
        Ok(None) => Ok(crate::polynomial::Polynomial::new()),
        Ok(Some((d, c))) => {
            let mut terms: Vec<(i32, Coef)> = Vec::new();
            terms.push((d, c));
            Ok(crate::polynomial::Polynomial { terms })
        },
        Err(e) => Err(e),
    }
}

} // verus!
