//! The round trip on the canonical form: parsing the printed reduced form
//! of a polynomial yields the same polynomial. The proof follows the
//! pipeline: the rendered text normalizes to a predictable shape, scans
//! into one signed token per term, and each token contributes back exactly
//! its term's coefficient.

use vstd::prelude::*;
use crate::chars::{is_digit_char, is_sign_char, is_space_char};
use crate::coef::{Coef, DecVal, canon_dec, dec_combine, pow10};
use crate::parse::{
    side_tokens_acc,
    side_tokens,
    side_eval,
    side_result,
    token_step,
    SideOut,
    map_get,
    sub_fits,
    eq_count,
    eq_pos,
    term_dec,
    term_deg,
    token_ok,
    digits_val,
};
use crate::polynomial::{Polynomial, spec_has, spec_coef_at, seq_sorted};
use crate::render::{render_spec, render_desc, term_chars, coef_mag, unsigned_term};
use crate::string_utils::{
    strip_spaces,
    collapse_signs,
    normalize_spec,
    no_adjacent_signs,
    lemma_collapse_append,
    lemma_collapse_identity,
    lemma_filter_all,
};

verus! {

/// Whether a term's coefficient is negative (its sign in the rendering).
pub open spec fn t_neg(t: (i32, Coef)) -> bool {
    t.1.num < 0
}

/// The rendered terms after whitespace removal: each term after the first
/// is preceded by a bare `+`.
pub open spec fn pre_tail(s: Seq<(i32, Coef)>) -> Seq<char>
    decreases s.len(),
{
    if s.len() == 0 {
        Seq::empty()
    } else {
        seq!['+'] + term_chars(s.last().0, s.last().1) + pre_tail(s.drop_last())
    }
}

/// The whole rendered term list after whitespace removal.
pub open spec fn pre_desc(s: Seq<(i32, Coef)>) -> Seq<char> {
    if s.len() == 0 {
        Seq::empty()
    } else {
        term_chars(s.last().0, s.last().1) + pre_tail(s.drop_last())
    }
}

/// The normalized term list: every term carries exactly one sign (the
/// join `+` merged with a negative coefficient's `-`), except a leading
/// non-negative term, which carries none.
pub open spec fn norm_tail(s: Seq<(i32, Coef)>) -> Seq<char>
    decreases s.len(),
{
    if s.len() == 0 {
        Seq::empty()
    } else {
        seq![
            if t_neg(s.last()) {
                '-'
            } else {
                '+'
            },
        ] + unsigned_term(s.last().0, s.last().1) + norm_tail(s.drop_last())
    }
}

/// The whole normalized left side.
pub open spec fn norm_desc(s: Seq<(i32, Coef)>) -> Seq<char> {
    if s.len() == 0 {
        Seq::empty()
    } else {
        (if t_neg(s.last()) {
            seq!['-']
        } else {
            Seq::empty()
        }) + unsigned_term(s.last().0, s.last().1) + norm_tail(s.drop_last())
    }
}

/// Well-formed renderable terms: canonical coefficients above the minimum
/// numerator, non-negative degrees.
pub open spec fn renderable(s: Seq<(i32, Coef)>) -> bool {
    forall|i: int|
        0 <= i < s.len() ==> (#[trigger] s[i]).1.wf() && s[i].1.num > i128::MIN && s[i].0 >= 0
}

/// The text of one term has no whitespace and no `=`; its unsigned part
/// has no sign either, and it begins and ends outside the sign characters.
proof fn lemma_term_chars_facts(deg: i32, c: Coef)
    requires
        deg >= 0,
        c.wf(),
        c.num > i128::MIN,
    ensures
        ({
            let t = term_chars(deg, c);
            let u = unsigned_term(deg, c);
            &&& t =~= (if c.num < 0 {
                seq!['-']
            } else {
                Seq::<char>::empty()
            }) + u
            &&& t.len() > 0
            &&& u.len() > 0
            &&& forall|p: int|
                0 <= p < t.len() ==> !is_space_char(#[trigger] t[p]) && t[p] != '='
            &&& forall|p: int| 0 <= p < u.len() ==> !is_sign_char(#[trigger] u[p])
            &&& !is_sign_char(t.last())
            &&& no_adjacent_signs(t)
            &&& (c.num >= 0 ==> no_adjacent_signs(seq!['+'] + t))
            &&& no_adjacent_signs(seq!['-'] + u)
        }),
{
    crate::render::lemma_unsigned_term_parses(deg, c);
    let t = term_chars(deg, c);
    let u = unsigned_term(deg, c);
    assert(t =~= (if c.num < 0 {
        seq!['-']
    } else {
        Seq::<char>::empty()
    }) + u);
    assert(t.last() == u.last());
    assert forall|p: int|
        0 <= p < t.len() implies !is_space_char(#[trigger] t[p]) && t[p] != '=' by {
        if c.num < 0 {
            if p > 0 {
                assert(t[p] == u[p - 1]);
            }
        } else {
            assert(t[p] == u[p]);
        }
    }
    assert forall|p: int|
        0 <= p && p + 1 < t.len() implies !(is_sign_char(#[trigger] t[p]) && is_sign_char(
        t[p + 1],
    )) by {
        if c.num < 0 {
            if p > 0 {
                assert(t[p] == u[p - 1]);
            } else {
                assert(t[1] == u[0]);
            }
        } else {
            assert(t[p] == u[p]);
        }
    }
    let pt = seq!['+'] + t;
    if c.num >= 0 {
        assert forall|p: int|
            0 <= p && p + 1 < pt.len() implies !(is_sign_char(#[trigger] pt[p])
            && is_sign_char(pt[p + 1])) by {
            if p == 0 {
                assert(pt[1] == u[0]);
            } else {
                assert(pt[p] == t[p - 1] && pt[p + 1] == t[p]);
            }
        }
    }
    if c.num < 0 {
        // for the normalized form the pair is already merged to '-'
        let mu = seq!['-'] + u;
        assert forall|p: int|
            0 <= p && p + 1 < mu.len() implies !(is_sign_char(#[trigger] mu[p])
            && is_sign_char(mu[p + 1])) by {
            if p == 0 {
                assert(mu[1] == u[0]);
            } else {
                assert(mu[p] == u[p - 1] && mu[p + 1] == u[p]);
            }
        }
    } else {
        let mu = seq!['-'] + u;
        assert forall|p: int|
            0 <= p && p + 1 < mu.len() implies !(is_sign_char(#[trigger] mu[p])
            && is_sign_char(mu[p + 1])) by {
            if p == 0 {
                assert(mu[1] == u[0]);
            } else {
                assert(mu[p] == u[p - 1] && mu[p + 1] == u[p]);
            }
        }
    }
}

/// The text of one term carries no whitespace, so stripping keeps it.
proof fn lemma_strip_term(deg: i32, c: Coef)
    requires
        deg >= 0,
        c.wf(),
        c.num > i128::MIN,
    ensures
        strip_spaces(term_chars(deg, c)) == term_chars(deg, c),
{
    lemma_term_chars_facts(deg, c);
    lemma_filter_all(term_chars(deg, c), |ch: char| !is_space_char(ch));
}

/// Stripping the ` + ` joiner leaves the bare `+`.
proof fn lemma_strip_sep()
    ensures
        strip_spaces(seq![' ', '+', ' ']) == seq!['+'],
{
    let pred = |ch: char| !is_space_char(ch);
    crate::parse::lemma_filter_singleton(' ', pred);
    crate::parse::lemma_filter_singleton('+', pred);
    Seq::filter_distributes_over_add(seq![' '] + seq!['+'], seq![' '], pred);
    Seq::filter_distributes_over_add(seq![' '], seq!['+'], pred);
    assert(seq![' ', '+', ' '] =~= (seq![' '] + seq!['+']) + seq![' ']);
    assert(strip_spaces(seq![' ', '+', ' ']) =~= seq!['+']);
}

/// Stripping the closing ` = 0` leaves `=0`.
proof fn lemma_strip_eq_tail()
    ensures
        strip_spaces(seq![' ', '=', ' ', '0']) == seq!['=', '0'],
{
    let pred = |ch: char| !is_space_char(ch);
    crate::parse::lemma_filter_singleton(' ', pred);
    crate::parse::lemma_filter_singleton('=', pred);
    crate::parse::lemma_filter_singleton('0', pred);
    Seq::filter_distributes_over_add(((seq![' '] + seq!['=']) + seq![' ']), seq!['0'], pred);
    Seq::filter_distributes_over_add(seq![' '] + seq!['='], seq![' '], pred);
    Seq::filter_distributes_over_add(seq![' '], seq!['='], pred);
    assert(seq![' ', '=', ' ', '0'] =~= ((seq![' '] + seq!['=']) + seq![' ']) + seq!['0']);
    assert(strip_spaces(seq![' ', '=', ' ', '0']) =~= seq!['=', '0']);
}

/// Whitespace removal turns the rendered term list into the `+`-joined
/// plain form.
proof fn lemma_strip_render(s: Seq<(i32, Coef)>)
    requires
        renderable(s),
    ensures
        strip_spaces(render_desc(s)) == pre_desc(s),
    decreases s.len(),
{
    let pred = |ch: char| !is_space_char(ch);
    if s.len() == 0 {
        assert(render_desc(s).filter(pred) =~= Seq::<char>::empty()) by {
            lemma_filter_all(render_desc(s), pred);
        }
    } else if s.len() == 1 {
        lemma_strip_term(s[0].0, s[0].1);
        assert(pre_tail(s.drop_last()) =~= Seq::<char>::empty());
        assert(pre_desc(s) =~= term_chars(s[0].0, s[0].1));
    } else {
        let top = s.last();
        let rest = s.drop_last();
        assert(renderable(rest)) by {
            assert(forall|i: int| 0 <= i < rest.len() ==> (#[trigger] rest[i]) == s[i]);
        }
        lemma_strip_render(rest);
        lemma_strip_term(top.0, top.1);
        lemma_strip_sep();
        let t = term_chars(top.0, top.1);
        let sep = seq![' ', '+', ' '];
        assert(render_desc(s) =~= t + (sep + render_desc(rest)));
        Seq::filter_distributes_over_add(t, sep + render_desc(rest), pred);
        Seq::filter_distributes_over_add(sep, render_desc(rest), pred);
        assert(strip_spaces(render_desc(s)) == t.filter(pred) + (sep.filter(pred)
            + render_desc(rest).filter(pred)));
        assert(pre_tail(rest) =~= seq!['+'] + pre_desc(rest));
        assert(pre_desc(s) =~= t + (seq!['+'] + pre_desc(rest)));
        assert(strip_spaces(render_desc(s)) =~= pre_desc(s));
    }
}

/// Collapsing the joined tail yields the single-sign tail.
proof fn lemma_collapse_tail(s: Seq<(i32, Coef)>)
    requires
        renderable(s),
    ensures
        collapse_signs(pre_tail(s)) == norm_tail(s),
    decreases s.len(),
{
    if s.len() == 0 {
        assert(collapse_signs(pre_tail(s)) =~= Seq::<char>::empty());
        assert(pre_tail(s) =~= Seq::<char>::empty());
    } else {
        let top = s.last();
        let rest = s.drop_last();
        assert(forall|i: int| 0 <= i < rest.len() ==> (#[trigger] rest[i]) == s[i]);
        lemma_collapse_tail(rest);
        lemma_term_chars_facts(top.0, top.1);
        let t = term_chars(top.0, top.1);
        let u = unsigned_term(top.0, top.1);
        let pt = seq!['+'] + t;
        assert(pre_tail(s) =~= pt + pre_tail(rest));
        assert(pt.len() > 0 && !is_sign_char(pt.last()));
        lemma_collapse_append(pt, pre_tail(rest));
        if t_neg(top) {
            // the leading "+-" pair merges to '-'
            let mu = seq!['-'] + u;
            assert(pt =~= seq!['+', '-'] + u);
            assert(pt.len() >= 2 && is_sign_char(pt[0]) && is_sign_char(pt[1]));
            assert(seq![crate::string_utils::combine_signs(pt[0], pt[1])] + pt.skip(2)
                =~= mu);
            assert(collapse_signs(pt) == collapse_signs(mu));
            lemma_collapse_identity(mu);
            assert(norm_tail(s) =~= mu + norm_tail(rest));
        } else {
            lemma_collapse_identity(pt);
            assert(t =~= u);
            assert(norm_tail(s) =~= pt + norm_tail(rest));
        }
    }
}

/// Collapsing the whole joined term list yields the normalized left side.
proof fn lemma_collapse_desc(s: Seq<(i32, Coef)>)
    requires
        renderable(s),
        s.len() > 0,
    ensures
        collapse_signs(pre_desc(s)) == norm_desc(s),
{
    let top = s.last();
    let rest = s.drop_last();
    assert(forall|i: int| 0 <= i < rest.len() ==> (#[trigger] rest[i]) == s[i]);
    lemma_collapse_tail(rest);
    lemma_term_chars_facts(top.0, top.1);
    let t = term_chars(top.0, top.1);
    let u = unsigned_term(top.0, top.1);
    assert(pre_desc(s) =~= t + pre_tail(rest));
    assert(t.len() > 0 && !is_sign_char(t.last()));
    lemma_collapse_append(t, pre_tail(rest));
    lemma_collapse_identity(t);
    if t_neg(top) {
        assert(t =~= seq!['-'] + u);
        assert(norm_desc(s) =~= t + norm_tail(rest));
    } else {
        assert(t =~= u);
        assert(norm_desc(s) =~= t + norm_tail(rest));
    }
}

/// Normalizing the full rendered equation yields the normalized left side,
/// one `=`, and the single `0` of the right side.
proof fn lemma_normalize_render(s: Seq<(i32, Coef)>)
    requires
        renderable(s),
        s.len() > 0,
    ensures
        normalize_spec(render_spec(s)) == norm_desc(s) + seq!['=', '0'],
{
    let pred = |ch: char| !is_space_char(ch);
    let tailp = seq![' ', '=', ' ', '0'];
    assert(render_spec(s) =~= render_desc(s) + tailp);
    Seq::filter_distributes_over_add(render_desc(s), tailp, pred);
    lemma_strip_render(s);
    lemma_strip_eq_tail();
    assert(strip_spaces(render_spec(s)) =~= pre_desc(s) + seq!['=', '0']);
    // collapse: no merge crosses the boundary before '='
    lemma_pre_desc_last(s);
    lemma_collapse_append(pre_desc(s), seq!['=', '0']);
    lemma_collapse_desc(s);
    assert(collapse_signs(seq!['=', '0']) =~= seq!['=', '0']) by {
        lemma_collapse_identity(seq!['=', '0']);
    }
    assert(normalize_spec(render_spec(s)) =~= norm_desc(s) + seq!['=', '0']);
}

/// The joined term list is nonempty and ends with the last character of
/// its first term's text, which is not a sign.
proof fn lemma_pre_desc_last(s: Seq<(i32, Coef)>)
    requires
        renderable(s),
        s.len() > 0,
    ensures
        pre_desc(s).len() > 0,
        !is_sign_char(pre_desc(s).last()),
    decreases s.len(),
{
    let top = s.last();
    let rest = s.drop_last();
    assert(forall|i: int| 0 <= i < rest.len() ==> (#[trigger] rest[i]) == s[i]);
    lemma_term_chars_facts(top.0, top.1);
    if rest.len() == 0 {
        assert(pre_tail(rest) =~= Seq::<char>::empty());
        assert(pre_desc(s).last() == term_chars(top.0, top.1).last());
    } else {
        lemma_pre_tail_last(rest);
        assert(pre_desc(s).last() == pre_tail(rest).last());
    }
}

proof fn lemma_pre_tail_last(s: Seq<(i32, Coef)>)
    requires
        renderable(s),
        s.len() > 0,
    ensures
        pre_tail(s).len() > 0,
        !is_sign_char(pre_tail(s).last()),
    decreases s.len(),
{
    let top = s.last();
    let rest = s.drop_last();
    assert(forall|i: int| 0 <= i < rest.len() ==> (#[trigger] rest[i]) == s[i]);
    lemma_term_chars_facts(top.0, top.1);
    if rest.len() == 0 {
        assert(pre_tail(rest) =~= Seq::<char>::empty());
        assert(pre_tail(s).last() == term_chars(top.0, top.1).last());
    } else {
        lemma_pre_tail_last(rest);
        assert(pre_tail(s).last() == pre_tail(rest).last());
    }
}

/// Scanning a sign-free stretch gathers it into the current token.
proof fn lemma_scan_segment(d: Seq<char>, rest: Seq<char>, neg: bool, cur: Seq<char>)
    requires
        forall|p: int| 0 <= p < d.len() ==> !is_sign_char(#[trigger] d[p]),
    ensures
        side_tokens_acc(d + rest, neg, cur) == side_tokens_acc(rest, neg, cur + d),
    decreases d.len(),
{
    if d.len() == 0 {
        assert(d + rest =~= rest);
        assert(cur + d =~= cur);
    } else {
        let dr = d + rest;
        assert(dr[0] == d[0]);
        assert(dr.skip(1) =~= d.skip(1) + rest);
        assert(forall|p: int|
            0 <= p < d.skip(1).len() ==> !is_sign_char(#[trigger] d.skip(1)[p]));
        lemma_scan_segment(d.skip(1), rest, neg, cur.push(d[0]));
        assert(cur.push(d[0]) + d.skip(1) =~= cur + d);
    }
}

/// The signed tokens of the normalized left side: one per term, in
/// rendering (descending) order.
pub open spec fn toks_tail(s: Seq<(i32, Coef)>) -> Seq<(bool, Seq<char>)>
    decreases s.len(),
{
    if s.len() == 0 {
        Seq::empty()
    } else {
        seq![(t_neg(s.last()), unsigned_term(s.last().0, s.last().1))] + toks_tail(
            s.drop_last(),
        )
    }
}

/// Scanning the normalized tail produces the pending token and then one
/// token per term.
proof fn lemma_scan_tail(s: Seq<(i32, Coef)>, neg: bool, cur: Seq<char>)
    requires
        renderable(s),
    ensures
        side_tokens_acc(norm_tail(s), neg, cur) == seq![(neg, cur)] + toks_tail(s),
    decreases s.len(),
{
    if s.len() == 0 {
        assert(norm_tail(s) =~= Seq::<char>::empty());
        assert(side_tokens_acc(norm_tail(s), neg, cur) =~= seq![(neg, cur)]);
        assert(seq![(neg, cur)] + toks_tail(s) =~= seq![(neg, cur)]);
    } else {
        let top = s.last();
        let rest = s.drop_last();
        assert(forall|i: int| 0 <= i < rest.len() ==> (#[trigger] rest[i]) == s[i]);
        lemma_term_chars_facts(top.0, top.1);
        let u = unsigned_term(top.0, top.1);
        let sc = if t_neg(top) {
            '-'
        } else {
            '+'
        };
        let nt = norm_tail(s);
        assert(nt =~= seq![sc] + (u + norm_tail(rest)));
        assert(nt[0] == sc && is_sign_char(sc));
        assert(nt.skip(1) =~= u + norm_tail(rest));
        assert(side_tokens_acc(nt, neg, cur) == seq![(neg, cur)] + side_tokens_acc(
            u + norm_tail(rest),
            sc == '-',
            Seq::empty(),
        ));
        lemma_scan_segment(u, norm_tail(rest), sc == '-', Seq::empty());
        assert(Seq::<char>::empty() + u =~= u);
        lemma_scan_tail(rest, sc == '-', u);
        assert((sc == '-') == t_neg(top));
        assert(seq![(neg, cur)] + (seq![(t_neg(top), u)] + toks_tail(rest)) =~= seq![
            (neg, cur),
        ] + toks_tail(s));
    }
}

/// Scanning the whole normalized left side yields one signed token per
/// term (preceded by an empty token when the first term is negative).
proof fn lemma_scan_desc(s: Seq<(i32, Coef)>)
    requires
        renderable(s),
        s.len() > 0,
    ensures
        side_tokens(norm_desc(s)) == (if t_neg(s.last()) {
            seq![(false, Seq::<char>::empty())]
        } else {
            Seq::<(bool, Seq<char>)>::empty()
        }) + toks_tail(s),
{
    let top = s.last();
    let rest = s.drop_last();
    assert(forall|i: int| 0 <= i < rest.len() ==> (#[trigger] rest[i]) == s[i]);
    lemma_term_chars_facts(top.0, top.1);
    let u = unsigned_term(top.0, top.1);
    let nd = norm_desc(s);
    if t_neg(top) {
        assert(nd =~= seq!['-'] + (u + norm_tail(rest)));
        assert(nd[0] == '-');
        assert(nd.skip(1) =~= u + norm_tail(rest));
        assert(side_tokens(nd) == seq![(false, Seq::<char>::empty())] + side_tokens_acc(
            u + norm_tail(rest),
            true,
            Seq::empty(),
        ));
        lemma_scan_segment(u, norm_tail(rest), true, Seq::empty());
        assert(Seq::<char>::empty() + u =~= u);
        lemma_scan_tail(rest, true, u);
        assert(seq![(false, Seq::<char>::empty())] + (seq![(true, u)] + toks_tail(rest))
            =~= seq![(false, Seq::<char>::empty())] + toks_tail(s));
    } else {
        assert(nd =~= u + norm_tail(rest));
        lemma_scan_segment(u, norm_tail(rest), false, Seq::empty());
        assert(Seq::<char>::empty() + u =~= u);
        lemma_scan_tail(rest, false, u);
        assert(seq![(false, u)] + toks_tail(rest) =~= toks_tail(s));
        assert(Seq::<(bool, Seq<char>)>::empty() + toks_tail(s) =~= toks_tail(s));
    }
}

/// A well-formed token with known degree and canonical coefficient steps
/// the map by inserting its signed coefficient at its degree.
proof fn lemma_token_step_known(
    m: Map<int, DecVal>,
    neg: bool,
    t: Seq<char>,
    tv: DecVal,
    d: int,
    cnum: int,
)
    requires
        t.len() > 0,
        token_ok(t),
        canon_dec(term_dec(t)) == tv,
        term_deg(t) == d,
        0 <= tv.num <= i128::MAX,
        tv.scale <= u32::MAX,
        cnum == (if neg {
            -tv.num
        } else {
            tv.num
        }),
        crate::coef::dec_wf(DecVal { num: cnum, scale: tv.scale }),
        !m.dom().contains(d),
    ensures
        token_step(m, neg, t) == SideOut::Done(m.insert(d, DecVal { num: cnum, scale: tv.scale })),
{
    assert(crate::coef::dec_fits_i128(tv));
    let cur = map_get(m, d);
    assert(cur == DecVal { num: 0, scale: 0 });
    crate::coef::lemma_pow10_positive(tv.scale);
    assert(pow10(0) == 1) by {
        vstd::arithmetic::power::lemma_pow0(10);
    }
    vstd::arithmetic::mul::lemma_mul_by_zero_is_zero(pow10(tv.scale));
    assert(crate::coef::fits_int(cur, tv, neg)) by {
        if tv.num != 0 {
            assert(cur.num * pow10((tv.scale - 0) as nat) == 0);
            assert(tv.num * pow10(0) == tv.num);
        }
    }
    let combined = dec_combine(cur, tv, neg);
    assert(combined == DecVal { num: cnum, scale: tv.scale }) by {
        assert(combined.num == 0 * pow10(tv.scale) + (if neg {
            -tv.num
        } else {
            tv.num
        }) * pow10(0));
        assert((if neg {
            -tv.num
        } else {
            tv.num
        }) * pow10(0) == cnum);
    }
    assert(canon_dec(combined) == combined) by {
        crate::coef::lemma_canon_dec(combined);
        crate::coef::lemma_dec_unique(canon_dec(combined), combined);
    }
}

/// One rendered term applied to a map without its degree inserts exactly
/// its coefficient.
proof fn lemma_token_step_fresh(m: Map<int, DecVal>, deg: i32, c: Coef)
    requires
        deg >= 0,
        c.wf(),
        c.num > i128::MIN,
        !m.dom().contains(deg as int),
    ensures
        token_step(m, c.num < 0, unsigned_term(deg, c)) == SideOut::Done(
            m.insert(deg as int, c.dec()),
        ),
{
    crate::render::lemma_unsigned_term_parses(deg, c);
    let u = unsigned_term(deg, c);
    let tv = DecVal { num: coef_mag(c), scale: c.scale as nat };
    crate::coef::lemma_wf_bridge(c);
    lemma_token_step_known(m, c.num < 0, u, tv, deg as int, c.num as int);
    assert(DecVal { num: c.num as int, scale: tv.scale } == c.dec());
}

/// The accumulated map of the rendered tokens: each term's coefficient at
/// its degree, over the starting map.
pub open spec fn tail_map(s: Seq<(i32, Coef)>, m0: Map<int, DecVal>) -> Map<int, DecVal>
    decreases s.len(),
{
    if s.len() == 0 {
        m0
    } else {
        tail_map(s.drop_last(), m0.insert(s.last().0 as int, s.last().1.dec()))
    }
}

/// The accumulated map holds exactly the starting entries and one entry
/// per term.
proof fn lemma_tail_map_props(s: Seq<(i32, Coef)>, m0: Map<int, DecVal>)
    requires
        seq_sorted(s),
    ensures
        forall|d: int|
            #[trigger] tail_map(s, m0).dom().contains(d) == (m0.dom().contains(d) || spec_has(
                s,
                d,
            )),
        forall|i: int|
            0 <= i < s.len() ==> tail_map(s, m0)[(#[trigger] s[i]).0 as int] == s[i].1.dec(),
        forall|d: int|
            m0.dom().contains(d) && !spec_has(s, d) ==> tail_map(s, m0)[d] == m0[d],
    decreases s.len(),
{
    if s.len() > 0 {
        let top = s.last();
        let rest = s.drop_last();
        assert(forall|i: int| 0 <= i < rest.len() ==> (#[trigger] rest[i]) == s[i]);
        let m1 = m0.insert(top.0 as int, top.1.dec());
        lemma_tail_map_props(rest, m1);
        assert forall|d: int| #[trigger]
            tail_map(s, m0).dom().contains(d) == (m0.dom().contains(d) || spec_has(
            s,
            d,
        )) by {
            assert(tail_map(s, m0) == tail_map(rest, m1));
            if spec_has(s, d) && !spec_has(rest, d) {
                let i = choose|i: int| 0 <= i < s.len() && (#[trigger] s[i]).0 == d;
                if i < s.len() - 1 {
                    assert(rest[i].0 == d);
                    assert(spec_has(rest, d));
                } else {
                    assert(d == top.0 as int);
                }
            }
            if spec_has(rest, d) {
                let i = choose|i: int| 0 <= i < rest.len() && (#[trigger] rest[i]).0 == d;
                assert(s[i].0 == d);
                assert(spec_has(s, d));
            }
            if d == top.0 as int {
                assert(s[s.len() - 1].0 == d);
                assert(spec_has(s, d));
            }
        }
        assert forall|i: int|
            0 <= i < s.len() implies tail_map(s, m0)[(#[trigger] s[i]).0 as int] == s[i].1.dec()
            by {
            assert(tail_map(s, m0) == tail_map(rest, m1));
            if i < s.len() - 1 {
                assert(rest[i] == s[i]);
                assert(tail_map(rest, m1)[rest[i].0 as int] == rest[i].1.dec());
            } else {
                // the top entry survives: no later (smaller-degree) term
                // shares its degree
                assert(!spec_has(rest, top.0 as int)) by {
                    if spec_has(rest, top.0 as int) {
                        let j = choose|j: int|
                            0 <= j < rest.len() && (#[trigger] rest[j]).0 == top.0;
                        assert(s[j].0 < s[s.len() - 1].0);
                    }
                }
                assert(m1.dom().contains(top.0 as int));
                assert(tail_map(rest, m1)[top.0 as int] == m1[top.0 as int]);
            }
        }
        assert forall|d: int|
            m0.dom().contains(d) && !spec_has(s, d) implies tail_map(s, m0)[d] == m0[d] by {
            assert(tail_map(s, m0) == tail_map(rest, m1));
            assert(!spec_has(rest, d)) by {
                if spec_has(rest, d) {
                    let j = choose|j: int| 0 <= j < rest.len() && (#[trigger] rest[j]).0 == d;
                    assert(s[j].0 == d);
                }
            }
            assert(d != top.0 as int) by {
                if d == top.0 as int {
                    assert(s[s.len() - 1].0 == d);
                }
            }
            assert(m1.dom().contains(d) && m1[d] == m0[d]);
            assert(tail_map(rest, m1)[d] == m1[d]);
        }
    }
}

/// Evaluating the rendered tokens from a map holding none of the degrees
/// accumulates exactly the terms' coefficients.
proof fn lemma_eval_tokens(s: Seq<(i32, Coef)>, m0: Map<int, DecVal>)
    requires
        renderable(s),
        seq_sorted(s),
        forall|i: int| 0 <= i < s.len() ==> !m0.dom().contains((#[trigger] s[i]).0 as int),
    ensures
        side_eval(toks_tail(s), m0) == SideOut::Done(tail_map(s, m0)),
    decreases s.len(),
{
    if s.len() == 0 {
        assert(toks_tail(s) =~= Seq::<(bool, Seq<char>)>::empty());
    } else {
        let top = s.last();
        let rest = s.drop_last();
        assert(forall|i: int| 0 <= i < rest.len() ==> (#[trigger] rest[i]) == s[i]);
        assert(renderable(rest));
        assert(seq_sorted(rest)) by {
            assert(forall|i: int, j: int|
                0 <= i < j < rest.len() ==> (#[trigger] rest[i]).0 < (#[trigger] rest[j]).0);
        }
        lemma_token_step_fresh(m0, top.0, top.1);
        let m1 = m0.insert(top.0 as int, top.1.dec());
        let tk = toks_tail(s);
        assert(tk[0] == (t_neg(top), unsigned_term(top.0, top.1)));
        assert(tk.skip(1) =~= toks_tail(rest));
        assert(t_neg(top) == (top.1.num < 0));
        assert forall|i: int|
            0 <= i < rest.len() implies !m1.dom().contains((#[trigger] rest[i]).0 as int) by {
            assert(rest[i].0 < top.0);
        }
        lemma_eval_tokens(rest, m1);
        assert(token_step(m0, tk[0].0, tk[0].1) == SideOut::Done(m1));
        assert(side_eval(tk.skip(1), m1) == SideOut::Done(tail_map(rest, m1)));
        assert(tail_map(s, m0) == tail_map(rest, m1));
    }
}

/// The single token of the right side `0` accumulates a zero coefficient
/// at degree zero.
proof fn lemma_right_side_zero()
    ensures
        side_result(seq!['0']) == SideOut::Done(
            Map::<int, DecVal>::empty().insert(0, DecVal { num: 0, scale: 0 }),
        ),
{
    let z = seq!['0'];
    assert(!is_sign_char('0'));
    assert(side_tokens(z) =~= seq![(false, z)]) by {
        assert(z.skip(1) =~= Seq::<char>::empty());
        assert(side_tokens_acc(z, false, Seq::empty()) == side_tokens_acc(
            Seq::<char>::empty(),
            false,
            Seq::<char>::empty().push('0'),
        ));
        assert(Seq::<char>::empty().push('0') =~= z);
    }
    // the token "0" is a plain zero constant
    assert(is_digit_char('0'));
    assert(crate::parse::run_end_from(z, 0, false) == crate::parse::run_end_from(z, 1, false));
    assert(crate::parse::run_end(z) == 1);
    let run = z.take(1);
    assert(run =~= z);
    assert(crate::parse::run_has_digit(run));
    lemma_filter_all(run, |ch: char| is_digit_char(ch));
    assert(crate::parse::run_digits(run) == run);
    assert(digits_val(run) == 0) by {
        assert(run.drop_last() =~= Seq::<char>::empty());
        assert(digits_val(Seq::<char>::empty()) == 0);
        assert(run.last() == '0');
    }
    assert(crate::parse::run_frac_len(run) == 0) by {
        assert(!(exists|p: int| 0 <= p < run.len() && (#[trigger] run[p]) == '.')) by {
            if exists|p: int| 0 <= p < run.len() && (#[trigger] run[p]) == '.' {
                let p = choose|p: int| 0 <= p < run.len() && (#[trigger] run[p]) == '.';
                assert(run[p] == '0');
            }
        }
    }
    assert(term_dec(z) == DecVal { num: 0, scale: 0 });
    assert(canon_dec(term_dec(z)) == DecVal { num: 0, scale: 0 });
    let rem = crate::parse::term_rem(z);
    assert(rem =~= Seq::<char>::empty()) by {
        assert(z.skip(1) =~= Seq::<char>::empty());
    }
    assert(token_ok(z));
    assert(term_deg(z) == 0);
    let m0 = Map::<int, DecVal>::empty();
    let tv = DecVal { num: 0, scale: 0 };
    assert(crate::coef::fits_int(map_get(m0, 0), tv, false));
    assert(crate::coef::dec_fits_i128(tv));
    assert(pow10(0) == 1) by {
        vstd::arithmetic::power::lemma_pow0(10);
    }
    let combined = dec_combine(map_get(m0, 0), tv, false);
    assert(combined == tv);
    assert(canon_dec(combined) == tv);
    assert(token_step(m0, false, z) == SideOut::Done(m0.insert(0, tv)));
    assert(side_eval(side_tokens(z), m0) == SideOut::Done(m0.insert(0, tv))) by {
        assert(side_tokens(z)[0] == (false, z));
        assert(side_tokens(z).skip(1) =~= Seq::<(bool, Seq<char>)>::empty());
        assert(side_eval(side_tokens(z).skip(1), m0.insert(0, tv)) == SideOut::Done(
            m0.insert(0, tv),
        ));
    }
}

/// The normalized equation splits at its single `=` into the normalized
/// left side and the single `0`.
proof fn lemma_eq_split(s: Seq<(i32, Coef)>)
    requires
        renderable(s),
        s.len() > 0,
    ensures
        ({
            let n = normalize_spec(render_spec(s));
            &&& eq_count(n) == 1
            &&& eq_pos(n) == norm_desc(s).len()
            &&& n.take(eq_pos(n)) == norm_desc(s)
            &&& n.skip(eq_pos(n) + 1) == seq!['0']
            &&& norm_desc(s).len() > 0
        }),
{
    lemma_normalize_render(s);
    lemma_norm_desc_chars(s);
    lemma_eq_split_text(norm_desc(s));
    lemma_norm_desc_nonempty(s);
}

/// Appending `=0` to text without `=` puts the single `=` right after it.
proof fn lemma_eq_split_text(nd: Seq<char>)
    requires
        forall|p: int| 0 <= p < nd.len() ==> (#[trigger] nd[p]) != '=',
    ensures
        ({
            let n = nd + seq!['=', '0'];
            &&& eq_count(n) == 1
            &&& eq_pos(n) == nd.len()
            &&& n.take(eq_pos(n)) == nd
            &&& n.skip(eq_pos(n) + 1) == seq!['0']
        }),
{
    let n = nd + seq!['=', '0'];
    assert(eq_count(n) == 1) by {
        let pred = |ch: char| ch == '=';
        Seq::filter_distributes_over_add(nd, seq!['=', '0'], pred);
        lemma_filter_none(nd, pred);
        assert(seq!['=', '0'].filter(pred) =~= seq!['=']) by {
            Seq::filter_distributes_over_add(seq!['='], seq!['0'], pred);
            crate::parse::lemma_filter_singleton('=', pred);
            crate::parse::lemma_filter_singleton('0', pred);
            assert(seq!['='] + seq!['0'] =~= seq!['=', '0']);
        }
        assert(n.filter(pred).len() == 1);
    }
    assert(eq_pos(n) == nd.len()) by {
        assert(n[nd.len() as int] == '=');
        assert(exists|q: int| 0 <= q < n.len() && (#[trigger] n[q]) == '=');
        let q = choose|q: int| 0 <= q < n.len() && (#[trigger] n[q]) == '=';
        if q != nd.len() {
            if q < nd.len() {
                assert(nd[q] == '=');
                assert(false);
            } else {
                assert(n[q] == '0');
                assert(false);
            }
        }
    }
    assert(n.take(eq_pos(n)) =~= nd);
    assert(n.skip(eq_pos(n) + 1) =~= seq!['0']);
}

/// The normalized left side is nonempty.
proof fn lemma_norm_desc_nonempty(s: Seq<(i32, Coef)>)
    requires
        renderable(s),
        s.len() > 0,
    ensures
        norm_desc(s).len() > 0,
{
    lemma_term_chars_facts(s.last().0, s.last().1);
}

/// The normalized left side accumulates exactly the polynomial's
/// coefficients.
proof fn lemma_left_side(s: Seq<(i32, Coef)>)
    requires
        renderable(s),
        seq_sorted(s),
        s.len() > 0,
    ensures
        side_result(norm_desc(s)) == SideOut::Done(tail_map(s, Map::empty())),
{
    lemma_scan_desc(s);
    lemma_eval_tokens(s, Map::empty());
    let nd = norm_desc(s);
    let ml = tail_map(s, Map::empty());
    if t_neg(s.last()) {
        let toks = side_tokens(nd);
        assert(toks[0] == (false, Seq::<char>::empty()));
        assert(toks.skip(1) =~= toks_tail(s));
        assert(token_step(Map::empty(), false, Seq::<char>::empty()) == SideOut::Done(
            Map::<int, DecVal>::empty(),
        ));
    } else {
        assert(Seq::<(bool, Seq<char>)>::empty() + toks_tail(s) =~= toks_tail(s));
    }
}

/// Subtracting the right side's lone zero reproduces every coefficient of
/// the left side's accumulated map.
proof fn lemma_final_coefs(s: Seq<(i32, Coef)>, ml: Map<int, DecVal>, mr: Map<int, DecVal>)
    requires
        renderable(s),
        seq_sorted(s),
        ml == tail_map(s, Map::<int, DecVal>::empty()),
        mr == Map::<int, DecVal>::empty().insert(0, DecVal { num: 0, scale: 0 }),
    ensures
        sub_fits(ml, mr),
        forall|d: int|
            (ml.dom().contains(d) || mr.dom().contains(d)) == (spec_has(s, d) || d == 0),
        forall|d: int|
            canon_dec(dec_combine(map_get(ml, d), map_get(mr, d), true)) == spec_coef_at(
                s,
                d,
            ).dec(),
{
    lemma_tail_map_props(s, Map::empty());
    assert(sub_fits(ml, mr)) by {
        assert forall|d: int| #[trigger]
            mr.dom().contains(d) implies crate::coef::fits_int(map_get(ml, d), mr[d], true) by {
            assert(mr[d] == DecVal { num: 0, scale: 0 });
        }
    }
    assert(pow10(0) == 1) by {
        vstd::arithmetic::power::lemma_pow0(10);
    }
    assert forall|d: int|
        canon_dec(dec_combine(map_get(ml, d), map_get(mr, d), true)) == spec_coef_at(
        s,
        d,
    ).dec() by {
        let x = map_get(ml, d);
        assert(map_get(mr, d) == DecVal { num: 0, scale: 0 });
        let combined = dec_combine(x, DecVal { num: 0, scale: 0 }, true);
        vstd::arithmetic::mul::lemma_mul_by_zero_is_zero(pow10(x.scale));
        assert(combined == x);
        if spec_has(s, d) {
            let i = choose|i: int| 0 <= i < s.len() && (#[trigger] s[i]).0 == d;
            assert(ml[s[i].0 as int] == s[i].1.dec());
            assert(x == s[i].1.dec());
            crate::polynomial::lemma_coef_at_sorted(s, i);
            crate::coef::lemma_wf_bridge(s[i].1);
            assert(crate::coef::dec_wf(x));
            crate::coef::lemma_canon_dec(x);
            crate::coef::lemma_dec_unique(canon_dec(x), x);
        } else {
            assert(!ml.dom().contains(d));
            assert(x == DecVal { num: 0, scale: 0 });
            assert(canon_dec(x) == x);
            crate::polynomial::lemma_coef_at_absent(s, d);
        }
    }
}

/// Parsing the printed canonical reduced form of a polynomial yields the
/// same polynomial: the normalized text splits at its single `=`; the left
/// side accumulates exactly the polynomial's coefficients, the right side a
/// single zero; and the final degree-wise difference reproduces every
/// coefficient. Together with the contract of `parse_polynomial`, parsing
/// the output of `reduced_form` returns a polynomial whose coefficient at
/// every degree equals the original's. (Coefficients at the very bottom of
/// the 128-bit range are excluded: their magnitude is not representable.)
pub proof fn lemma_round_trip(p: Polynomial)
    requires
        p.wf(),
        p.terms@.len() > 0,
        forall|i: int| 0 <= i < p.terms@.len() ==> (#[trigger] p.terms@[i]).1.num > i128::MIN,
    ensures
        ({
            let n = normalize_spec(render_spec(p.terms@));
            let pos = eq_pos(n);
            let l = n.take(pos);
            let rt = n.skip(pos + 1);
            &&& eq_count(n) == 1
            &&& l.len() > 0
            &&& rt.len() > 0
            &&& (side_result(l) matches SideOut::Done(ml) && side_result(rt)
                matches SideOut::Done(mr) && sub_fits(ml, mr) && (forall|d: int|
                (ml.dom().contains(d) || mr.dom().contains(d)) == (spec_has(p.terms@, d) || d
                    == 0)) && (forall|d: int|
                canon_dec(dec_combine(map_get(ml, d), map_get(mr, d), true)) == spec_coef_at(
                    p.terms@,
                    d,
                ).dec()))
        }),
{
    let s = p.terms@;
    assert(renderable(s));
    lemma_eq_split(s);
    lemma_left_side(s);
    lemma_right_side_zero();
    let ml = tail_map(s, Map::empty());
    let mr = Map::<int, DecVal>::empty().insert(0, DecVal { num: 0, scale: 0 });
    lemma_final_coefs(s, ml, mr);
}

/// The normalized left side holds no `=`.
proof fn lemma_norm_desc_chars(s: Seq<(i32, Coef)>)
    requires
        renderable(s),
    ensures
        forall|p: int| 0 <= p < norm_desc(s).len() ==> (#[trigger] norm_desc(s)[p]) != '=',
        forall|p: int| 0 <= p < norm_tail(s).len() ==> (#[trigger] norm_tail(s)[p]) != '=',
    decreases s.len(),
{
    if s.len() > 0 {
        let top = s.last();
        let rest = s.drop_last();
        assert(forall|i: int| 0 <= i < rest.len() ==> (#[trigger] rest[i]) == s[i]);
        lemma_norm_desc_chars(rest);
        lemma_term_chars_facts(top.0, top.1);
        let u = unsigned_term(top.0, top.1);
        let t = term_chars(top.0, top.1);
        assert forall|p: int| 0 <= p < u.len() implies (#[trigger] u[p]) != '=' by {
            if top.1.num < 0 {
                assert(t[p + 1] == u[p]);
                assert(t[p + 1] != '=');
            } else {
                assert(t[p] == u[p]);
                assert(t[p] != '=');
            }
        }
        assert forall|p: int|
            0 <= p < norm_tail(s).len() implies (#[trigger] norm_tail(s)[p]) != '=' by {
            let nt = norm_tail(s);
            if p == 0 {
            } else if p <= u.len() {
                assert(nt[p] == u[p - 1]);
            } else {
                assert(nt[p] == norm_tail(rest)[p - 1 - u.len()]);
            }
        }
        assert forall|p: int|
            0 <= p < norm_desc(s).len() implies (#[trigger] norm_desc(s)[p]) != '=' by {
            let ndl = norm_desc(s);
            let off: int = if t_neg(top) {
                1
            } else {
                0
            };
            if p < off {
            } else if p < off + u.len() {
                assert(ndl[p] == u[p - off]);
            } else {
                assert(ndl[p] == norm_tail(rest)[p - off - u.len()]);
            }
        }
    } else {
        assert(norm_desc(s) =~= Seq::<char>::empty());
        assert(norm_tail(s) =~= Seq::<char>::empty());
    }
}

/// Filtering keeps nothing when no element satisfies the predicate.
proof fn lemma_filter_none(s: Seq<char>, pred: spec_fn(char) -> bool)
    requires
        forall|i: int| 0 <= i < s.len() ==> !pred(#[trigger] s[i]),
    ensures
        s.filter(pred) == Seq::<char>::empty(),
    decreases s.len(),
{
    reveal(Seq::filter);
    if s.len() == 0 {
        assert(s.filter(pred) =~= Seq::<char>::empty());
    } else {
        assert(forall|i: int|
            0 <= i < s.drop_last().len() ==> !pred(#[trigger] s.drop_last()[i]));
        lemma_filter_none(s.drop_last(), pred);
    }
}

} // verus!
