//! Text normalization: whitespace removal and collapsing of redundant sign
//! sequences (`--`/`++` to `+`, `-+`/`+-` to `-`) to a fixed point, so that
//! afterwards every run of signs is a single canonical `+` or `-`.

use vstd::prelude::*;
use crate::chars::{is_digit_char, is_sign_char, is_space_char, is_sign, is_space};
use crate::chars::{chars_of, string_from_chars};

verus! {

/// The input with every whitespace character removed.
pub open spec fn strip_spaces(s: Seq<char>) -> Seq<char> {
    s.filter(|c: char| !is_space_char(c))
}

/// The sign an adjacent pair of signs rewrites to: `-` exactly when the pair
/// holds exactly one `-`.
pub open spec fn combine_signs(a: char, b: char) -> char {
    if (a == '-') != (b == '-') {
        '-'
    } else {
        '+'
    }
}

/// Fixed point of the adjacent-sign rewriting: every maximal run of signs
/// collapses to one sign whose value tracks the parity of its `-` count.
pub open spec fn collapse_signs(s: Seq<char>) -> Seq<char>
    decreases s.len(),
{
    if s.len() == 0 {
        Seq::empty()
    } else if s.len() >= 2 && is_sign_char(s[0]) && is_sign_char(s[1]) {
        collapse_signs(seq![combine_signs(s[0], s[1])] + s.skip(2))
    } else {
        seq![s[0]] + collapse_signs(s.skip(1))
    }
}

/// Full normalization: strip whitespace, then collapse sign runs.
pub open spec fn normalize_spec(s: Seq<char>) -> Seq<char> {
    collapse_signs(strip_spaces(s))
}

/// A collapsed sequence: no two adjacent characters are both signs.
pub open spec fn no_adjacent_signs(s: Seq<char>) -> bool {
    forall|i: int|
        0 <= i && i + 1 < s.len() ==> !(is_sign_char(#[trigger] s[i]) && is_sign_char(s[i + 1]))
}

proof fn lemma_collapse_empty()
    ensures
        collapse_signs(Seq::<char>::empty()) == Seq::<char>::empty(),
{
}

proof fn lemma_collapse_one(a: char)
    ensures
        collapse_signs(seq![a]) == seq![a],
{
    lemma_collapse_empty();
    assert(seq![a].skip(1) =~= Seq::<char>::empty());
    assert(collapse_signs(seq![a]) == seq![a] + collapse_signs(seq![a].skip(1)));
    assert(seq![a] + Seq::<char>::empty() =~= seq![a]);
}

/// Filtering a one-element sequence keeps or drops its element.
proof fn lemma_filter_one<A>(c: A, pred: spec_fn(A) -> bool)
    ensures
        seq![c].filter(pred) == if pred(c) {
            seq![c]
        } else {
            Seq::<A>::empty()
        },
{
    reveal(Seq::filter);
    assert(Seq::<A>::empty().filter(pred) =~= Seq::<A>::empty());
    assert(seq![c].drop_last() =~= Seq::<A>::empty());
    assert(seq![c].last() == c);
    if pred(c) {
        assert(seq![c].filter(pred) =~= Seq::<A>::empty().push(c));
        assert(Seq::<A>::empty().push(c) =~= seq![c]);
    }
}

/// Collapsing keeps at least one character of a nonempty input.
pub proof fn lemma_collapse_nonempty(s: Seq<char>)
    requires
        s.len() >= 1,
    ensures
        collapse_signs(s).len() >= 1,
    decreases s.len(),
{
    if s.len() >= 2 && is_sign_char(s[0]) && is_sign_char(s[1]) {
        lemma_collapse_nonempty(seq![combine_signs(s[0], s[1])] + s.skip(2));
    }
}

/// How collapsing extends over one appended character: the new character
/// either merges with a trailing sign or is appended as it is.
pub proof fn lemma_collapse_push(s: Seq<char>, c: char)
    ensures
        collapse_signs(s.push(c)) == if collapse_signs(s).len() >= 1 && is_sign_char(
            collapse_signs(s).last(),
        ) && is_sign_char(c) {
            collapse_signs(s).drop_last().push(
                combine_signs(collapse_signs(s).last(), c),
            )
        } else {
            collapse_signs(s).push(c)
        },
    decreases s.len(),
{
    if s.len() == 0 {
        assert(s.push(c) =~= seq![c]);
        lemma_collapse_one(c);
        lemma_collapse_empty();
        assert(collapse_signs(s).push(c) =~= seq![c]);
    } else if s.len() == 1 {
        let a = s[0];
        assert(s =~= seq![a]);
        lemma_collapse_one(a);
        if is_sign_char(a) && is_sign_char(c) {
            let m = combine_signs(a, c);
            assert(s.push(c)[0] == a && s.push(c)[1] == c);
            assert(seq![m] + s.push(c).skip(2) =~= seq![m]);
            lemma_collapse_one(m);
            assert(collapse_signs(s.push(c)) == seq![m]);
            assert(collapse_signs(s).drop_last().push(m) =~= seq![m]);
        } else {
            assert(s.push(c).skip(1) =~= seq![c]);
            lemma_collapse_one(c);
            assert(collapse_signs(s.push(c)) == seq![a] + collapse_signs(s.push(c).skip(1)));
            assert(seq![a] + seq![c] =~= seq![a].push(c));
            assert(collapse_signs(s).push(c) =~= seq![a].push(c));
        }
    } else {
        if is_sign_char(s[0]) && is_sign_char(s[1]) {
            let t = seq![combine_signs(s[0], s[1])] + s.skip(2);
            assert(s.push(c)[0] == s[0] && s.push(c)[1] == s[1]);
            assert(s.push(c).skip(2) =~= s.skip(2).push(c));
            assert(seq![combine_signs(s[0], s[1])] + s.push(c).skip(2) =~= t.push(c));
            assert(collapse_signs(s.push(c)) == collapse_signs(t.push(c)));
            lemma_collapse_push(t, c);
            assert(collapse_signs(s) == collapse_signs(t));
        } else {
            let t = s.skip(1);
            assert(s.push(c)[0] == s[0] && s.push(c)[1] == s[1]);
            assert(s.push(c).skip(1) =~= t.push(c));
            assert(collapse_signs(s.push(c)) == seq![s[0]] + collapse_signs(t.push(c)));
            lemma_collapse_push(t, c);
            lemma_collapse_nonempty(t);
            assert(collapse_signs(s) == seq![s[0]] + collapse_signs(t));
            let ct = collapse_signs(t);
            assert(collapse_signs(s).last() == ct.last());
            assert(collapse_signs(s).len() >= 1);
            if ct.len() >= 1 && is_sign_char(ct.last()) && is_sign_char(c) {
                assert(seq![s[0]] + ct.drop_last().push(combine_signs(ct.last(), c))
                    =~= collapse_signs(s).drop_last().push(combine_signs(ct.last(), c)));
            } else {
                assert(seq![s[0]] + ct.push(c) =~= collapse_signs(s).push(c));
            }
        }
    }
}

/// A collapsed sequence has no adjacent signs, and keeps non-sign characters
/// of the input only.
pub proof fn lemma_collapse_shape(s: Seq<char>)
    ensures
        no_adjacent_signs(collapse_signs(s)),
        forall|i: int|
            0 <= i < collapse_signs(s).len() ==> (s.contains(#[trigger] collapse_signs(s)[i])
                || is_sign_char(collapse_signs(s)[i])),
    decreases s.len(),
{
    if s.len() == 0 {
    } else if s.len() >= 2 && is_sign_char(s[0]) && is_sign_char(s[1]) {
        let t = seq![combine_signs(s[0], s[1])] + s.skip(2);
        lemma_collapse_shape(t);
        assert forall|i: int|
            0 <= i < collapse_signs(s).len() implies (s.contains(
            #[trigger] collapse_signs(s)[i],
        ) || is_sign_char(collapse_signs(s)[i])) by {
            if t.contains(collapse_signs(s)[i]) {
                let j = choose|j: int| 0 <= j < t.len() && t[j] == collapse_signs(s)[i];
                if j >= 1 {
                    assert(t[j] == s[j + 1]);
                    assert(s.contains(t[j]));
                }
            }
        }
    } else {
        let t = s.skip(1);
        lemma_collapse_shape(t);
        if s.len() >= 1 {
            assert(collapse_signs(s) == seq![s[0]] + collapse_signs(t));
            let cs = collapse_signs(s);
            let ct = collapse_signs(t);
            assert forall|i: int|
                0 <= i && i + 1 < cs.len() implies !(is_sign_char(#[trigger] cs[i])
                && is_sign_char(cs[i + 1])) by {
                if i == 0 {
                    if ct.len() >= 1 && is_sign_char(s[0]) && is_sign_char(ct[0]) {
                        // the first collapsed character of t is either t[0]
                        // (not a sign beside a sign start) or a combined sign
                        // replacing a sign run at the head of t
                        lemma_collapse_head_sign(t);
                        assert(t.len() >= 1 && is_sign_char(t[0]));
                        assert(s.len() >= 2 && is_sign_char(s[1]));
                        assert(false);
                    }
                }
            }
            assert forall|i: int|
                0 <= i < cs.len() implies (s.contains(#[trigger] cs[i]) || is_sign_char(
                cs[i],
            )) by {
                if i >= 1 {
                    if t.contains(cs[i]) {
                        let j = choose|j: int| 0 <= j < t.len() && t[j] == cs[i];
                        assert(t[j] == s[j + 1]);
                        assert(s.contains(cs[i]));
                    }
                }
            }
        }
    }
}

/// If the collapsed sequence starts with a sign, so did the input.
pub proof fn lemma_collapse_head_sign(s: Seq<char>)
    requires
        s.len() >= 1,
    ensures
        collapse_signs(s).len() >= 1,
        is_sign_char(collapse_signs(s)[0]) ==> is_sign_char(s[0]),
    decreases s.len(),
{
    lemma_collapse_nonempty(s);
    if s.len() >= 2 && is_sign_char(s[0]) && is_sign_char(s[1]) {
        let t = seq![combine_signs(s[0], s[1])] + s.skip(2);
        lemma_collapse_head_sign(t);
    }
}

/// Collapsing a sequence with no adjacent signs changes nothing.
pub proof fn lemma_collapse_identity(s: Seq<char>)
    requires
        no_adjacent_signs(s),
    ensures
        collapse_signs(s) == s,
    decreases s.len(),
{
    if s.len() == 0 {
        assert(collapse_signs(s) =~= s);
    } else {
        let t = s.skip(1);
        assert(forall|i: int|
            0 <= i && i + 1 < t.len() ==> !(is_sign_char(#[trigger] t[i]) && is_sign_char(
            t[i + 1],
            )));
        lemma_collapse_identity(t);
        assert(collapse_signs(s) =~= s);
    }
}

/// Collapsing is idempotent.
pub proof fn lemma_collapse_idempotent(s: Seq<char>)
    ensures
        collapse_signs(collapse_signs(s)) == collapse_signs(s),
{
    lemma_collapse_shape(s);
    lemma_collapse_identity(collapse_signs(s));
}

/// Filtering changes nothing when every element already satisfies the
/// predicate.
pub proof fn lemma_filter_all<A>(s: Seq<A>, pred: spec_fn(A) -> bool)
    requires
        forall|i: int| 0 <= i < s.len() ==> pred(#[trigger] s[i]),
    ensures
        s.filter(pred) == s,
    decreases s.len(),
{
    reveal(Seq::filter);
    if s.len() == 0 {
        assert(s.filter(pred) =~= s);
    } else {
        lemma_filter_all(s.drop_last(), pred);
        assert(s.filter(pred) =~= s);
    }
}

/// Normalization is idempotent: normalizing a normalized string changes
/// nothing.
pub proof fn lemma_normalize_idempotent(s: Seq<char>)
    ensures
        normalize_spec(normalize_spec(s)) == normalize_spec(s),
{
    broadcast use vstd::seq_lib::group_filter_ensures;

    let t = strip_spaces(s);
    let n = collapse_signs(t);
    lemma_collapse_shape(t);
    assert forall|i: int| 0 <= i < n.len() implies !is_space_char(#[trigger] n[i]) by {
        if t.contains(n[i]) {
            let j = choose|j: int| 0 <= j < t.len() && t[j] == n[i];
        }
    }
    lemma_filter_all(n, |c: char| !is_space_char(c));
    assert(strip_spaces(n) == n);
    lemma_collapse_idempotent(t);
}

/// Collapsing distributes over concatenation when the left part ends with
/// a non-sign character (no merge can cross the boundary).
pub proof fn lemma_collapse_append(a: Seq<char>, b: Seq<char>)
    requires
        a.len() > 0,
        !is_sign_char(a.last()),
    ensures
        collapse_signs(a + b) == collapse_signs(a) + collapse_signs(b),
    decreases a.len(),
{
    let ab = a + b;
    if a.len() >= 2 && is_sign_char(a[0]) && is_sign_char(a[1]) {
        let a2 = seq![combine_signs(a[0], a[1])] + a.skip(2);
        assert(ab[0] == a[0] && ab[1] == a[1]);
        assert(seq![combine_signs(ab[0], ab[1])] + ab.skip(2) =~= a2 + b);
        assert(a.len() >= 3);
        assert(a2.len() > 0 && a2.last() == a.last());
        lemma_collapse_append(a2, b);
        assert(collapse_signs(a) == collapse_signs(a2));
    } else if a.len() == 1 {
        if b.len() == 0 {
            assert(ab =~= a);
            assert(collapse_signs(b) =~= Seq::<char>::empty());
            assert(collapse_signs(a) + collapse_signs(b) =~= collapse_signs(a));
        } else {
            assert(ab[0] == a[0]);
            assert(!(ab.len() >= 2 && is_sign_char(ab[0]) && is_sign_char(ab[1])));
            assert(collapse_signs(ab) == seq![ab[0]] + collapse_signs(ab.skip(1)));
            assert(ab.skip(1) =~= b);
            lemma_collapse_one(a[0]);
            assert(seq![a[0]] + collapse_signs(b) =~= collapse_signs(a) + collapse_signs(b));
        }
    } else {
        assert(ab[0] == a[0] && ab[1] == a[1]);
        assert(!(is_sign_char(ab[0]) && is_sign_char(ab[1])));
        assert(collapse_signs(ab) == seq![ab[0]] + collapse_signs(ab.skip(1)));
        assert(ab.skip(1) =~= a.skip(1) + b);
        assert(a.skip(1).last() == a.last());
        lemma_collapse_append(a.skip(1), b);
        assert(collapse_signs(a) == seq![a[0]] + collapse_signs(a.skip(1)));
        assert(seq![a[0]] + (collapse_signs(a.skip(1)) + collapse_signs(b)) =~= (seq![a[0]]
            + collapse_signs(a.skip(1))) + collapse_signs(b));
    }
}

/// A lone sign followed by a run of `j` minus signs collapses to one sign
/// whose value flips once per minus.
proof fn lemma_sign_then_minus_run(sign: char, j: nat)
    requires
        is_sign_char(sign),
    ensures
        collapse_signs(seq![sign] + Seq::new(j, |i: int| '-')) == seq![
            if (sign == '-') != (j % 2 == 1) {
                '-'
            } else {
                '+'
            },
        ],
    decreases j,
{
    let run = Seq::new(j, |i: int| '-');
    let s = seq![sign] + run;
    if j == 0 {
        assert(s =~= seq![sign]);
        lemma_collapse_one(sign);
    } else {
        let m = combine_signs(sign, '-');
        assert(s[0] == sign && s[1] == '-');
        assert(is_sign_char(m));
        assert(seq![m] + s.skip(2) =~= seq![m] + Seq::new((j - 1) as nat, |i: int| '-'));
        lemma_sign_then_minus_run(m, (j - 1) as nat);
        assert((m == '-') == (sign != '-'));
        assert(((m == '-') != ((j - 1) % 2 == 1)) == ((sign == '-') != (j % 2 == 1)));
    }
}

/// Sign collapsing is parity-correct: a run of `k` consecutive `-` signs
/// collapses to a single `-` when `k` is odd and to a single `+` when `k`
/// is even.
pub proof fn lemma_minus_run_parity(k: nat)
    requires
        k >= 1,
    ensures
        collapse_signs(Seq::new(k, |i: int| '-')) == seq![
            if k % 2 == 1 {
                '-'
            } else {
                '+'
            },
        ],
{
    let run = Seq::new(k, |i: int| '-');
    assert(run =~= seq!['-'] + Seq::new((k - 1) as nat, |i: int| '-'));
    lemma_sign_then_minus_run('-', (k - 1) as nat);
    assert((('-' == '-') != ((k - 1) % 2 == 1)) == (k % 2 == 1));
}

/// Whitespace removal over a character vector.
pub fn strip_space_chars(v: &Vec<char>) -> (r: Vec<char>)
    ensures
        r@ == strip_spaces(v@),
{
    let mut out: Vec<char> = Vec::new();
    let mut i: usize = 0;
    let pred = Ghost(|c: char| !is_space_char(c));
    proof {
        assert(v@.take(0).filter(pred@) =~= Seq::<char>::empty());
    }
    while i < v.len()
        invariant
            i <= v@.len(),
            pred@ == (|c: char| !is_space_char(c)),
            out@ == v@.take(i as int).filter(pred@),
        decreases v@.len() - i,
    {
        let c = v[i];
        proof {
            Seq::filter_distributes_over_add(v@.take(i as int), seq![c], pred@);
            assert(v@.take(i as int) + seq![c] =~= v@.take(i + 1));
            lemma_filter_one(c, pred@);
        }
        if !is_space(c) {
            out.push(c);
            proof {
                assert(out@ =~= v@.take(i as int).filter(pred@) + seq![c].filter(pred@));
            }
        } else {
            proof {
                assert(out@ =~= v@.take(i as int).filter(pred@) + seq![c].filter(pred@));
            }
        }
        i = i + 1;
    }
    proof {
        assert(v@.take(v@.len() as int) =~= v@);
    }
    out
}

/// Sign collapsing over a character vector: one left-to-right pass that
/// merges each sign into a pending trailing sign.
pub fn collapse_sign_chars(v: &Vec<char>) -> (r: Vec<char>)
    ensures
        r@ == collapse_signs(v@),
{
    let mut out: Vec<char> = Vec::new();
    let mut i: usize = 0;
    proof {
        assert(v@.take(0) =~= Seq::<char>::empty());
        assert(collapse_signs(v@.take(0)) =~= Seq::<char>::empty());
    }
    while i < v.len()
        invariant
            i <= v@.len(),
            out@ == collapse_signs(v@.take(i as int)),
        decreases v@.len() - i,
    {
        let c = v[i];
        proof {
            assert(v@.take(i + 1) =~= v@.take(i as int).push(c));
            lemma_collapse_push(v@.take(i as int), c);
        }
        if out.len() >= 1 && is_sign(out[out.len() - 1]) && is_sign(c) {
            let last = out[out.len() - 1];
            let merged = if (last == '-') != (c == '-') {
                '-'
            } else {
                '+'
            };
            out.pop();
            out.push(merged);
            proof {
                assert(out@ =~= collapse_signs(v@.take(i as int)).drop_last().push(
                    combine_signs(last, c),
                ));
            }
        } else {
            out.push(c);
        }
        i = i + 1;
    }
    proof {
        assert(v@.take(v@.len() as int) =~= v@);
    }
    out
}

/// String helpers of the library: whitespace removal and redundant-sign
/// collapsing.
pub trait StringUtils: Sized + View<V = Seq<char>> {
    /// The string with every whitespace character removed.
    fn remove_whitespaces(&self) -> (r: Self)
        ensures
            r@ == strip_spaces(self@),
    ;

    /// The string with every run of adjacent signs rewritten to its single
    /// canonical sign (`--`/`++` to `+`, `-+`/`+-` to `-`, to a fixed point).
    fn remove_redundant_operators(&self) -> (r: Self)
        ensures
            r@ == collapse_signs(self@),
    ;
}

impl StringUtils for String {
    fn remove_whitespaces(&self) -> (r: String) {
        let v = chars_of(self.as_str());
        let out = strip_space_chars(&v);
        string_from_chars(&out)
    }

    fn remove_redundant_operators(&self) -> (r: String) {
        let v = chars_of(self.as_str());
        let out = collapse_sign_chars(&v);
        string_from_chars(&out)
    }
}

} // verus!
