//! Character-level utilities shared by the selection engine and the bundle
//! format: trimming, prefix tests, lexicographic path order and line
//! splitting, all specified over `Seq<char>`.

use vstd::prelude::*;
use vstd::string::StrSliceExecFns;
use vstd::string::StringExecFns;

verus! {

/// Whitespace that may surround a path on a bundle header line.
pub open spec fn is_space(c: char) -> bool {
    c == ' ' || c == '\t' || c == '\r'
}

pub open spec fn spec_trim_start(s: Seq<char>) -> Seq<char>
    decreases s.len(),
{
    if s.len() > 0 && is_space(s[0]) {
        spec_trim_start(s.drop_first())
    } else {
        s
    }
}

pub open spec fn spec_trim_end(s: Seq<char>) -> Seq<char>
    decreases s.len(),
{
    if s.len() > 0 && is_space(s.last()) {
        spec_trim_end(s.drop_last())
    } else {
        s
    }
}

/// The sequence with leading and trailing whitespace removed.
pub open spec fn spec_trim(s: Seq<char>) -> Seq<char> {
    spec_trim_end(spec_trim_start(s))
}

proof fn lemma_trim_start_at(s: Seq<char>, i: int)
    requires
        0 <= i <= s.len(),
        forall|k: int| 0 <= k < i ==> is_space(s[k]),
        i < s.len() ==> !is_space(s[i]),
    ensures
        spec_trim_start(s) == s.skip(i),
    decreases i,
{
    if i == 0 {
        assert(s.skip(0) =~= s);
    } else {
        lemma_trim_start_at(s.drop_first(), i - 1);
        assert(s.drop_first().skip(i - 1) =~= s.skip(i));
    }
}

proof fn lemma_trim_end_at(s: Seq<char>, j: int)
    requires
        0 <= j <= s.len(),
        forall|k: int| j <= k < s.len() ==> is_space(s[k]),
        j > 0 ==> !is_space(s[j - 1]),
    ensures
        spec_trim_end(s) == s.take(j),
    decreases s.len() - j,
{
    if j == s.len() {
        assert(s.take(j) =~= s);
    } else {
        lemma_trim_end_at(s.drop_last(), j);
        assert(s.drop_last().take(j) =~= s.take(j));
    }
}

/// Executable trim, equal to `spec_trim` on the view.
pub fn trim_str(s: &str) -> (r: String)
    ensures
        r@ == spec_trim(s@),
{
    let n = s.unicode_len();
    let mut lo: usize = 0;
    while lo < n && is_space_char(s.get_char(lo))
        invariant
            n == s@.len(),
            lo <= n,
            forall|k: int| 0 <= k < lo ==> is_space(s@[k]),
        decreases n - lo,
    {
        lo += 1;
    }
    proof {
        lemma_trim_start_at(s@, lo as int);
    }
    let mut hi: usize = n;
    while hi > lo && is_space_char(s.get_char(hi - 1))
        invariant
            n == s@.len(),
            lo <= hi <= n,
            forall|k: int| 0 <= k < lo ==> is_space(s@[k]),
            lo < n ==> !is_space(s@[lo as int]),
            forall|k: int| hi <= k < n ==> is_space(s@[k]),
        decreases hi,
    {
        hi -= 1;
    }
    proof {
        let t = s@.skip(lo as int);
        lemma_trim_end_at(t, hi - lo);
        assert(t.take(hi - lo) =~= s@.subrange(lo as int, hi as int));
    }
    let sub = s.substring_char(lo, hi);
    String::from_str(sub)
}

/// Executable test for `is_space`.
pub fn is_space_char(c: char) -> (r: bool)
    ensures
        r == is_space(c),
{
    c == ' ' || c == '\t' || c == '\r'
}

/// Executable string equality on views.
pub fn str_eq(a: &str, b: &str) -> (r: bool)
    ensures
        r == (a@ == b@),
{
    let na = a.unicode_len();
    let nb = b.unicode_len();
    if na != nb {
        return false;
    }
    let mut i: usize = 0;
    while i < na
        invariant
            na == a@.len(),
            nb == b@.len(),
            na == nb,
            i <= na,
            forall|k: int| 0 <= k < i ==> a@[k] == b@[k],
        decreases na - i,
    {
        if a.get_char(i) != b.get_char(i) {
            return false;
        }
        i += 1;
    }
    proof {
        assert(a@ =~= b@);
    }
    true
}

/// Executable prefix test on views.
pub fn str_starts_with(s: &str, prefix: &str) -> (r: bool)
    ensures
        r == prefix@.is_prefix_of(s@),
{
    let n = s.unicode_len();
    let np = prefix.unicode_len();
    if np > n {
        return false;
    }
    let mut i: usize = 0;
    while i < np
        invariant
            n == s@.len(),
            np == prefix@.len(),
            np <= n,
            i <= np,
            forall|k: int| 0 <= k < i ==> s@[k] == prefix@[k],
        decreases np - i,
    {
        if s.get_char(i) != prefix.get_char(i) {
            assert(!prefix@.is_prefix_of(s@));
            return false;
        }
        i += 1;
    }
    proof {
        assert(prefix@ =~= s@.subrange(0, np as int));
    }
    true
}

/// One step of `filter` along a growing prefix.
pub proof fn lemma_filter_take_step<A>(s: Seq<A>, p: spec_fn(A) -> bool, i: int)
    requires
        0 <= i < s.len(),
    ensures
        s.take(i + 1).filter(p) == if p(s[i]) {
            s.take(i).filter(p).push(s[i])
        } else {
            s.take(i).filter(p)
        },
{
    reveal(Seq::filter);
    assert(s.take(i + 1).drop_last() =~= s.take(i));
    assert(s.take(i + 1).last() == s[i]);
}

/// `filter` over the whole sequence, reached through `take`.
pub proof fn lemma_filter_take_all<A>(s: Seq<A>, p: spec_fn(A) -> bool)
    ensures
        s.take(s.len() as int).filter(p) == s.filter(p),
{
    assert(s.take(s.len() as int) =~= s);
}

/// Lexicographic order on character sequences by code point, the order in
/// which selected paths appear in a bundle.
pub open spec fn lex_le(a: Seq<char>, b: Seq<char>) -> bool
    decreases a.len(),
{
    if a.len() == 0 {
        true
    } else if b.len() == 0 {
        false
    } else if a[0] == b[0] {
        lex_le(a.drop_first(), b.drop_first())
    } else {
        (a[0] as u32) < (b[0] as u32)
    }
}

proof fn lemma_char_code_distinct(c: char, d: char)
    requires
        c != d,
    ensures
        (c as u32) != (d as u32),
{
}

pub proof fn lemma_lex_le_total(a: Seq<char>, b: Seq<char>)
    ensures
        lex_le(a, b) || lex_le(b, a),
        lex_le(a, b) && lex_le(b, a) ==> a == b,
    decreases a.len(),
{
    if a.len() == 0 || b.len() == 0 {
        if lex_le(a, b) && lex_le(b, a) {
            assert(a =~= b);
        }
    } else if a[0] == b[0] {
        lemma_lex_le_total(a.drop_first(), b.drop_first());
        if lex_le(a, b) && lex_le(b, a) {
            assert(a.drop_first() =~= b.drop_first());
            assert(a =~= Seq::empty().push(a[0]) + a.drop_first());
            assert(b =~= Seq::empty().push(a[0]) + b.drop_first());
        }
    } else {
        lemma_char_code_distinct(a[0], b[0]);
    }
}

pub proof fn lemma_lex_le_trans(a: Seq<char>, b: Seq<char>, c: Seq<char>)
    requires
        lex_le(a, b),
        lex_le(b, c),
    ensures
        lex_le(a, c),
    decreases a.len(),
{
    if a.len() == 0 {
    } else if b.len() == 0 {
    } else if c.len() == 0 {
    } else {
        if a[0] == b[0] && b[0] == c[0] {
            lemma_lex_le_trans(a.drop_first(), b.drop_first(), c.drop_first());
        }
    }
}

/// `lex_le` as a binary relation value, for use with `sorted_by`.
pub open spec fn lex_leq() -> spec_fn(Seq<char>, Seq<char>) -> bool {
    |a: Seq<char>, b: Seq<char>| lex_le(a, b)
}

pub proof fn lemma_lex_leq_total_ordering()
    ensures
        vstd::relations::total_ordering(lex_leq()),
{
    let leq = lex_leq();
    assert forall|a: Seq<char>| #[trigger] leq(a, a) by {
        lemma_lex_le_total(a, a);
    }
    assert forall|a: Seq<char>, b: Seq<char>| #[trigger] leq(a, b) && #[trigger] leq(b, a)
        implies a == b by {
        lemma_lex_le_total(a, b);
    }
    assert forall|a: Seq<char>, b: Seq<char>, c: Seq<char>|
        #[trigger] leq(a, b) && #[trigger] leq(b, c) implies leq(a, c) by {
        lemma_lex_le_trans(a, b, c);
    }
    assert forall|a: Seq<char>, b: Seq<char>| #[trigger] leq(a, b) || #[trigger] leq(b, a) by {
        lemma_lex_le_total(a, b);
    }
}

proof fn lemma_lex_le_skip(a: Seq<char>, b: Seq<char>, i: int)
    requires
        0 <= i <= a.len(),
        i <= b.len(),
        forall|k: int| 0 <= k < i ==> a[k] == b[k],
    ensures
        lex_le(a, b) == lex_le(a.skip(i), b.skip(i)),
    decreases i,
{
    if i == 0 {
        assert(a.skip(0) =~= a);
        assert(b.skip(0) =~= b);
    } else {
        assert(a.len() > 0 && b.len() > 0 && a[0] == b[0]);
        lemma_lex_le_skip(a.drop_first(), b.drop_first(), i - 1);
        assert(a.drop_first().skip(i - 1) =~= a.skip(i));
        assert(b.drop_first().skip(i - 1) =~= b.skip(i));
    }
}

/// Executable comparison deciding `lex_le` on the views.
pub fn lex_le_str(a: &str, b: &str) -> (r: bool)
    ensures
        r == lex_le(a@, b@),
{
    let na = a.unicode_len();
    let nb = b.unicode_len();
    let mut i: usize = 0;
    loop
        invariant
            na == a@.len(),
            nb == b@.len(),
            i <= na,
            i <= nb,
            forall|k: int| 0 <= k < i ==> a@[k] == b@[k],
        decreases na - i,
    {
        proof {
            lemma_lex_le_skip(a@, b@, i as int);
        }
        if i >= na {
            return true;
        }
        if i >= nb {
            return false;
        }
        let ca = a.get_char(i);
        let cb = b.get_char(i);
        if ca != cb {
            return (ca as u32) < (cb as u32);
        }
        i += 1;
    }
}

/// The lines of a text, split at `'\n'` understood as a line terminator:
/// a trailing newline does not open an empty final line.
pub open spec fn spec_lines(s: Seq<char>) -> Seq<Seq<char>>
    decreases s.len(),
{
    if s.len() == 0 {
        Seq::empty()
    } else if s[0] == '\n' {
        seq![Seq::<char>::empty()] + spec_lines(s.drop_first())
    } else {
        let rest = spec_lines(s.drop_first());
        if rest.len() == 0 {
            seq![seq![s[0]]]
        } else {
            seq![seq![s[0]] + rest[0]] + rest.drop_first()
        }
    }
}

/// Joins lines back into a text, terminating every line with `'\n'`.
pub open spec fn spec_unlines(ls: Seq<Seq<char>>) -> Seq<char>
    decreases ls.len(),
{
    if ls.len() == 0 {
        Seq::empty()
    } else {
        ls[0] + seq!['\n'] + spec_unlines(ls.drop_first())
    }
}

pub open spec fn has_newline(s: Seq<char>) -> bool {
    exists|i: int| 0 <= i < s.len() && s[i] == '\n'
}

/// A newline-free text is a single line.
proof fn lemma_lines_single(t: Seq<char>)
    requires
        !has_newline(t),
        t.len() > 0,
    ensures
        spec_lines(t) == seq![t],
    decreases t.len(),
{
    assert(t[0] != '\n');
    if t.len() == 1 {
        assert(spec_lines(t.drop_first()) =~= Seq::<Seq<char>>::empty());
        assert(spec_lines(t) =~~= seq![t]);
    } else {
        assert(!has_newline(t.drop_first())) by {
            assert(forall|i: int|
                0 <= i < t.drop_first().len() ==> t.drop_first()[i] == t[i + 1]);
        }
        lemma_lines_single(t.drop_first());
        assert(spec_lines(t.drop_first())[0] == t.drop_first());
        assert(spec_lines(t) =~~= seq![t]) by {
            assert(seq![t[0]] + t.drop_first() =~= t);
        }
    }
}

/// Splitting off one terminated, newline-free line.
proof fn lemma_lines_step(t: Seq<char>, rest: Seq<char>)
    requires
        !has_newline(t),
    ensures
        spec_lines(t + seq!['\n'] + rest) == seq![t] + spec_lines(rest),
    decreases t.len(),
{
    let s = t + seq!['\n'] + rest;
    if t.len() == 0 {
        assert(s[0] == '\n');
        assert(s.drop_first() =~= rest);
        assert(t =~= Seq::<char>::empty());
        assert(spec_lines(s) =~~= seq![t] + spec_lines(rest));
    } else {
        assert(s[0] == t[0]);
        assert(t[0] != '\n');
        assert(!has_newline(t.drop_first())) by {
            assert(forall|i: int|
                0 <= i < t.drop_first().len() ==> t.drop_first()[i] == t[i + 1]);
        }
        lemma_lines_step(t.drop_first(), rest);
        assert(s.drop_first() =~= t.drop_first() + seq!['\n'] + rest);
        let inner = spec_lines(s.drop_first());
        assert(inner == seq![t.drop_first()] + spec_lines(rest));
        assert(inner.len() > 0);
        assert(inner[0] == t.drop_first());
        assert(inner.drop_first() =~= spec_lines(rest));
        assert(spec_lines(s) =~~= seq![t] + spec_lines(rest)) by {
            assert(seq![s[0]] + inner[0] =~= t);
        }
    }
}

/// `spec_lines` inverts `spec_unlines` on newline-free lines.
pub proof fn lemma_lines_unlines(ls: Seq<Seq<char>>)
    requires
        forall|i: int| 0 <= i < ls.len() ==> !has_newline(#[trigger] ls[i]),
    ensures
        spec_lines(spec_unlines(ls)) == ls,
    decreases ls.len(),
{
    if ls.len() == 0 {
        assert(spec_lines(spec_unlines(ls)) =~= ls);
    } else {
        lemma_lines_unlines(ls.drop_first());
        lemma_lines_step(ls[0], spec_unlines(ls.drop_first()));
        assert(spec_lines(spec_unlines(ls)) =~~= ls) by {
            assert(seq![ls[0]] + ls.drop_first() =~= ls);
        }
    }
}

/// Newline-freedom is preserved by concatenation.
pub proof fn lemma_no_newline_concat(a: Seq<char>, b: Seq<char>)
    requires
        !has_newline(a),
        !has_newline(b),
    ensures
        !has_newline(a + b),
{
    assert forall|i: int| 0 <= i < (a + b).len() implies (a + b)[i] != '\n' by {
        if i < a.len() {
            assert((a + b)[i] == a[i]);
        } else {
            assert((a + b)[i] == b[i - a.len()]);
        }
    }
}

/// Every line produced by `spec_lines` is newline-free.
pub proof fn lemma_lines_no_newline(s: Seq<char>)
    ensures
        forall|k: int|
            0 <= k < spec_lines(s).len() ==> !has_newline(#[trigger] spec_lines(s)[k]),
    decreases s.len(),
{
    if s.len() == 0 {
    } else if s[0] == '\n' {
        lemma_lines_no_newline(s.drop_first());
        assert(!has_newline(Seq::<char>::empty()));
        assert forall|k: int| 0 <= k < spec_lines(s).len() implies !has_newline(
            #[trigger] spec_lines(s)[k],
        ) by {
            if k > 0 {
                assert(spec_lines(s)[k] == spec_lines(s.drop_first())[k - 1]);
            }
        }
    } else {
        lemma_lines_no_newline(s.drop_first());
        let rest = spec_lines(s.drop_first());
        if rest.len() > 0 {
            assert(!has_newline(rest[0]));
            let first = seq![s[0]] + rest[0];
            assert(!has_newline(first)) by {
                assert(forall|m: int| 1 <= m < first.len() ==> first[m] == rest[0][m - 1]);
            }
            assert forall|k: int| 0 <= k < spec_lines(s).len() implies !has_newline(
                #[trigger] spec_lines(s)[k],
            ) by {
                if k == 0 {
                    assert(spec_lines(s)[0] == first);
                } else {
                    assert(spec_lines(s)[k] == rest[k]);
                }
            }
        } else {
            assert(!has_newline(seq![s[0]]));
        }
    }
}

/// `spec_unlines` distributes over concatenation.
pub proof fn lemma_unlines_concat(a: Seq<Seq<char>>, b: Seq<Seq<char>>)
    ensures
        spec_unlines(a + b) == spec_unlines(a) + spec_unlines(b),
    decreases a.len(),
{
    if a.len() == 0 {
        assert(a + b =~= b);
        assert(spec_unlines(a) =~= Seq::<char>::empty());
        assert(spec_unlines(a) + spec_unlines(b) =~= spec_unlines(b));
    } else {
        assert((a + b)[0] == a[0]);
        assert((a + b).drop_first() =~= a.drop_first() + b);
        lemma_unlines_concat(a.drop_first(), b);
        assert(spec_unlines(a + b) =~= spec_unlines(a) + spec_unlines(b));
    }
}

/// Appending one line to `spec_unlines`.
pub proof fn lemma_unlines_push(ls: Seq<Seq<char>>, l: Seq<char>)
    ensures
        spec_unlines(ls.push(l)) == spec_unlines(ls) + (l + seq!['\n']),
{
    reveal_with_fuel(spec_unlines, 3);
    assert(ls.push(l) =~= ls + seq![l]);
    lemma_unlines_concat(ls, seq![l]);
    assert(seq![l].drop_first() =~= Seq::<Seq<char>>::empty());
    assert(spec_unlines(seq![l]) =~= l + seq!['\n']);
}

/// `spec_unlines` inverts `spec_lines` on texts ending in a newline.
pub proof fn lemma_unlines_lines(s: Seq<char>)
    requires
        s.len() > 0 ==> s.last() == '\n',
    ensures
        spec_unlines(spec_lines(s)) == s,
    decreases s.len(),
{
    if s.len() == 0 {
        assert(spec_unlines(spec_lines(s)) =~= s);
    } else if s[0] == '\n' {
        let rest = s.drop_first();
        assert(rest.len() > 0 ==> rest.last() == '\n');
        lemma_unlines_lines(rest);
        let ls = spec_lines(s);
        assert(ls[0] == Seq::<char>::empty());
        assert(ls.drop_first() =~= spec_lines(rest));
        assert(spec_unlines(ls) =~= s);
    } else {
        let rest = s.drop_first();
        assert(s.last() == '\n');
        assert(rest.len() > 0);
        assert(rest.last() == s.last());
        lemma_unlines_lines(rest);
        let inner = spec_lines(rest);
        assert(inner.len() > 0) by {
            if inner.len() == 0 {
                assert(spec_unlines(inner) =~= Seq::<char>::empty());
            }
        }
        let ls = spec_lines(s);
        assert(ls[0] == seq![s[0]] + inner[0]);
        assert(ls.drop_first() =~= inner.drop_first());
        assert(spec_unlines(inner) == inner[0] + seq!['\n'] + spec_unlines(inner.drop_first()));
        assert(spec_unlines(ls) == ls[0] + seq!['\n'] + spec_unlines(ls.drop_first()));
        assert(spec_unlines(ls) =~= seq![s[0]] + spec_unlines(inner));
        assert(seq![s[0]] + rest =~= s);
    }
}

/// Splits a text into its lines; the executable form of `spec_lines`.
pub fn split_lines(s: &str) -> (v: Vec<String>)
    ensures
        v.deep_view() == spec_lines(s@),
        forall|i: int| 0 <= i < v.len() ==> !has_newline(#[trigger] v.deep_view()[i]),
{
    let n = s.unicode_len();
    let mut v: Vec<String> = Vec::new();
    proof {
        assert(v.deep_view() =~= Seq::<Seq<char>>::empty());
        assert(s@.skip(0) =~= s@);
        assert(spec_lines(s@) =~= v.deep_view() + spec_lines(s@.skip(0)));
    }
    let mut start: usize = 0;
    let mut i: usize = 0;
    while i < n
        invariant
            n == s@.len(),
            start <= i <= n,
            spec_lines(s@) == v.deep_view() + spec_lines(s@.skip(start as int)),
            forall|k: int| start <= k < i ==> s@[k] != '\n',
            forall|k: int| 0 <= k < v.len() ==> !has_newline(#[trigger] v.deep_view()[k]),
        decreases n - i,
    {
        if s.get_char(i) == '\n' {
            let line = String::from_str(s.substring_char(start, i));
            let ghost pre = v.deep_view();
            v.push(line);
            proof {
                let t = s@.subrange(start as int, i as int);
                assert(!has_newline(t));
                assert(line@ == t);
                assert(s@.skip(start as int) =~= t + seq!['\n'] + s@.skip(i + 1));
                lemma_lines_step(t, s@.skip(i + 1));
                assert(v.deep_view() =~= pre.push(line@));
                assert(v.deep_view() + spec_lines(s@.skip(i + 1))
                    =~= pre + (seq![t] + spec_lines(s@.skip(i + 1))));
            }
            start = i + 1;
        }
        i += 1;
    }
    if start < n {
        let line = String::from_str(s.substring_char(start, n));
        let ghost pre = v.deep_view();
        v.push(line);
        proof {
            let t = s@.subrange(start as int, n as int);
            assert(t =~= s@.skip(start as int));
            assert(!has_newline(t));
            lemma_lines_single(t);
            assert(v.deep_view() =~= pre.push(line@));
            assert(v.deep_view() =~= pre + seq![t]);
            assert(v.deep_view() =~= spec_lines(s@));
        }
    } else {
        proof {
            assert(s@.skip(start as int) =~= Seq::<char>::empty());
            assert(spec_lines(s@.skip(start as int)) =~= Seq::<Seq<char>>::empty());
            assert(v.deep_view() + spec_lines(s@.skip(start as int)) =~= v.deep_view());
            assert(v.deep_view() =~= spec_lines(s@));
        }
    }
    v
}

} // verus!
