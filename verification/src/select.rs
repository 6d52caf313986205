//! The file selection engine: given the candidate files of a directory
//! walk, keep those that survive the always-exclude set, the layered ignore
//! rules and the extension filter, and return their relative paths in
//! lexicographic order, so that the bundle is deterministic.

use vstd::prelude::*;
use vstd::multiset::Multiset;
use vstd::relations::sorted_by;
use vstd::string::StrSliceExecFns;

use crate::hints::extension_of;
use crate::hints::spec_extension;
use crate::rules::spec_excluded;
use crate::rules::RuleSet;
use crate::rules::RuleSetModel;
use crate::text::lemma_filter_take_all;
use crate::text::lemma_filter_take_step;
use crate::text::lemma_lex_le_total;
use crate::text::lemma_lex_le_trans;
use crate::text::lex_le;
use crate::text::lex_le_str;
use crate::text::lex_leq;
use crate::text::str_eq;

verus! {

broadcast use vstd::seq_lib::group_to_multiset_ensures;

/// ASCII lower case of one character.
pub open spec fn spec_lower_char(c: char) -> char {
    if c == 'A' { 'a' } else if c == 'B' { 'b' } else if c == 'C' { 'c' }
    else if c == 'D' { 'd' } else if c == 'E' { 'e' } else if c == 'F' { 'f' }
    else if c == 'G' { 'g' } else if c == 'H' { 'h' } else if c == 'I' { 'i' }
    else if c == 'J' { 'j' } else if c == 'K' { 'k' } else if c == 'L' { 'l' }
    else if c == 'M' { 'm' } else if c == 'N' { 'n' } else if c == 'O' { 'o' }
    else if c == 'P' { 'p' } else if c == 'Q' { 'q' } else if c == 'R' { 'r' }
    else if c == 'S' { 's' } else if c == 'T' { 't' } else if c == 'U' { 'u' }
    else if c == 'V' { 'v' } else if c == 'W' { 'w' } else if c == 'X' { 'x' }
    else if c == 'Y' { 'y' } else if c == 'Z' { 'z' } else { c }
}

/// ASCII lower case of a character sequence.
pub open spec fn spec_lower(s: Seq<char>) -> Seq<char> {
    s.map_values(|c: char| spec_lower_char(c))
}

fn to_lower_char(c: char) -> (r: char)
    ensures
        r == spec_lower_char(c),
{
    match c {
        'A' => 'a', 'B' => 'b', 'C' => 'c', 'D' => 'd', 'E' => 'e', 'F' => 'f',
        'G' => 'g', 'H' => 'h', 'I' => 'i', 'J' => 'j', 'K' => 'k', 'L' => 'l',
        'M' => 'm', 'N' => 'n', 'O' => 'o', 'P' => 'p', 'Q' => 'q', 'R' => 'r',
        'S' => 's', 'T' => 't', 'U' => 'u', 'V' => 'v', 'W' => 'w', 'X' => 'x',
        'Y' => 'y', 'Z' => 'z', _ => c,
    }
}

/// Case-insensitive equality on views.
pub fn lower_eq(a: &str, b: &str) -> (r: bool)
    ensures
        r == (spec_lower(a@) == spec_lower(b@)),
{
    let na = a.unicode_len();
    let nb = b.unicode_len();
    if na != nb {
        proof {
            assert(spec_lower(a@).len() != spec_lower(b@).len());
        }
        return false;
    }
    let mut i: usize = 0;
    while i < na
        invariant
            na == a@.len(),
            nb == b@.len(),
            na == nb,
            i <= na,
            forall|k: int| 0 <= k < i ==> spec_lower(a@)[k] == spec_lower(b@)[k],
        decreases na - i,
    {
        if to_lower_char(a.get_char(i)) != to_lower_char(b.get_char(i)) {
            proof {
                assert(spec_lower(a@)[i as int] != spec_lower(b@)[i as int]);
            }
            return false;
        }
        i += 1;
    }
    proof {
        assert(spec_lower(a@) =~= spec_lower(b@));
    }
    true
}

/// The extension filter admits a path: an empty filter admits everything,
/// otherwise the path's extension must appear in the filter, compared
/// case-insensitively.
pub open spec fn spec_ext_ok(p: Seq<char>, filter: Seq<Seq<char>>) -> bool {
    filter.len() == 0 || match spec_extension(p) {
        Some(e) => exists|i: int|
            0 <= i < filter.len() && spec_lower(#[trigger] filter[i]) == spec_lower(e),
        None => false,
    }
}

/// Decides the extension filter for one path.
pub fn ext_ok(path: &str, filter: &Vec<String>) -> (r: bool)
    ensures
        r == spec_ext_ok(path@, filter.deep_view()),
{
    if filter.len() == 0 {
        return true;
    }
    match extension_of(path) {
        None => false,
        Some(e) => {
            let n = filter.len();
            let mut i: usize = 0;
            while i < n
                invariant
                    n == filter.len(),
                    i <= n,
                    spec_extension(path@) == Some(e@),
                    forall|k: int|
                        0 <= k < i ==> spec_lower(#[trigger] filter.deep_view()[k])
                            != spec_lower(e@),
                decreases n - i,
            {
                if lower_eq(filter[i].as_str(), e.as_str()) {
                    proof {
                        assert(filter.deep_view()[i as int] == filter@[i as int]@);
                        assert(spec_lower(filter.deep_view()[i as int]) == spec_lower(e@));
                    }
                    return true;
                }
                i += 1;
            }
            false
        },
    }
}

/// Membership of a string in a list, on views.
pub fn in_list(list: &Vec<String>, s: &str) -> (r: bool)
    ensures
        r == list.deep_view().contains(s@),
{
    let n = list.len();
    let mut i: usize = 0;
    while i < n
        invariant
            n == list.len(),
            i <= n,
            forall|k: int| 0 <= k < i ==> list.deep_view()[k] != s@,
        decreases n - i,
    {
        if str_eq(list[i].as_str(), s) {
            assert(list.deep_view()[i as int] == s@);
            return true;
        }
        i += 1;
    }
    false
}

/// One file met during the walk: its slash-separated path relative to the
/// root, and its canonical absolute path, used only against the
/// always-exclude set.
pub struct Candidate {
    pub rel_path: String,
    pub abs_path: String,
}

pub ghost struct CandidateModel {
    pub rel: Seq<char>,
    pub abs: Seq<char>,
}

impl View for Candidate {
    type V = CandidateModel;

    open spec fn view(&self) -> CandidateModel {
        CandidateModel { rel: self.rel_path@, abs: self.abs_path@ }
    }
}

impl DeepView for Candidate {
    type V = CandidateModel;

    open spec fn deep_view(&self) -> CandidateModel {
        self.view()
    }
}

/// A candidate survives selection: not in the always-exclude set, not
/// excluded by the ignore rules, and admitted by the extension filter.
pub open spec fn spec_keep(
    rs: RuleSetModel,
    filter: Seq<Seq<char>>,
    excl: Seq<Seq<char>>,
    c: CandidateModel,
) -> bool {
    !excl.contains(c.abs) && !spec_excluded(rs, c.rel) && spec_ext_ok(c.rel, filter)
}

/// `spec_keep` as a predicate value, for use with `filter`.
pub open spec fn keep_pred(
    rs: RuleSetModel,
    filter: Seq<Seq<char>>,
    excl: Seq<Seq<char>>,
) -> spec_fn(CandidateModel) -> bool {
    |c: CandidateModel| spec_keep(rs, filter, excl, c)
}

/// The relative path of a candidate, as a map function.
pub open spec fn rel_of() -> spec_fn(CandidateModel) -> Seq<char> {
    |c: CandidateModel| c.rel
}

/// The relative paths of the candidates that survive selection, in
/// candidate order.
pub open spec fn spec_selected_paths(
    cands: Seq<CandidateModel>,
    rs: RuleSetModel,
    filter: Seq<Seq<char>>,
    excl: Seq<Seq<char>>,
) -> Seq<Seq<char>> {
    cands.filter(keep_pred(rs, filter, excl)).map_values(rel_of())
}

/// Inserts a path into a sorted vector, keeping it sorted.
fn insert_sorted(v: &mut Vec<String>, x: String)
    requires
        sorted_by(old(v).deep_view(), lex_leq()),
    ensures
        sorted_by(final(v).deep_view(), lex_leq()),
        final(v).deep_view().to_multiset() == old(v).deep_view().to_multiset().insert(x@),
{
    let n = v.len();
    let mut k: usize = 0;
    while k < n && lex_le_str(v[k].as_str(), x.as_str())
        invariant
            n == v.len(),
            k <= n,
            v == old(v),
            forall|m: int| 0 <= m < k ==> lex_le(#[trigger] v.deep_view()[m], x@),
        decreases n - k,
    {
        k += 1;
    }
    let ghost od = v.deep_view();
    v.insert(k, x);
    proof {
        let nd = v.deep_view();
        assert(nd =~= od.take(k as int) + seq![x@] + od.skip(k as int));
        assert forall|i: int, j: int| 0 <= i < j < od.len() implies lex_le(
            #[trigger] od[i],
            #[trigger] od[j],
        ) by {
            assert(lex_leq()(od[i], od[j]));
        }
        assert(k < n ==> lex_le(x@, od[k as int])) by {
            if k < n {
                lemma_lex_le_total(od[k as int], x@);
            }
        }
        assert forall|i: int, j: int| 0 <= i < j < nd.len() implies lex_leq()(
            nd[i],
            nd[j],
        ) by {
            let ki = k as int;
            if i < ki && j < ki {
                assert(lex_le(od[i], od[j]));
            } else if i < ki && j == ki {
                assert(lex_le(od[i], x@));
            } else if i < ki && j > ki {
                assert(lex_le(od[i], od[j - 1]));
            } else if i == ki && j > ki {
                assert(lex_le(x@, od[ki]));
                if j - 1 > ki {
                    assert(lex_le(od[ki], od[j - 1]));
                    lemma_lex_le_trans(x@, od[ki], od[j - 1]);
                }
            } else {
                assert(i > ki && j > ki);
                assert(lex_le(od[i - 1], od[j - 1]));
            }
            assert(lex_le(nd[i], nd[j]));
        }
        vstd::seq_lib::lemma_multiset_commutative(od.take(k as int) + seq![x@], od.skip(k as int));
        vstd::seq_lib::lemma_multiset_commutative(od.take(k as int), seq![x@]);
        vstd::seq_lib::lemma_multiset_commutative(od.take(k as int), od.skip(k as int));
        assert(od.take(k as int) + od.skip(k as int) =~= od);
        assert(seq![x@] =~= Seq::<Seq<char>>::empty().push(x@));
        assert(seq![x@].to_multiset() =~= Multiset::<Seq<char>>::empty().insert(x@));
        assert(nd.to_multiset() =~= od.to_multiset().insert(x@));
    }
}

/// Selects the surviving relative paths and returns them in lexicographic
/// order: a path is in the result as often as a surviving candidate carries
/// it, and the order is a pure sort, independent of walk order.
pub fn select_files(
    candidates: &Vec<Candidate>,
    rules: &RuleSet,
    extension_filter: &Vec<String>,
    always_exclude: &Vec<String>,
) -> (selected: Vec<String>)
    requires
        forall|i: int|
            0 <= i < candidates.len() ==> ((#[trigger] candidates.deep_view()[i]).rel.len() == 0
                || candidates.deep_view()[i].rel[0] != '/'),
    ensures
        sorted_by(selected.deep_view(), lex_leq()),
        selected.deep_view().to_multiset() == spec_selected_paths(
            candidates.deep_view(),
            rules@,
            extension_filter.deep_view(),
            always_exclude.deep_view(),
        ).to_multiset(),
{
    let ghost rs = rules@;
    let ghost filt = extension_filter.deep_view();
    let ghost excl = always_exclude.deep_view();
    let ghost cands = candidates.deep_view();
    let mut selected: Vec<String> = Vec::new();
    proof {
        assert(selected.deep_view() =~= Seq::<Seq<char>>::empty());
        assert(cands.take(0).filter(keep_pred(rs, filt, excl)) =~= Seq::<CandidateModel>::empty());
        assert(cands.take(0).filter(keep_pred(rs, filt, excl)).map_values(rel_of())
            =~= Seq::<Seq<char>>::empty());
    }
    let n = candidates.len();
    let mut i: usize = 0;
    while i < n
        invariant
            n == candidates.len(),
            i <= n,
            rs == rules@,
            filt == extension_filter.deep_view(),
            excl == always_exclude.deep_view(),
            cands == candidates.deep_view(),
            forall|k: int|
                0 <= k < n ==> ((#[trigger] cands[k]).rel.len() == 0 || cands[k].rel[0] != '/'),
            sorted_by(selected.deep_view(), lex_leq()),
            selected.deep_view().to_multiset() == cands.take(i as int).filter(
                keep_pred(rs, filt, excl),
            ).map_values(rel_of()).to_multiset(),
        decreases n - i,
    {
        let c = &candidates[i];
        proof {
            assert(cands[i as int] == c@);
        }
        let keep = if in_list(always_exclude, c.abs_path.as_str()) {
            false
        } else if rules.excluded(c.rel_path.as_str()) {
            false
        } else {
            ext_ok(c.rel_path.as_str(), extension_filter)
        };
        proof {
            assert(keep == spec_keep(rs, filt, excl, c@));
            assert(keep_pred(rs, filt, excl)(c@) == spec_keep(rs, filt, excl, c@));
            lemma_filter_take_step(cands, keep_pred(rs, filt, excl), i as int);
        }
        let ghost pre_filtered = cands.take(i as int).filter(keep_pred(rs, filt, excl));
        if keep {
            proof {
                assert(cands.take(i + 1).filter(keep_pred(rs, filt, excl)) == pre_filtered.push(
                    c@,
                ));
                assert(pre_filtered.push(c@).map_values(rel_of()) =~= pre_filtered.map_values(
                    rel_of(),
                ).push(c@.rel));
            }
            insert_sorted(&mut selected, c.rel_path.clone());
        } else {
            proof {
                assert(cands.take(i + 1).filter(keep_pred(rs, filt, excl)) == pre_filtered);
            }
        }
        i += 1;
    }
    proof {
        lemma_filter_take_all(cands, keep_pred(rs, filt, excl));
    }
    selected
}

proof fn lemma_filter_membership<A>(s: Seq<A>, p: spec_fn(A) -> bool, i: int)
    requires
        0 <= i < s.filter(p).len(),
    ensures
        s.contains(s.filter(p)[i]),
    decreases s.len(),
{
    reveal(Seq::filter);
    let f = s.filter(p);
    let s1 = s.drop_last();
    let f1 = s1.filter(p);
    if p(s.last()) && i == f.len() - 1 {
        assert(s[s.len() - 1] == f[i]);
    } else {
        lemma_filter_membership(s1, p, i);
        assert(f[i] == s1.filter(p)[i]);
        let w = choose|w: int| 0 <= w < s1.len() && s1[w] == f[i];
        assert(s[w] == f[i]);
    }
}

proof fn lemma_filter_empty<A>(p: spec_fn(A) -> bool)
    ensures
        Seq::<A>::empty().filter(p) == Seq::<A>::empty(),
{
    reveal(Seq::filter);
}

proof fn lemma_filter_singleton<A>(x: A, p: spec_fn(A) -> bool)
    ensures
        seq![x].filter(p) == if p(x) {
            seq![x]
        } else {
            Seq::<A>::empty()
        },
{
    reveal(Seq::filter);
    lemma_filter_empty(p);
    assert(seq![x].drop_last() =~= Seq::<A>::empty());
    assert(seq![x].last() == x);
    if p(x) {
        assert(seq![x].filter(p) =~= seq![x]);
    } else {
        assert(seq![x].filter(p) =~= Seq::<A>::empty());
    }
}

proof fn lemma_filter_remove<A>(s: Seq<A>, p: spec_fn(A) -> bool, j: int)
    requires
        0 <= j < s.len(),
    ensures
        s.filter(p).to_multiset() == if p(s[j]) {
            s.remove(j).filter(p).to_multiset().insert(s[j])
        } else {
            s.remove(j).filter(p).to_multiset()
        },
{
    broadcast use vstd::multiset::group_multiset_axioms;

    let pre = s.take(j);
    let post = s.skip(j + 1);
    let mid = seq![s[j]];
    assert(s =~= pre + (mid + post));
    Seq::filter_distributes_over_add(pre, mid + post, p);
    Seq::filter_distributes_over_add(mid, post, p);
    Seq::filter_distributes_over_add(pre, post, p);
    lemma_filter_singleton(s[j], p);
    assert(s.remove(j) =~= pre + post);
    vstd::seq_lib::lemma_multiset_commutative(pre.filter(p), (mid + post).filter(p));
    vstd::seq_lib::lemma_multiset_commutative(mid.filter(p), post.filter(p));
    vstd::seq_lib::lemma_multiset_commutative(pre.filter(p), post.filter(p));
    if p(s[j]) {
        assert(mid.filter(p) =~= Seq::<A>::empty().push(s[j]));
        assert(s.filter(p).to_multiset() =~= s.remove(j).filter(p).to_multiset().insert(s[j]));
    } else {
        assert(mid.filter(p).to_multiset() =~= Multiset::<A>::empty());
        assert(s.filter(p).to_multiset() =~= s.remove(j).filter(p).to_multiset());
    }
}

/// `filter` respects reordering: sequences with the same multiset of
/// elements have the same multiset of surviving elements.
pub proof fn lemma_filter_permutation<A>(a: Seq<A>, b: Seq<A>, p: spec_fn(A) -> bool)
    requires
        a.to_multiset() == b.to_multiset(),
    ensures
        a.filter(p).to_multiset() == b.filter(p).to_multiset(),
    decreases a.len(),
{
    broadcast use vstd::multiset::group_multiset_axioms;

    if a.len() == 0 {
        assert(b.to_multiset().len() == 0);
        assert(b.len() == 0);
        assert(a.filter(p) =~= b.filter(p));
    } else {
        let x = a.last();
        let a1 = a.drop_last();
        assert(a[a.len() - 1] == x);
        assert(a.contains(x));
        assert(b.to_multiset().count(x) > 0);
        assert(b.contains(x));
        let j = choose|j: int| 0 <= j < b.len() && b[j] == x;
        let b1 = b.remove(j);
        assert(a.remove(a.len() - 1) =~= a1);
        assert(a1.to_multiset() == a.to_multiset().remove(x));
        assert(b1.to_multiset() == b.to_multiset().remove(x));
        lemma_filter_permutation(a1, b1, p);
        lemma_filter_remove(a, p, a.len() - 1);
        lemma_filter_remove(b, p, j);
    }
}

/// `map_values` respects reordering in the same sense.
pub proof fn lemma_map_permutation<A, B>(a: Seq<A>, b: Seq<A>, f: spec_fn(A) -> B)
    requires
        a.to_multiset() == b.to_multiset(),
    ensures
        a.map_values(f).to_multiset() == b.map_values(f).to_multiset(),
    decreases a.len(),
{
    broadcast use vstd::multiset::group_multiset_axioms;

    if a.len() == 0 {
        assert(b.to_multiset().len() == 0);
        assert(b.len() == 0);
        assert(a.map_values(f) =~= b.map_values(f));
    } else {
        let x = a.last();
        let a1 = a.drop_last();
        assert(a[a.len() - 1] == x);
        assert(a.contains(x));
        assert(b.to_multiset().count(x) > 0);
        assert(b.contains(x));
        let j = choose|j: int| 0 <= j < b.len() && b[j] == x;
        let b1 = b.remove(j);
        assert(a.remove(a.len() - 1) =~= a1);
        assert(a1.to_multiset() == a.to_multiset().remove(x));
        assert(b1.to_multiset() == b.to_multiset().remove(x));
        lemma_map_permutation(a1, b1, f);
        assert(a.map_values(f) =~= a1.map_values(f).push(f(x)));
        let pre = b.take(j);
        let post = b.skip(j + 1);
        assert(b =~= pre + (seq![x] + post));
        assert(b.map_values(f) =~= pre.map_values(f) + (seq![f(x)] + post.map_values(f)));
        assert(b1 =~= pre + post);
        assert(b1.map_values(f) =~= pre.map_values(f) + post.map_values(f));
        vstd::seq_lib::lemma_multiset_commutative(
            pre.map_values(f),
            seq![f(x)] + post.map_values(f),
        );
        vstd::seq_lib::lemma_multiset_commutative(seq![f(x)], post.map_values(f));
        vstd::seq_lib::lemma_multiset_commutative(pre.map_values(f), post.map_values(f));
        assert(seq![f(x)] =~= Seq::<B>::empty().push(f(x)));
        assert(b.map_values(f).to_multiset() =~= b1.map_values(f).to_multiset().insert(f(x)));
    }
}

/// Selection is deterministic: whatever order a directory walk yields the
/// same candidates in, any two sorted results that carry the selected
/// multiset of paths are byte-for-byte identical.
pub proof fn lemma_selection_deterministic(
    c1: Seq<CandidateModel>,
    c2: Seq<CandidateModel>,
    rs: RuleSetModel,
    filter: Seq<Seq<char>>,
    excl: Seq<Seq<char>>,
    r1: Seq<Seq<char>>,
    r2: Seq<Seq<char>>,
)
    requires
        c1.to_multiset() == c2.to_multiset(),
        sorted_by(r1, lex_leq()),
        sorted_by(r2, lex_leq()),
        r1.to_multiset() == spec_selected_paths(c1, rs, filter, excl).to_multiset(),
        r2.to_multiset() == spec_selected_paths(c2, rs, filter, excl).to_multiset(),
    ensures
        r1 == r2,
{
    lemma_filter_permutation(c1, c2, keep_pred(rs, filter, excl));
    lemma_map_permutation(
        c1.filter(keep_pred(rs, filter, excl)),
        c2.filter(keep_pred(rs, filter, excl)),
        rel_of(),
    );
    crate::text::lemma_lex_leq_total_ordering();
    vstd::seq_lib::lemma_sorted_unique(r1, r2, lex_leq());
    assert(r1 =~= r2);
}

/// A path on the always-exclude set never appears in the selection: among
/// candidates with distinct relative paths, one whose absolute path is
/// always excluded contributes nothing to the result.
pub proof fn lemma_always_excluded_absent(
    cands: Seq<CandidateModel>,
    rs: RuleSetModel,
    filter: Seq<Seq<char>>,
    excl: Seq<Seq<char>>,
    selected: Seq<Seq<char>>,
    j: int,
)
    requires
        selected.to_multiset() == spec_selected_paths(cands, rs, filter, excl).to_multiset(),
        forall|i1: int, i2: int|
            0 <= i1 < i2 < cands.len() ==> (#[trigger] cands[i1]).rel != (#[trigger] cands[i2]).rel,
        0 <= j < cands.len(),
        excl.contains(cands[j].abs),
    ensures
        !selected.contains(cands[j].rel),
{
    broadcast use vstd::multiset::group_multiset_axioms;

    let p = cands[j].rel;
    let pred = keep_pred(rs, filter, excl);
    if selected.contains(p) {
        assert(selected.to_multiset().count(p) > 0);
        let mapped = spec_selected_paths(cands, rs, filter, excl);
        assert(mapped.to_multiset().count(p) > 0);
        assert(mapped.contains(p));
        let m = choose|m: int| 0 <= m < mapped.len() && mapped[m] == p;
        let filtered = cands.filter(pred);
        assert(mapped[m] == rel_of()(filtered[m]));
        assert(filtered[m].rel == p);
        cands.lemma_filter_pred(pred, m);
        assert(pred(filtered[m]));
        assert(!excl.contains(filtered[m].abs));
        lemma_filter_membership(cands, pred, m);
        let w = choose|w: int| 0 <= w < cands.len() && cands[w] == filtered[m];
        assert(cands[w].rel == cands[j].rel);
        assert(w == j);
        assert(false);
    }
}

/// When no candidate survives, the selection is empty; in particular an
/// empty directory yields an empty selection.
pub proof fn lemma_empty_selection(
    cands: Seq<CandidateModel>,
    rs: RuleSetModel,
    filter: Seq<Seq<char>>,
    excl: Seq<Seq<char>>,
    selected: Seq<Seq<char>>,
)
    requires
        selected.to_multiset() == spec_selected_paths(cands, rs, filter, excl).to_multiset(),
        forall|i: int| 0 <= i < cands.len() ==> !spec_keep(rs, filter, excl, #[trigger] cands[i]),
    ensures
        selected.len() == 0,
{
    let pred = keep_pred(rs, filter, excl);
    let filtered = cands.filter(pred);
    if filtered.len() > 0 {
        cands.lemma_filter_pred(pred, 0);
        assert(pred(filtered[0]));
        lemma_filter_membership(cands, pred, 0);
        let w = choose|w: int| 0 <= w < cands.len() && cands[w] == filtered[0];
        assert(!spec_keep(rs, filter, excl, cands[w]));
        assert(false);
    }
    assert(filtered.map_values(rel_of()).len() == 0);
    assert(selected.to_multiset().len() == 0);
}

} // verus!
