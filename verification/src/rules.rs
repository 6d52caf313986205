//! Layered ignore rules: pattern-line cleaning, the hidden-file convention,
//! and an ordered list of gitignore-style pattern layers evaluated with
//! last-match-wins semantics, where a later layer (or a `!` pattern inside
//! one) can re-include a path excluded by an earlier one.
//!
//! Glob matching itself is delegated to the `ignore` crate behind a single
//! trusted wrapper; everything around it is verified.

use vstd::prelude::*;
use vstd::string::StrSliceExecFns;
use vstd::string::StringExecFns;

use crate::text::lemma_filter_take_all;
use crate::text::lemma_filter_take_step;
use crate::text::spec_lines;
use crate::text::spec_trim;
use crate::text::split_lines;
use crate::text::str_starts_with;
use crate::text::trim_str;

verus! {

/// What one compiled pattern set says of one relative path: `Some(true)`
/// when it is ignored, `Some(false)` when a negation re-includes it, `None`
/// when no pattern applies.
pub uninterp spec fn gitignore_verdict(patterns: Seq<Seq<char>>, path: Seq<char>) -> Option<bool>;

/// Relies on `ignore::gitignore`: `GitignoreBuilder::new` with an empty root,
/// `add_line` for each pattern line, `build`, and
/// `Gitignore::matched_path_or_any_parents` on the path and its parent
/// directories. The verdict is a function of the pattern lines and the
/// queried path alone; `matched_path_or_any_parents` panics only on a path
/// with a root, which the precondition rules out.
#[verifier::external_body]
fn gitignore_match(patterns: &Vec<String>, path: &str) -> (verdict: Option<bool>)
    requires
        path@.len() == 0 || path@[0] != '/',
    ensures
        verdict == gitignore_verdict(patterns.deep_view(), path@),
{
    let mut builder = ignore::gitignore::GitignoreBuilder::new("");
    for line in patterns.iter() {
        let _ = builder.add_line(None, line);
    }
    match builder.build() {
        Err(_) => None,
        Ok(matcher) => match matcher.matched_path_or_any_parents(path, false) {
            ignore::Match::None => None,
            ignore::Match::Ignore(_) => Some(true),
            ignore::Match::Whitelist(_) => Some(false),
        },
    }
}

/// Toggles the negation marker on a single ignore pattern.
pub open spec fn spec_invert_pattern(p: Seq<char>) -> Seq<char> {
    if p.len() > 0 && p[0] == '!' {
        p.drop_first()
    } else {
        seq!['!'] + p
    }
}

/// Removes a leading `'!'` from a pattern, or prepends one.
pub fn invert_patern(pattern: &str) -> (r: String)
    ensures
        r@ == spec_invert_pattern(pattern@),
{
    let n = pattern.unicode_len();
    if n > 0 && pattern.get_char(0) == '!' {
        let r = String::from_str(pattern.substring_char(1, n));
        proof {
            assert(pattern@.subrange(1, n as int) =~= pattern@.drop_first());
        }
        r
    } else {
        let mut r = String::from_str("!");
        r.append(pattern);
        proof {
            reveal_strlit("!");
            assert("!"@ =~= seq!['!']);
        }
        r
    }
}

/// A pattern line that carries a rule: not blank, not a `#` comment.
pub open spec fn spec_keep_pattern_line(l: Seq<char>) -> bool {
    l.len() > 0 && l[0] != '#' && spec_trim(l).len() > 0
}

/// `spec_keep_pattern_line` as a predicate value, for use with `filter`.
pub open spec fn keep_pattern_pred() -> spec_fn(Seq<char>) -> bool {
    |l: Seq<char>| spec_keep_pattern_line(l)
}

/// The rule-carrying lines of a pattern text.
pub open spec fn spec_clean_lines(text: Seq<char>) -> Seq<Seq<char>> {
    spec_lines(text).filter(keep_pattern_pred())
}

/// Splits a pattern text into lines and drops comments and blank lines;
/// unparseable glob lines are left for the matcher to skip.
pub fn clean_pattern_lines(text: &str) -> (v: Vec<String>)
    ensures
        v.deep_view() == spec_clean_lines(text@),
{
    let ghost pred = keep_pattern_pred();
    let lines = split_lines(text);
    let mut v: Vec<String> = Vec::new();
    proof {
        assert(v.deep_view() =~= Seq::<Seq<char>>::empty());
        assert(lines.deep_view().take(0).filter(pred) =~= Seq::<Seq<char>>::empty());
    }
    let n = lines.len();
    let mut i: usize = 0;
    while i < n
        invariant
            n == lines.len(),
            i <= n,
            v.deep_view() == lines.deep_view().take(i as int).filter(keep_pattern_pred()),
        decreases n - i,
    {
        let line = &lines[i];
        let keep = if line.as_str().unicode_len() > 0 {
            let first = line.as_str().get_char(0);
            if first == '#' {
                false
            } else {
                let t = trim_str(line.as_str());
                t.as_str().unicode_len() > 0
            }
        } else {
            false
        };
        proof {
            assert(lines.deep_view()[i as int] == line@);
            assert(keep == spec_keep_pattern_line(line@));
            assert(keep_pattern_pred()(line@) == spec_keep_pattern_line(line@));
            lemma_filter_take_step(lines.deep_view(), keep_pattern_pred(), i as int);
        }
        if keep {
            let ghost pre = v.deep_view();
            v.push(line.clone());
            proof {
                assert(v.deep_view() =~= pre.push(line@));
            }
        }
        i += 1;
    }
    proof {
        lemma_filter_take_all(lines.deep_view(), pred);
    }
    v
}

/// A path is hidden when some component of it begins with `'.'`.
pub open spec fn spec_hidden_path(p: Seq<char>) -> bool {
    (p.len() > 0 && p[0] == '.') || exists|i: int|
        0 <= i < p.len() - 1 && #[trigger] p[i] == '/' && p[i + 1] == '.'
}

/// Decides the hidden-file convention for a slash-separated relative path.
pub fn is_hidden_path(path: &str) -> (r: bool)
    ensures
        r == spec_hidden_path(path@),
{
    let n = path.unicode_len();
    if n > 0 && path.get_char(0) == '.' {
        return true;
    }
    let mut i: usize = 0;
    while n - i > 1
        invariant
            n == path@.len(),
            i <= n,
            forall|k: int| 0 <= k < i ==> !(#[trigger] path@[k] == '/' && path@[k + 1] == '.'),
        decreases n - i,
    {
        if path.get_char(i) == '/' && path.get_char(i + 1) == '.' {
            assert(spec_hidden_path(path@));
            return true;
        }
        i += 1;
    }
    false
}

/// One ignore layer: a set of pattern lines applying below a directory
/// prefix (empty for the root, otherwise ending in `'/'`).
pub struct IgnoreLayer {
    pub prefix: String,
    pub patterns: Vec<String>,
}

pub ghost struct LayerModel {
    pub prefix: Seq<char>,
    pub patterns: Seq<Seq<char>>,
}

impl View for IgnoreLayer {
    type V = LayerModel;

    open spec fn view(&self) -> LayerModel {
        LayerModel { prefix: self.prefix@, patterns: self.patterns.deep_view() }
    }
}

impl DeepView for IgnoreLayer {
    type V = LayerModel;

    open spec fn deep_view(&self) -> LayerModel {
        self.view()
    }
}

/// The compiled rule set: the hidden-file convention plus pattern layers in
/// increasing specificity. Evaluation keeps the last layer's verdict.
pub struct RuleSet {
    pub hidden_rule: bool,
    pub layers: Vec<IgnoreLayer>,
}

pub ghost struct RuleSetModel {
    pub hidden_rule: bool,
    pub layers: Seq<LayerModel>,
}

impl View for RuleSet {
    type V = RuleSetModel;

    open spec fn view(&self) -> RuleSetModel {
        RuleSetModel { hidden_rule: self.hidden_rule, layers: self.layers.deep_view() }
    }
}

impl DeepView for RuleSet {
    type V = RuleSetModel;

    open spec fn deep_view(&self) -> RuleSetModel {
        self.view()
    }
}

/// The raw text of one gitignore-style file, tagged with the directory
/// prefix (empty, or ending in `'/'`) it governs.
pub struct IgnoreSource {
    pub prefix: String,
    pub text: String,
}

pub ghost struct SourceModel {
    pub prefix: Seq<char>,
    pub text: Seq<char>,
}

impl View for IgnoreSource {
    type V = SourceModel;

    open spec fn view(&self) -> SourceModel {
        SourceModel { prefix: self.prefix@, text: self.text@ }
    }
}

impl DeepView for IgnoreSource {
    type V = SourceModel;

    open spec fn deep_view(&self) -> SourceModel {
        self.view()
    }
}

/// The pattern sources a rule set is compiled from, in increasing
/// specificity: the global ignore file, the repository exclude file, the
/// repository's gitignore files from root to leaf, and finally the
/// user-supplied pattern text.
pub struct IgnoreSources {
    pub global_ignore: Option<String>,
    pub repo_exclude: Option<String>,
    pub gitignores: Vec<IgnoreSource>,
    pub user_patterns: Option<String>,
}

pub ghost struct SourcesModel {
    pub global_ignore: Option<Seq<char>>,
    pub repo_exclude: Option<Seq<char>>,
    pub gitignores: Seq<SourceModel>,
    pub user_patterns: Option<Seq<char>>,
}

impl View for IgnoreSources {
    type V = SourcesModel;

    open spec fn view(&self) -> SourcesModel {
        SourcesModel {
            global_ignore: match self.global_ignore {
                Some(t) => Some(t@),
                None => None,
            },
            repo_exclude: match self.repo_exclude {
                Some(t) => Some(t@),
                None => None,
            },
            gitignores: self.gitignores.deep_view(),
            user_patterns: match self.user_patterns {
                Some(t) => Some(t@),
                None => None,
            },
        }
    }
}

/// A root-level layer compiled from one optional pattern text.
pub open spec fn spec_opt_layer(t: Option<Seq<char>>) -> Seq<LayerModel> {
    match t {
        Some(x) => seq![LayerModel { prefix: Seq::empty(), patterns: spec_clean_lines(x) }],
        None => Seq::empty(),
    }
}

/// The layers of a compiled rule set, in evaluation order. With standard
/// filters disabled only the user-supplied patterns remain.
pub open spec fn spec_compiled_layers(standard_filters: bool, s: SourcesModel) -> Seq<LayerModel> {
    let vcs = if standard_filters {
        spec_opt_layer(s.global_ignore) + spec_opt_layer(s.repo_exclude)
            + s.gitignores.map_values(
            |g: SourceModel| LayerModel { prefix: g.prefix, patterns: spec_clean_lines(g.text) },
        )
    } else {
        Seq::empty()
    };
    vcs + spec_opt_layer(s.user_patterns)
}

impl RuleSet {
    /// Compiles the layered rule set. With `standard_filters` disabled,
    /// neither the hidden-file convention nor any VCS source is consulted.
    pub fn compile(standard_filters: bool, sources: &IgnoreSources) -> (r: RuleSet)
        ensures
            r@.hidden_rule == standard_filters,
            r@.layers == spec_compiled_layers(standard_filters, sources@),
    {
        let mut layers: Vec<IgnoreLayer> = Vec::new();
        if standard_filters {
            if let Some(text) = &sources.global_ignore {
                layers.push(
                    IgnoreLayer { prefix: String::new(), patterns: clean_pattern_lines(text.as_str()) },
                );
            }
            if let Some(text) = &sources.repo_exclude {
                layers.push(
                    IgnoreLayer { prefix: String::new(), patterns: clean_pattern_lines(text.as_str()) },
                );
            }
            let ghost mapped = sources@.gitignores.map_values(
                |g: SourceModel| LayerModel { prefix: g.prefix, patterns: spec_clean_lines(g.text) },
            );
            let ghost base = layers.deep_view();
            proof {
                assert(base =~= spec_opt_layer(sources@.global_ignore)
                    + spec_opt_layer(sources@.repo_exclude));
            }
            let n = sources.gitignores.len();
            let mut i: usize = 0;
            while i < n
                invariant
                    n == sources.gitignores.len(),
                    i <= n,
                    mapped == sources@.gitignores.map_values(
                        |g: SourceModel| LayerModel {
                            prefix: g.prefix,
                            patterns: spec_clean_lines(g.text),
                        },
                    ),
                    layers.deep_view() == base + mapped.take(i as int),
                decreases n - i,
            {
                let src = &sources.gitignores[i];
                let ghost pre = layers.deep_view();
                layers.push(
                    IgnoreLayer {
                        prefix: src.prefix.clone(),
                        patterns: clean_pattern_lines(src.text.as_str()),
                    },
                );
                proof {
                    assert(sources@.gitignores[i as int] == src@);
                    assert(layers.deep_view() =~= pre.push(
                        LayerModel { prefix: src@.prefix, patterns: spec_clean_lines(src@.text) },
                    ));
                    assert(base + mapped.take(i + 1) =~= (base + mapped.take(i as int)).push(
                        mapped[i as int],
                    ));
                }
                i += 1;
            }
            proof {
                assert(mapped.take(n as int) =~= mapped);
            }
        }
        if let Some(text) = &sources.user_patterns {
            let ghost pre = layers.deep_view();
            layers.push(
                IgnoreLayer { prefix: String::new(), patterns: clean_pattern_lines(text.as_str()) },
            );
            proof {
                assert(layers.deep_view() =~= pre + spec_opt_layer(sources@.user_patterns));
            }
        } else {
            proof {
                assert(layers.deep_view() =~= layers.deep_view()
                    + spec_opt_layer(sources@.user_patterns));
            }
        }
        let r = RuleSet { hidden_rule: standard_filters, layers };
        proof {
            assert(r@.layers =~= spec_compiled_layers(standard_filters, sources@));
        }
        r
    }
}

/// A layer speaks about a path when the path lies below the layer's prefix.
pub open spec fn spec_layer_applies(l: LayerModel, p: Seq<char>) -> bool {
    l.prefix.is_prefix_of(p) && (p.len() == l.prefix.len() || p[l.prefix.len() as int] != '/')
}

/// The verdict of one layer on one path.
pub open spec fn spec_layer_verdict(l: LayerModel, p: Seq<char>) -> Option<bool> {
    if spec_layer_applies(l, p) {
        gitignore_verdict(l.patterns, p.skip(l.prefix.len() as int))
    } else {
        None
    }
}

/// Folds the layers in order over an initial verdict, keeping the last
/// layer that speaks.
pub open spec fn spec_layers_verdict(
    layers: Seq<LayerModel>,
    p: Seq<char>,
    acc: Option<bool>,
) -> Option<bool>
    decreases layers.len(),
{
    if layers.len() == 0 {
        acc
    } else {
        let v = spec_layer_verdict(layers[0], p);
        spec_layers_verdict(layers.drop_first(), p, if v is Some { v } else { acc })
    }
}

/// The rule set's verdict on one path: the hidden-file rule gives the
/// initial verdict, and any later layer that matches replaces it.
pub open spec fn spec_rule_verdict(rs: RuleSetModel, p: Seq<char>) -> Option<bool> {
    let base = if rs.hidden_rule && spec_hidden_path(p) {
        Some(true)
    } else {
        None
    };
    spec_layers_verdict(rs.layers, p, base)
}

/// A path is excluded when the last applicable rule ignores it.
pub open spec fn spec_excluded(rs: RuleSetModel, p: Seq<char>) -> bool {
    spec_rule_verdict(rs, p) == Some(true)
}

impl RuleSet {
    /// Decides exclusion of one relative path under the layered rules.
    pub fn excluded(&self, path: &str) -> (r: bool)
        requires
            path@.len() == 0 || path@[0] != '/',
        ensures
            r == spec_excluded(self@, path@),
    {
        let n = path.unicode_len();
        let mut verdict: Option<bool> = if self.hidden_rule && is_hidden_path(path) {
            Some(true)
        } else {
            None
        };
        let m = self.layers.len();
        proof {
            assert(self@.layers.skip(0) =~= self@.layers);
        }
        let mut i: usize = 0;
        while i < m
            invariant
                n == path@.len(),
                m == self@.layers.len(),
                i <= m,
                path@.len() == 0 || path@[0] != '/',
                spec_layers_verdict(self@.layers.skip(i as int), path@, verdict)
                    == spec_rule_verdict(self@, path@),
            decreases m - i,
        {
            let layer = &self.layers[i];
            let plen = layer.prefix.as_str().unicode_len();
            let ghost layers = self@.layers;
            proof {
                assert(layers.skip(i as int)[0] == layers[i as int]);
                assert(layers.skip(i as int).drop_first() =~= layers.skip(i + 1));
            }
            let applies = if str_starts_with(path, layer.prefix.as_str()) {
                if plen == n {
                    true
                } else {
                    path.get_char(plen) != '/'
                }
            } else {
                false
            };
            assert(applies == spec_layer_applies(layers[i as int], path@));
            if applies {
                let stripped = path.substring_char(plen, n);
                proof {
                    assert(stripped@ =~= path@.skip(plen as int));
                }
                let v = gitignore_match(&layer.patterns, stripped);
                assert(v == spec_layer_verdict(layers[i as int], path@));
                if v.is_some() {
                    verdict = v;
                }
            } else {
                assert(spec_layer_verdict(layers[i as int], path@) is None);
            }
            i += 1;
        }
        proof {
            assert(self@.layers.skip(m as int) =~= Seq::<LayerModel>::empty());
        }
        verdict == Some(true)
    }
}

} // verus!
