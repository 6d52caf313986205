//! The explicit bundle parser: scans the document line by line for the
//! structural pattern of a block — a `## path` header line immediately
//! followed by an opening fence, then body lines up to the first bare
//! closing fence. The first closing fence terminates a block; fenced
//! content cannot itself contain a closing-fence line.

use vstd::prelude::*;
use vstd::string::StrSliceExecFns;
use vstd::string::StringExecFns;

use crate::text::lemma_filter_take_all;
use crate::text::lemma_filter_take_step;
use crate::text::lemma_unlines_push;
use crate::text::spec_lines;
use crate::text::spec_trim;
use crate::text::spec_unlines;
use crate::text::split_lines;
use crate::text::str_eq;
use crate::text::str_starts_with;
use crate::text::trim_str;
use crate::writer::ensure_eof_newline;
use crate::writer::fence;
use crate::writer::header_prefix;
use crate::writer::spec_normalize;
use crate::writer::BlockModel;
use crate::writer::FileBlock;

verus! {

/// A header line: `## ` followed by the path.
pub open spec fn is_header_line(l: Seq<char>) -> bool {
    header_prefix().is_prefix_of(l)
}

/// An opening fence: three backticks, optionally followed by a hint.
pub open spec fn is_fence_open(l: Seq<char>) -> bool {
    fence().is_prefix_of(l)
}

/// A closing fence: a line of exactly three backticks.
pub open spec fn is_fence_close(l: Seq<char>) -> bool {
    l == fence()
}

/// The least index at or after `from` holding a closing fence, or the
/// length when there is none.
pub open spec fn find_close(lines: Seq<Seq<char>>, from: int) -> int
    decreases lines.len() - from,
{
    if from >= lines.len() {
        lines.len() as int
    } else if is_fence_close(lines[from]) {
        from
    } else {
        find_close(lines, from + 1)
    }
}

proof fn lemma_find_close_at(lines: Seq<Seq<char>>, from: int, j: int)
    requires
        0 <= from <= j <= lines.len(),
        forall|k: int| from <= k < j ==> !is_fence_close(#[trigger] lines[k]),
        j < lines.len() ==> is_fence_close(lines[j]),
    ensures
        find_close(lines, from) == if j < lines.len() {
            j
        } else {
            lines.len() as int
        },
    decreases j - from,
{
    if from < j {
        lemma_find_close_at(lines, from + 1, j);
    }
}

/// The blocks of a line sequence: at each position, either a block starts
/// — header, opening fence, and a closing fence somewhere below — and
/// scanning resumes after its closing fence, or the line is plain text and
/// scanning moves one line down.
pub open spec fn spec_parse_lines(lines: Seq<Seq<char>>) -> Seq<BlockModel>
    decreases lines.len(),
{
    if lines.len() == 0 {
        Seq::empty()
    } else if lines.len() >= 2 && is_header_line(lines[0]) && is_fence_open(lines[1])
        && 2 <= find_close(lines, 2) < lines.len() {
        let j = find_close(lines, 2);
        seq![
            BlockModel {
                path: spec_trim(lines[0].skip(3)),
                content: spec_unlines(lines.subrange(2, j)),
            },
        ] + spec_parse_lines(lines.skip(j + 1))
    } else {
        spec_parse_lines(lines.drop_first())
    }
}

/// The blocks of a bundle document.
pub open spec fn spec_parse(doc: Seq<char>) -> Seq<BlockModel> {
    spec_parse_lines(spec_lines(doc))
}

proof fn lemma_parse_markers()
    ensures
        "## "@ == header_prefix(),
        "```"@ == fence(),
{
    reveal_strlit("## ");
    reveal_strlit("```");
    assert("## "@ =~= header_prefix());
    assert("```"@ =~= fence());
}

/// Parses a bundle document into its blocks, paths trimmed, bodies exactly
/// as the lines between the fences.
pub fn parse_bundle(doc: &str) -> (blocks: Vec<FileBlock>)
    ensures
        blocks.deep_view() == spec_parse(doc@),
{
    let lines = split_lines(doc);
    let ghost all = lines.deep_view();
    let mut blocks: Vec<FileBlock> = Vec::new();
    proof {
        assert(blocks.deep_view() =~= Seq::<BlockModel>::empty());
        assert(all.skip(0) =~= all);
    }
    let n = lines.len();
    let mut i: usize = 0;
    while i < n
        invariant
            n == lines.len(),
            i <= n,
            all == lines.deep_view(),
            spec_parse_lines(all) == blocks.deep_view() + spec_parse_lines(all.skip(i as int)),
        decreases n - i,
    {
        proof {
            lemma_parse_markers();
            assert(all.skip(i as int)[0] == all[i as int]);
        }
        let is_start = if i + 1 < n && str_starts_with(lines[i].as_str(), "## ") {
            str_starts_with(lines[i + 1].as_str(), "```")
        } else {
            false
        };
        if is_start {
            let mut j = i + 2;
            while j < n && !str_eq(lines[j].as_str(), "```")
                invariant
                    n == lines.len(),
                    all == lines.deep_view(),
                    i + 2 <= j <= n,
                    forall|k: int| i + 2 <= k < j ==> !is_fence_close(#[trigger] all[k]),
                decreases n - j,
            {
                proof {
                    lemma_parse_markers();
                }
                j += 1;
            }
            proof {
                lemma_parse_markers();
            }
            if j < n {
                let header = &lines[i];
                let rest = header.as_str().substring_char(3, header.as_str().unicode_len());
                let path = trim_str(rest);
                proof {
                    assert(rest@ =~= all[i as int].skip(3));
                }
                let mut content = String::new();
                let mut k = i + 2;
                proof {
                    assert(content@ =~= spec_unlines(all.subrange(i + 2, i + 2)));
                    assert(all.subrange(i + 2, i + 2) =~= Seq::<Seq<char>>::empty());
                }
                while k < j
                    invariant
                        n == lines.len(),
                        all == lines.deep_view(),
                        i + 2 <= k <= j <= n,
                        content@ == spec_unlines(all.subrange(i + 2, k as int)),
                    decreases j - k,
                {
                    content.append(lines[k].as_str());
                    content.append("\n");
                    proof {
                        reveal_strlit("\n");
                        assert("\n"@ =~= seq!['\n']);
                        lemma_unlines_push(all.subrange(i + 2, k as int), all[k as int]);
                        assert(all.subrange(i + 2, k + 1) =~= all.subrange(i + 2, k as int).push(
                            all[k as int],
                        ));
                    }
                    k += 1;
                }
                let ghost b = BlockModel {
                    path: spec_trim(all[i as int].skip(3)),
                    content: spec_unlines(all.subrange(i + 2, j as int)),
                };
                let ghost pre = blocks.deep_view();
                blocks.push(FileBlock { path, content });
                proof {
                    assert(blocks.deep_view() =~= pre.push(b));
                    let tail = all.skip(i as int);
                    assert(tail[1] == all[i + 1]);
                    assert forall|k: int| 2 <= k < j - i implies !is_fence_close(
                        #[trigger] tail[k],
                    ) by {
                        assert(tail[k] == all[i + k]);
                    }
                    assert(tail[j - i] == all[j as int]);
                    lemma_find_close_at(tail, 2, j - i);
                    assert(find_close(tail, 2) == j - i);
                    assert(tail.subrange(2, j - i) =~= all.subrange(i + 2, j as int));
                    assert(tail.skip(j - i + 1) =~= all.skip(j + 1));
                    assert(spec_parse_lines(tail) == seq![b] + spec_parse_lines(all.skip(j + 1)));
                    assert(pre.push(b) =~= pre + seq![b]);
                }
                i = j + 1;
            } else {
                proof {
                    let tail = all.skip(i as int);
                    assert(tail[1] == all[i + 1]);
                    assert forall|k: int| 2 <= k < tail.len() implies !is_fence_close(
                        #[trigger] tail[k],
                    ) by {
                        assert(tail[k] == all[i + k]);
                    }
                    lemma_find_close_at(tail, 2, tail.len() as int);
                    assert(find_close(tail, 2) == tail.len());
                    assert(tail.drop_first() =~= all.skip(i + 1));
                    assert(spec_parse_lines(tail) == spec_parse_lines(all.skip(i + 1)));
                }
                i += 1;
            }
        } else {
            proof {
                let tail = all.skip(i as int);
                if tail.len() >= 2 {
                    assert(tail[1] == all[i + 1]);
                }
                assert(tail.drop_first() =~= all.skip(i + 1));
                if tail.len() > 0 {
                    assert(spec_parse_lines(tail) == spec_parse_lines(all.skip(i + 1)));
                }
            }
            i += 1;
        }
    }
    proof {
        assert(all.skip(n as int) =~= Seq::<Seq<char>>::empty());
        assert(blocks.deep_view() + Seq::<BlockModel>::empty() =~= blocks.deep_view());
    }
    blocks
}

/// A parsed block that restore will materialize: its path is non-empty.
pub open spec fn restorable_pred() -> spec_fn(BlockModel) -> bool {
    |b: BlockModel| b.path.len() > 0
}

/// A block with its content forced to end in exactly one newline, as
/// restore writes it.
pub open spec fn normalize_block() -> spec_fn(BlockModel) -> BlockModel {
    |b: BlockModel| BlockModel { path: b.path, content: spec_normalize(b.content) }
}

/// What restore writes for a list of parsed blocks: blocks with an empty
/// path are skipped with a warning, every written content ends in one
/// newline.
pub open spec fn spec_restore_plan(bs: Seq<BlockModel>) -> Seq<BlockModel> {
    bs.filter(restorable_pred()).map_values(normalize_block())
}

/// Turns parsed blocks into the files restore will write, in document
/// order: one per block with a non-empty path, the content normalized.
pub fn restore_plan(blocks: &Vec<FileBlock>) -> (plan: Vec<FileBlock>)
    ensures
        plan.deep_view() == spec_restore_plan(blocks.deep_view()),
{
    let ghost bs = blocks.deep_view();
    let mut plan: Vec<FileBlock> = Vec::new();
    proof {
        assert(plan.deep_view() =~= Seq::<BlockModel>::empty());
        assert(bs.take(0).filter(restorable_pred()) =~= Seq::<BlockModel>::empty());
        assert(spec_restore_plan(bs.take(0)) =~= Seq::<BlockModel>::empty());
    }
    let n = blocks.len();
    let mut i: usize = 0;
    while i < n
        invariant
            n == blocks.len(),
            i <= n,
            bs == blocks.deep_view(),
            plan.deep_view() == spec_restore_plan(bs.take(i as int)),
        decreases n - i,
    {
        let block = &blocks[i];
        proof {
            assert(bs[i as int] == block@);
            lemma_filter_take_step(bs, restorable_pred(), i as int);
        }
        if block.path.as_str().unicode_len() > 0 {
            let ghost pre = plan.deep_view();
            let content = ensure_eof_newline(block.content.as_str());
            plan.push(FileBlock { path: block.path.clone(), content });
            proof {
                assert(plan.deep_view() =~= pre.push(normalize_block()(bs[i as int])));
                assert(spec_restore_plan(bs.take(i + 1)) =~= spec_restore_plan(
                    bs.take(i as int),
                ).push(normalize_block()(bs[i as int])));
            }
        } else {
            proof {
                assert(spec_restore_plan(bs.take(i + 1)) =~= spec_restore_plan(bs.take(i as int)));
            }
        }
        i += 1;
    }
    proof {
        lemma_filter_take_all(bs, restorable_pred());
        assert(bs.take(n as int) =~= bs);
    }
    plan
}

/// The lines a writer emits for one block: the blank separator, the
/// header, the opening fence with the hint, the normalized content's lines,
/// and the closing fence.
pub open spec fn block_lines(b: BlockModel) -> Seq<Seq<char>> {
    seq![
        Seq::<char>::empty(),
        header_prefix() + b.path,
        fence() + crate::hints::spec_hint_for_path(b.path),
    ] + spec_lines(spec_normalize(b.content)) + seq![fence()]
}

/// The lines a writer emits for a list of blocks.
pub open spec fn all_block_lines(bs: Seq<BlockModel>) -> Seq<Seq<char>>
    decreases bs.len(),
{
    if bs.len() == 0 {
        Seq::empty()
    } else {
        block_lines(bs[0]) + all_block_lines(bs.drop_first())
    }
}

/// A file the writer can serialize so that parsing gives it back: a
/// non-empty, trimmed, single-line path, and content that carries no bare
/// closing-fence line once normalized.
pub open spec fn wf_bundle_input(b: BlockModel) -> bool {
    &&& b.path.len() > 0
    &&& spec_trim(b.path) == b.path
    &&& !crate::text::has_newline(b.path)
    &&& forall|k: int|
        0 <= k < spec_lines(spec_normalize(b.content)).len() ==> #[trigger] spec_lines(
            spec_normalize(b.content),
        )[k] != fence()
}

proof fn lemma_normalize_ends_newline(c: Seq<char>)
    ensures
        spec_normalize(c).len() > 0,
        spec_normalize(c).last() == '\n',
{
    if !(c.len() > 0 && c.last() == '\n') {
        assert(spec_normalize(c) == c + crate::writer::nl());
        assert((c + crate::writer::nl()).last() == '\n');
    }
}

proof fn lemma_block_text_unlines(b: BlockModel)
    ensures
        crate::writer::spec_block_text(b) == spec_unlines(block_lines(b)),
{
    reveal_with_fuel(spec_unlines, 5);
    let nl = crate::writer::nl();
    let hint = crate::hints::spec_hint_for_path(b.path);
    let head = seq![Seq::<char>::empty(), header_prefix() + b.path, fence() + hint];
    let cl = spec_lines(spec_normalize(b.content));
    lemma_normalize_ends_newline(b.content);
    crate::text::lemma_unlines_lines(spec_normalize(b.content));
    crate::text::lemma_unlines_concat(head + cl, seq![fence()]);
    crate::text::lemma_unlines_concat(head, cl);
    assert(head.drop_first() =~= seq![header_prefix() + b.path, fence() + hint]);
    assert(head.drop_first().drop_first() =~= seq![fence() + hint]);
    assert(seq![fence() + hint].drop_first() =~= Seq::<Seq<char>>::empty());
    assert(seq![fence()].drop_first() =~= Seq::<Seq<char>>::empty());
    assert(block_lines(b) =~= (head + cl) + seq![fence()]);
    assert(spec_unlines(block_lines(b)) =~= crate::writer::spec_block_text(b));
}

proof fn lemma_blocks_text_unlines(bs: Seq<BlockModel>)
    ensures
        crate::writer::spec_blocks_text(bs) == spec_unlines(all_block_lines(bs)),
    decreases bs.len(),
{
    if bs.len() == 0 {
        assert(spec_unlines(all_block_lines(bs)) =~= Seq::<char>::empty());
    } else {
        lemma_block_text_unlines(bs[0]);
        lemma_blocks_text_unlines(bs.drop_first());
        crate::text::lemma_unlines_concat(block_lines(bs[0]), all_block_lines(bs.drop_first()));
    }
}

proof fn lemma_fence_no_newline()
    ensures
        !crate::text::has_newline(fence()),
        !crate::text::has_newline(header_prefix()),
        !crate::text::has_newline(Seq::<char>::empty()),
{
}

proof fn lemma_block_lines_no_newline(b: BlockModel)
    requires
        wf_bundle_input(b),
    ensures
        forall|k: int|
            0 <= k < block_lines(b).len() ==> !crate::text::has_newline(
                #[trigger] block_lines(b)[k],
            ),
{
    let bl = block_lines(b);
    lemma_fence_no_newline();
    crate::text::lemma_no_newline_concat(header_prefix(), b.path);
    crate::hints::lemma_hint_for_path_single_line(b.path);
    crate::text::lemma_no_newline_concat(fence(), crate::hints::spec_hint_for_path(b.path));
    crate::text::lemma_lines_no_newline(spec_normalize(b.content));
    let cl = spec_lines(spec_normalize(b.content));
    assert forall|k: int| 0 <= k < bl.len() implies !crate::text::has_newline(
        #[trigger] bl[k],
    ) by {
        if k >= 3 && k < 3 + cl.len() {
            assert(bl[k] == cl[k - 3]);
        } else if k == 3 + cl.len() {
            assert(bl[k] == fence());
        }
    }
}

proof fn lemma_all_block_lines_no_newline(bs: Seq<BlockModel>)
    requires
        forall|i: int| 0 <= i < bs.len() ==> wf_bundle_input(#[trigger] bs[i]),
    ensures
        forall|k: int|
            0 <= k < all_block_lines(bs).len() ==> !crate::text::has_newline(
                #[trigger] all_block_lines(bs)[k],
            ),
    decreases bs.len(),
{
    if bs.len() > 0 {
        lemma_block_lines_no_newline(bs[0]);
        lemma_all_block_lines_no_newline(bs.drop_first());
        let bl = block_lines(bs[0]);
        let rest = all_block_lines(bs.drop_first());
        assert forall|k: int| 0 <= k < all_block_lines(bs).len() implies !crate::text::has_newline(
            #[trigger] all_block_lines(bs)[k],
        ) by {
            if k < bl.len() {
                assert(all_block_lines(bs)[k] == bl[k]);
            } else {
                assert(all_block_lines(bs)[k] == rest[k - bl.len()]);
            }
        }
    }
}

proof fn lemma_parse_block_lines(bs: Seq<BlockModel>)
    requires
        forall|i: int| 0 <= i < bs.len() ==> wf_bundle_input(#[trigger] bs[i]),
    ensures
        spec_parse_lines(all_block_lines(bs)) == bs.map_values(normalize_block()),
    decreases bs.len(),
{
    if bs.len() == 0 {
        assert(spec_parse_lines(all_block_lines(bs)) =~= bs.map_values(normalize_block()));
    } else {
        let b = bs[0];
        let cl = spec_lines(spec_normalize(b.content));
        let bl = block_lines(b);
        let rest = all_block_lines(bs.drop_first());
        let all = bl + rest;
        assert(all_block_lines(bs) == all);
        // The blank separator line is plain text: scanning moves one down.
        assert(all[0] == Seq::<char>::empty());
        assert(!is_header_line(all[0]));
        assert(spec_parse_lines(all) == spec_parse_lines(all.drop_first()));
        let tail = all.drop_first();
        // The header and opening fence.
        assert(tail[0] == header_prefix() + b.path);
        assert(is_header_line(tail[0])) by {
            assert((header_prefix() + b.path).take(3) =~= header_prefix());
        }
        assert(tail[1] == fence() + crate::hints::spec_hint_for_path(b.path));
        assert(is_fence_open(tail[1])) by {
            assert((fence() + crate::hints::spec_hint_for_path(b.path)).take(3) =~= fence());
        }
        // The first closing fence stands right after the content lines.
        assert forall|k: int| 2 <= k < 2 + cl.len() implies !is_fence_close(
            #[trigger] tail[k],
        ) by {
            assert(tail[k] == cl[k - 2]);
        }
        assert(tail[2 + cl.len() as int] == fence());
        lemma_find_close_at(tail, 2, 2 + cl.len() as int);
        let j = 2 + cl.len() as int;
        assert(find_close(tail, 2) == j);
        assert(j < tail.len());
        // The parsed block is the input block, content normalized.
        assert(tail[0].skip(3) =~= b.path);
        assert(tail.subrange(2, j) =~= cl);
        lemma_normalize_ends_newline(b.content);
        crate::text::lemma_unlines_lines(spec_normalize(b.content));
        assert(spec_unlines(tail.subrange(2, j)) == spec_normalize(b.content));
        assert(tail.skip(j + 1) =~= rest);
        lemma_parse_block_lines(bs.drop_first());
        assert(spec_parse_lines(tail) == seq![normalize_block()(b)] + bs.drop_first().map_values(
            normalize_block(),
        ));
        assert(spec_parse_lines(all_block_lines(bs)) =~= bs.map_values(normalize_block()));
    }
}

/// Round-trip: parsing a written bundle yields exactly the files given to
/// the writer, in order, each content normalized to end in one newline —
/// content already ending in a newline is reproduced byte for byte.
pub proof fn lemma_round_trip(files: Seq<BlockModel>)
    requires
        forall|i: int| 0 <= i < files.len() ==> wf_bundle_input(#[trigger] files[i]),
    ensures
        spec_parse(crate::writer::spec_bundle_text(None, files, None)) == files.map_values(
            normalize_block(),
        ),
        forall|i: int|
            0 <= i < files.len() && (#[trigger] files[i]).content.len() > 0
                && files[i].content.last() == '\n' ==> spec_parse(
                crate::writer::spec_bundle_text(None, files, None),
            )[i] == files[i],
{
    let text = crate::writer::spec_bundle_text(None, files, None);
    lemma_blocks_text_unlines(files);
    assert(text =~= spec_unlines(all_block_lines(files)));
    lemma_all_block_lines_no_newline(files);
    crate::text::lemma_lines_unlines(all_block_lines(files));
    assert(spec_lines(text) == all_block_lines(files));
    lemma_parse_block_lines(files);
    assert forall|i: int|
        0 <= i < files.len() && (#[trigger] files[i]).content.len() > 0
            && files[i].content.last() == '\n' implies spec_parse(text)[i] == files[i] by {
        assert(spec_parse(text)[i] == normalize_block()(files[i]));
        assert(spec_normalize(files[i].content) == files[i].content);
    }
}

proof fn lemma_filter_all_true<A>(s: Seq<A>, p: spec_fn(A) -> bool)
    requires
        forall|i: int| 0 <= i < s.len() ==> p(#[trigger] s[i]),
    ensures
        s.filter(p) == s,
    decreases s.len(),
{
    reveal(Seq::filter);
    if s.len() == 0 {
        assert(s.filter(p) =~= s);
    } else {
        assert(s[s.len() - 1] == s.last());
        lemma_filter_all_true(s.drop_last(), p);
        assert(s.filter(p) =~= s);
    }
}

/// Restore after bundle: materializing the parsed blocks of a written
/// bundle writes back exactly the files given to the writer, in order,
/// each content with exactly one guaranteed trailing newline.
pub proof fn lemma_restore_of_bundle(files: Seq<BlockModel>)
    requires
        forall|i: int| 0 <= i < files.len() ==> wf_bundle_input(#[trigger] files[i]),
    ensures
        spec_restore_plan(
            spec_parse(crate::writer::spec_bundle_text(None, files, None)),
        ) == files.map_values(normalize_block()),
{
    lemma_round_trip(files);
    let parsed = files.map_values(normalize_block());
    assert forall|i: int| 0 <= i < parsed.len() implies restorable_pred()(
        #[trigger] parsed[i],
    ) by {
        assert(parsed[i] == normalize_block()(files[i]));
        assert(files[i].path.len() > 0);
    }
    lemma_filter_all_true(parsed, restorable_pred());
    assert(parsed.map_values(normalize_block()) =~= parsed) by {
        assert forall|i: int| 0 <= i < parsed.len() implies parsed.map_values(normalize_block())[i]
            == parsed[i] by {
            assert(parsed[i] == normalize_block()(files[i]));
            let c = files[i].content;
            assert(spec_normalize(spec_normalize(c)) == spec_normalize(c)) by {
                if !(c.len() > 0 && c.last() == '\n') {
                    assert((c + crate::writer::nl()).last() == '\n');
                }
            }
        }
    }
}

} // verus!
