//! The bundle text format and its serializer: an optional prologue, one
//! block per file — a `## path` header line, a fenced region opened with a
//! language hint and closed by a bare fence — and an optional epilogue.
//! Every block's content is written with exactly one trailing newline.

use vstd::prelude::*;
use vstd::string::StrSliceExecFns;
use vstd::string::StringExecFns;

use crate::hints::language_hint_for_path;
use crate::hints::spec_hint_for_path;
use crate::text::lemma_filter_take_all;
use crate::text::lemma_filter_take_step;

verus! {

/// The marker opening a header line.
pub open spec fn header_prefix() -> Seq<char> {
    seq!['#', '#', ' ']
}

/// Three backticks: the fence delimiter.
pub open spec fn fence() -> Seq<char> {
    seq!['`', '`', '`']
}

/// A single newline.
pub open spec fn nl() -> Seq<char> {
    seq!['\n']
}

/// A text with exactly its own content, ending in one newline.
pub open spec fn spec_normalize(c: Seq<char>) -> Seq<char> {
    if c.len() > 0 && c.last() == '\n' {
        c
    } else {
        c + nl()
    }
}

/// Appends a newline to a text that does not already end in one.
pub fn ensure_eof_newline(slice: &str) -> (r: String)
    ensures
        r@ == spec_normalize(slice@),
{
    let n = slice.unicode_len();
    if n > 0 && slice.get_char(n - 1) == '\n' {
        String::from_str(slice)
    } else {
        let mut r = String::from_str(slice);
        r.append("\n");
        proof {
            reveal_strlit("\n");
            assert("\n"@ =~= nl());
        }
        r
    }
}

/// One block of a bundle: a relative path and the file content.
pub struct FileBlock {
    pub path: String,
    pub content: String,
}

pub ghost struct BlockModel {
    pub path: Seq<char>,
    pub content: Seq<char>,
}

impl View for FileBlock {
    type V = BlockModel;

    open spec fn view(&self) -> BlockModel {
        BlockModel { path: self.path@, content: self.content@ }
    }
}

impl DeepView for FileBlock {
    type V = BlockModel;

    open spec fn deep_view(&self) -> BlockModel {
        self.view()
    }
}

/// The text of one block: a blank separator line, the header, the opening
/// fence with the path's language hint, the content forced to end in one
/// newline, and the closing fence.
pub open spec fn spec_block_text(b: BlockModel) -> Seq<char> {
    nl() + header_prefix() + b.path + nl() + fence() + spec_hint_for_path(b.path) + nl()
        + spec_normalize(b.content) + fence() + nl()
}

/// The concatenated blocks, in the order given.
pub open spec fn spec_blocks_text(bs: Seq<BlockModel>) -> Seq<char>
    decreases bs.len(),
{
    if bs.len() == 0 {
        Seq::empty()
    } else {
        spec_block_text(bs[0]) + spec_blocks_text(bs.drop_first())
    }
}

proof fn lemma_blocks_text_push(bs: Seq<BlockModel>, b: BlockModel)
    ensures
        spec_blocks_text(bs.push(b)) == spec_blocks_text(bs) + spec_block_text(b),
    decreases bs.len(),
{
    reveal_with_fuel(spec_blocks_text, 3);
    if bs.len() == 0 {
        assert(bs.push(b)[0] == b);
        assert(bs.push(b).drop_first() =~= Seq::<BlockModel>::empty());
        assert(spec_blocks_text(bs.push(b)) =~= spec_blocks_text(bs) + spec_block_text(b));
    } else {
        assert(bs.push(b)[0] == bs[0]);
        assert(bs.push(b).drop_first() =~= bs.drop_first().push(b));
        lemma_blocks_text_push(bs.drop_first(), b);
        assert(spec_blocks_text(bs.push(b)) =~= spec_blocks_text(bs) + spec_block_text(b));
    }
}

/// The prologue as written: verbatim, followed by a newline when it does
/// not bring its own.
pub open spec fn spec_prologue_part(p: Option<Seq<char>>) -> Seq<char> {
    match p {
        Some(t) => spec_normalize(t),
        None => Seq::empty(),
    }
}

/// The epilogue as written: on a line of its own, ending in a newline.
pub open spec fn spec_epilogue_part(e: Option<Seq<char>>) -> Seq<char> {
    match e {
        Some(t) => (if t.len() > 0 && t[0] == '\n' {
            Seq::<char>::empty()
        } else {
            nl()
        }) + spec_normalize(t),
        None => Seq::empty(),
    }
}

/// The whole bundle document.
pub open spec fn spec_bundle_text(
    p: Option<Seq<char>>,
    blocks: Seq<BlockModel>,
    e: Option<Seq<char>>,
) -> Seq<char> {
    spec_prologue_part(p) + spec_blocks_text(blocks) + spec_epilogue_part(e)
}

/// A selected file with the outcome of loading its content: `None` when it
/// could not be read as text.
pub struct LoadedFile {
    pub path: String,
    pub content: Option<String>,
}

pub ghost struct LoadedModel {
    pub path: Seq<char>,
    pub content: Option<Seq<char>>,
}

impl View for LoadedFile {
    type V = LoadedModel;

    open spec fn view(&self) -> LoadedModel {
        LoadedModel {
            path: self.path@,
            content: match self.content {
                Some(c) => Some(c@),
                None => None,
            },
        }
    }
}

impl DeepView for LoadedFile {
    type V = LoadedModel;

    open spec fn deep_view(&self) -> LoadedModel {
        self.view()
    }
}

/// Whether a load succeeded, as a predicate value.
pub open spec fn loaded_pred() -> spec_fn(LoadedModel) -> bool {
    |l: LoadedModel| l.content is Some
}

/// The block of a successfully loaded file.
pub open spec fn block_of() -> spec_fn(LoadedModel) -> BlockModel {
    |l: LoadedModel| BlockModel { path: l.path, content: l.content->0 }
}

/// The blocks a loaded file list contributes: one per readable file, in
/// order; unreadable files contribute nothing.
pub open spec fn spec_loaded_blocks(ls: Seq<LoadedModel>) -> Seq<BlockModel> {
    ls.filter(loaded_pred()).map_values(block_of())
}

/// The view of an optional text.
pub open spec fn opt_view(o: Option<String>) -> Option<Seq<char>> {
    match o {
        Some(s) => Some(s@),
        None => None,
    }
}

proof fn lemma_marker_views()
    ensures
        "\n"@ == nl(),
        "\n## "@ == nl() + header_prefix(),
        "\n```"@ == nl() + fence(),
        "```\n"@ == fence() + nl(),
{
    reveal_strlit("\n");
    reveal_strlit("\n## ");
    reveal_strlit("\n```");
    reveal_strlit("```\n");
    assert("\n"@ =~= nl());
    assert("\n## "@ =~= nl() + header_prefix());
    assert("\n```"@ =~= nl() + fence());
    assert("```\n"@ =~= fence() + nl());
}

fn ends_with_newline(s: &str) -> (r: bool)
    ensures
        r == (s@.len() > 0 && s@.last() == '\n'),
{
    let n = s.unicode_len();
    n > 0 && s.get_char(n - 1) == '\n'
}

/// Serializes the bundle: prologue, one block per readable file (an
/// unreadable file is skipped and not counted), epilogue. Returns the
/// document and the number of blocks written.
#[verifier::rlimit(60)]
pub fn bundle_document(
    prologue: &Option<String>,
    files: &Vec<LoadedFile>,
    epilogue: &Option<String>,
) -> (r: (String, usize))
    ensures
        r.0@ == spec_bundle_text(
            opt_view(*prologue),
            spec_loaded_blocks(files.deep_view()),
            opt_view(*epilogue),
        ),
        r.1 == spec_loaded_blocks(files.deep_view()).len(),
{
    proof {
        lemma_marker_views();
    }
    let ghost loaded = files.deep_view();
    let mut doc = String::new();
    match prologue {
        Some(p) => {
            doc.append(p.as_str());
            if !ends_with_newline(p.as_str()) {
                doc.append("\n");
            }
        },
        None => {},
    }
    proof {
        assert(doc@ =~= spec_prologue_part(opt_view(*prologue)));
    }
    let ghost prologue_text = doc@;
    let mut count: usize = 0;
    let n = files.len();
    let mut i: usize = 0;
    while i < n
        invariant
            n == files.len(),
            i <= n,
            count <= i,
            loaded == files.deep_view(),
            prologue_text == spec_prologue_part(opt_view(*prologue)),
            doc@ == prologue_text + spec_blocks_text(
                spec_loaded_blocks(loaded.take(i as int)),
            ),
            count == spec_loaded_blocks(loaded.take(i as int)).len(),
        decreases n - i,
    {
        let file = &files[i];
        proof {
            assert(loaded[i as int] == file@);
            lemma_filter_take_step(loaded, loaded_pred(), i as int);
        }
        let ghost pre_blocks = spec_loaded_blocks(loaded.take(i as int));
        match &file.content {
            Some(content) => {
                doc.append("\n## ");
                doc.append(file.path.as_str());
                doc.append("\n```");
                let hint = language_hint_for_path(file.path.as_str());
                doc.append(hint.as_str());
                doc.append("\n");
                doc.append(content.as_str());
                if !ends_with_newline(content.as_str()) {
                    doc.append("\n");
                }
                doc.append("```\n");
                count += 1;
                proof {
                    lemma_marker_views();
                    let b = block_of()(file@);
                    assert(loaded.take(i + 1).filter(loaded_pred()) == loaded.take(
                        i as int,
                    ).filter(loaded_pred()).push(file@));
                    assert(spec_loaded_blocks(loaded.take(i + 1)) =~= pre_blocks.push(b));
                    lemma_blocks_text_push(pre_blocks, b);
                    assert(doc@ =~= prologue_text + (spec_blocks_text(pre_blocks)
                        + spec_block_text(b)));
                }
            },
            None => {
                proof {
                    assert(loaded.take(i + 1).filter(loaded_pred()) == loaded.take(
                        i as int,
                    ).filter(loaded_pred()));
                    assert(spec_loaded_blocks(loaded.take(i + 1)) =~= pre_blocks);
                }
            },
        }
        i += 1;
    }
    proof {
        lemma_filter_take_all(loaded, loaded_pred());
        assert(loaded.take(n as int) =~= loaded);
    }
    let ghost body_text = doc@;
    match epilogue {
        Some(e) => {
            let starts_nl = if e.as_str().unicode_len() > 0 {
                e.as_str().get_char(0) == '\n'
            } else {
                false
            };
            if !starts_nl {
                doc.append("\n");
            }
            doc.append(e.as_str());
            if !ends_with_newline(e.as_str()) {
                doc.append("\n");
            }
        },
        None => {},
    }
    proof {
        assert(doc@ =~= body_text + spec_epilogue_part(opt_view(*epilogue)));
        assert(doc@ =~= spec_bundle_text(
            opt_view(*prologue),
            spec_loaded_blocks(files.deep_view()),
            opt_view(*epilogue),
        ));
    }
    (doc, count)
}

} // verus!
