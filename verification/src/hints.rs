//! The cosmetic language-hint lookup used on opening fences, and the
//! extraction of a path's extension that feeds it.

use vstd::prelude::*;
use vstd::string::StrSliceExecFns;
use vstd::string::StringExecFns;

use crate::text::has_newline;

verus! {

/// The display token for a file extension; unknown extensions yield no token.
pub open spec fn spec_language_hint(ext: Seq<char>) -> Seq<char> {
    if ext == "py"@ {
        "python"@
    } else if ext == "js"@ {
        "javascript"@
    } else if ext == "html"@ {
        "html"@
    } else if ext == "css"@ {
        "css"@
    } else if ext == "rs"@ {
        "rust"@
    } else if ext == "go"@ {
        "go"@
    } else if ext == "java"@ {
        "java"@
    } else if ext == "c"@ {
        "c"@
    } else if ext == "cpp"@ {
        "cpp"@
    } else if ext == "sh"@ {
        "bash"@
    } else if ext == "md"@ {
        "markdown"@
    } else if ext == "json"@ {
        "json"@
    } else if ext == "yaml"@ || ext == "yml"@ {
        "yaml"@
    } else if ext == "toml"@ {
        "toml"@
    } else if ext == "sql"@ {
        "sql"@
    } else if ext == "rb"@ {
        "ruby"@
    } else if ext == "php"@ {
        "php"@
    } else if ext == "swift"@ {
        "swift"@
    } else if ext == "kt"@ {
        "kotlin"@
    } else if ext == "scala"@ {
        "scala"@
    } else if ext == "ts"@ {
        "typescript"@
    } else {
        Seq::empty()
    }
}

/// Maps a file extension to the display token used on an opening fence.
pub fn get_language_hint(extension: &str) -> (r: &str)
    ensures
        r@ == spec_language_hint(extension@),
{
    proof {
        reveal_strlit("");
        assert(""@ =~= Seq::<char>::empty());
    }
    if crate::text::str_eq(extension, "py") {
        "python"
    } else if crate::text::str_eq(extension, "js") {
        "javascript"
    } else if crate::text::str_eq(extension, "html") {
        "html"
    } else if crate::text::str_eq(extension, "css") {
        "css"
    } else if crate::text::str_eq(extension, "rs") {
        "rust"
    } else if crate::text::str_eq(extension, "go") {
        "go"
    } else if crate::text::str_eq(extension, "java") {
        "java"
    } else if crate::text::str_eq(extension, "c") {
        "c"
    } else if crate::text::str_eq(extension, "cpp") {
        "cpp"
    } else if crate::text::str_eq(extension, "sh") {
        "bash"
    } else if crate::text::str_eq(extension, "md") {
        "markdown"
    } else if crate::text::str_eq(extension, "json") {
        "json"
    } else if crate::text::str_eq(extension, "yaml") || crate::text::str_eq(extension, "yml") {
        "yaml"
    } else if crate::text::str_eq(extension, "toml") {
        "toml"
    } else if crate::text::str_eq(extension, "sql") {
        "sql"
    } else if crate::text::str_eq(extension, "rb") {
        "ruby"
    } else if crate::text::str_eq(extension, "php") {
        "php"
    } else if crate::text::str_eq(extension, "swift") {
        "swift"
    } else if crate::text::str_eq(extension, "kt") {
        "kotlin"
    } else if crate::text::str_eq(extension, "scala") {
        "scala"
    } else if crate::text::str_eq(extension, "ts") {
        "typescript"
    } else {
        ""
    }
}

/// No display token spans more than one line.
pub proof fn lemma_language_hint_single_line(ext: Seq<char>)
    ensures
        !has_newline(spec_language_hint(ext)),
{
    reveal_strlit("python");
    reveal_strlit("javascript");
    reveal_strlit("html");
    reveal_strlit("css");
    reveal_strlit("rust");
    reveal_strlit("go");
    reveal_strlit("java");
    reveal_strlit("c");
    reveal_strlit("cpp");
    reveal_strlit("bash");
    reveal_strlit("markdown");
    reveal_strlit("json");
    reveal_strlit("yaml");
    reveal_strlit("toml");
    reveal_strlit("sql");
    reveal_strlit("ruby");
    reveal_strlit("php");
    reveal_strlit("swift");
    reveal_strlit("kotlin");
    reveal_strlit("scala");
    reveal_strlit("typescript");
}

/// The final component of a slash-separated path.
pub open spec fn spec_file_name(p: Seq<char>) -> Seq<char>
    decreases p.len(),
{
    if p.len() == 0 {
        p
    } else if p.last() == '/' {
        Seq::empty()
    } else {
        spec_file_name(p.drop_last()).push(p.last())
    }
}

/// The extension of a file name: the portion after the final `'.'`, provided
/// that dot is not the leading character; `None` otherwise.
pub open spec fn spec_name_ext(f: Seq<char>) -> Option<Seq<char>>
    decreases f.len(),
{
    if f.len() < 2 {
        None
    } else if f.last() == '.' {
        Some(Seq::empty())
    } else {
        match spec_name_ext(f.drop_last()) {
            Some(e) => Some(e.push(f.last())),
            None => None,
        }
    }
}

/// The extension of a path, taken from its final component.
pub open spec fn spec_extension(p: Seq<char>) -> Option<Seq<char>> {
    spec_name_ext(spec_file_name(p))
}

proof fn lemma_file_name_at(p: Seq<char>, m: int)
    requires
        0 <= m <= p.len(),
        m > 0 ==> p[m - 1] == '/',
        forall|k: int| m <= k < p.len() ==> p[k] != '/',
    ensures
        spec_file_name(p) == p.skip(m),
    decreases p.len(),
{
    if p.len() == 0 {
        assert(p.skip(0) =~= p);
    } else if m == p.len() {
        if m > 0 {
            assert(p.last() == '/');
        }
        assert(p.skip(m) =~= Seq::<char>::empty());
    } else {
        assert(p.last() != '/');
        lemma_file_name_at(p.drop_last(), m);
        assert(p.drop_last().skip(m).push(p.last()) =~= p.skip(m));
    }
}

proof fn lemma_name_ext_at(f: Seq<char>, d: int)
    requires
        0 < d < f.len(),
        f[d] == '.',
        forall|k: int| d < k < f.len() ==> f[k] != '.',
    ensures
        spec_name_ext(f) == Some(f.skip(d + 1)),
    decreases f.len(),
{
    if d == f.len() - 1 {
        assert(f.last() == '.');
        assert(f.skip(d + 1) =~= Seq::<char>::empty());
    } else {
        assert(f.last() != '.');
        lemma_name_ext_at(f.drop_last(), d);
        assert(f.drop_last().skip(d + 1).push(f.last()) =~= f.skip(d + 1));
    }
}

proof fn lemma_name_ext_none(f: Seq<char>)
    requires
        forall|k: int| 0 < k < f.len() ==> f[k] != '.',
    ensures
        spec_name_ext(f) is None,
    decreases f.len(),
{
    if f.len() >= 2 {
        assert(f.last() != '.');
        lemma_name_ext_none(f.drop_last());
    }
}

/// The extension of a path, lifted to executable strings.
pub fn extension_of(path: &str) -> (r: Option<String>)
    ensures
        match r {
            Some(e) => spec_extension(path@) == Some(e@),
            None => spec_extension(path@) is None,
        },
{
    let n = path.unicode_len();
    let mut k = n;
    while k > 0
        invariant
            n == path@.len(),
            k <= n,
            forall|j: int| k <= j < n ==> path@[j] != '/' && path@[j] != '.',
        decreases k,
    {
        let c = path.get_char(k - 1);
        if c == '/' {
            proof {
                lemma_file_name_at(path@, k as int);
                lemma_name_ext_none(path@.skip(k as int));
            }
            return None;
        }
        if c == '.' {
            if k - 1 == 0 {
                proof {
                    lemma_file_name_at(path@, 0);
                    assert(path@.skip(0) =~= path@);
                    lemma_name_ext_none(path@);
                }
                return None;
            }
            if path.get_char(k - 2) == '/' {
                proof {
                    lemma_file_name_at(path@, k - 1);
                    lemma_name_ext_none(path@.skip(k - 1));
                }
                return None;
            }
            let ext = String::from_str(path.substring_char(k, n));
            proof {
                let ghost m = spec_last_slash_before(path@, k - 1);
                lemma_last_slash_before(path@, k - 1);
                lemma_file_name_at(path@, m);
                let f = path@.skip(m);
                assert(0 < (k - 1 - m) < f.len());
                assert(f[k - 1 - m] == '.');
                assert(forall|j: int| k - 1 - m < j < f.len() ==> f[j] != '.');
                lemma_name_ext_at(f, k - 1 - m);
                assert(f.skip(k - m) =~= path@.skip(k as int));
                assert(ext@ =~= path@.skip(k as int));
            }
            return Some(ext);
        }
        k -= 1;
    }
    proof {
        lemma_file_name_at(path@, 0);
        assert(path@.skip(0) =~= path@);
        lemma_name_ext_none(path@);
    }
    None
}

/// The index just after the last `'/'` strictly before position `e`,
/// or `0` when there is none.
pub open spec fn spec_last_slash_before(p: Seq<char>, e: int) -> int
    decreases e,
{
    if e <= 0 {
        0
    } else if p[e - 1] == '/' {
        e
    } else {
        spec_last_slash_before(p, e - 1)
    }
}

proof fn lemma_last_slash_before(p: Seq<char>, e: int)
    requires
        0 <= e <= p.len(),
    ensures
        0 <= spec_last_slash_before(p, e) <= e,
        spec_last_slash_before(p, e) > 0 ==> p[spec_last_slash_before(p, e) - 1] == '/',
        forall|k: int| spec_last_slash_before(p, e) <= k < e ==> p[k] != '/',
    decreases e,
{
    if e > 0 && p[e - 1] != '/' {
        lemma_last_slash_before(p, e - 1);
    }
}

/// The fence annotation for a path: the hint of its extension, or nothing.
pub open spec fn spec_hint_for_path(p: Seq<char>) -> Seq<char> {
    match spec_extension(p) {
        Some(e) => spec_language_hint(e),
        None => Seq::empty(),
    }
}

/// Derives the fence annotation for a path.
pub fn language_hint_for_path(path: &str) -> (r: String)
    ensures
        r@ == spec_hint_for_path(path@),
{
    match extension_of(path) {
        Some(e) => String::from_str(get_language_hint(e.as_str())),
        None => String::new(),
    }
}

pub proof fn lemma_hint_for_path_single_line(p: Seq<char>)
    ensures
        !has_newline(spec_hint_for_path(p)),
{
    match spec_extension(p) {
        Some(e) => {
            lemma_language_hint_single_line(e);
        },
        None => {
            assert(!has_newline(Seq::<char>::empty()));
        },
    }
}

} // verus!
