use sheafy::cli::resolve_use_gitignore;
use sheafy::hints::extension_of;
use sheafy::hints::get_language_hint;
use sheafy::parser::parse_bundle;
use sheafy::parser::restore_plan;
use sheafy::rules::invert_patern;
use sheafy::rules::IgnoreSource;
use sheafy::rules::IgnoreSources;
use sheafy::rules::RuleSet;
use sheafy::select::select_files;
use sheafy::select::Candidate;
use sheafy::writer::bundle_document;
use sheafy::writer::ensure_eof_newline;
use sheafy::writer::LoadedFile;

fn no_sources() -> IgnoreSources {
    IgnoreSources {
        global_ignore: None,
        repo_exclude: None,
        gitignores: Vec::new(),
        user_patterns: None,
    }
}

fn user_sources(patterns: &str) -> IgnoreSources {
    IgnoreSources {
        global_ignore: None,
        repo_exclude: None,
        gitignores: Vec::new(),
        user_patterns: Some(String::from(patterns)),
    }
}

fn candidate(rel: &str) -> Candidate {
    Candidate { rel_path: String::from(rel), abs_path: format!("/work/{}", rel) }
}

fn selected(
    rels: &[&str],
    rules: &RuleSet,
    filter: &[&str],
    always_exclude: &[&str],
) -> Vec<String> {
    let candidates: Vec<Candidate> = rels.iter().map(|r| candidate(r)).collect();
    let filter: Vec<String> = filter.iter().map(|f| String::from(*f)).collect();
    let excl: Vec<String> = always_exclude.iter().map(|e| String::from(*e)).collect();
    select_files(&candidates, rules, &filter, &excl)
}

#[test]
fn language_hints_match_table() {
    assert_eq!(get_language_hint("py"), "python");
    assert_eq!(get_language_hint("rs"), "rust");
    assert_eq!(get_language_hint("yml"), "yaml");
    assert_eq!(get_language_hint("yaml"), "yaml");
    assert_eq!(get_language_hint("txt"), "");
    assert_eq!(get_language_hint("unknown"), "");
}

#[test]
fn extension_extraction() {
    assert_eq!(extension_of("a.txt"), Some(String::from("txt")));
    assert_eq!(extension_of("src/b.rs"), Some(String::from("rs")));
    assert_eq!(extension_of("a.tar.gz"), Some(String::from("gz")));
    assert_eq!(extension_of(".gitignore"), None);
    assert_eq!(extension_of("logs/.hidden"), None);
    assert_eq!(extension_of("noext"), None);
    assert_eq!(extension_of("dir.d/noext"), None);
}

#[test]
fn invert_patern_toggles_marker() {
    assert_eq!(invert_patern("logs/*"), "!logs/*");
    assert_eq!(invert_patern("!logs/*"), "logs/*");
    assert_eq!(invert_patern(""), "!");
}

#[test]
fn ensure_eof_newline_normalizes() {
    assert_eq!(ensure_eof_newline("abc"), "abc\n");
    assert_eq!(ensure_eof_newline("abc\n"), "abc\n");
    assert_eq!(ensure_eof_newline(""), "\n");
}

#[test]
fn gitignore_flag_conflict_is_fatal() {
    assert!(resolve_use_gitignore(true, true, None).is_err());
    assert!(resolve_use_gitignore(true, true, Some(false)).is_err());
    assert_eq!(resolve_use_gitignore(true, false, Some(false)).ok(), Some(true));
    assert_eq!(resolve_use_gitignore(false, true, Some(true)).ok(), Some(false));
    assert_eq!(resolve_use_gitignore(false, false, Some(false)).ok(), Some(false));
    assert_eq!(resolve_use_gitignore(false, false, None).ok(), Some(true));
}

#[test]
fn ignore_patterns_exclude_files() {
    let rules = RuleSet::compile(true, &user_sources("*.csv\n*.tmp\n"));
    let out = selected(
        &["main.py", "utils.py", "data.csv", "temp.tmp"],
        &rules,
        &[],
        &[],
    );
    assert_eq!(out, vec![String::from("main.py"), String::from("utils.py")]);
}

#[test]
fn ignore_patterns_with_negation() {
    let patterns = "# Ignore logs directory\nlogs/*\n\n# But keep important.log\n!logs/important.log\n\n# Also ignore config.toml just because\nconfig.toml\n";
    let rules = RuleSet::compile(true, &user_sources(patterns));
    let out = selected(
        &["logs/app.log", "logs/important.log", "config.toml"],
        &rules,
        &[],
        &[],
    );
    assert_eq!(out, vec![String::from("logs/important.log")]);
}

#[test]
fn gitignore_layer_excludes_and_standard_filters_hide_dotfiles() {
    let sources = IgnoreSources {
        global_ignore: None,
        repo_exclude: None,
        gitignores: vec![IgnoreSource {
            prefix: String::new(),
            text: String::from("*.log\n"),
        }],
        user_patterns: None,
    };
    let rules = RuleSet::compile(true, &sources);
    let out = selected(&["a.rs", "b.log", ".gitignore"], &rules, &[], &[]);
    assert_eq!(out, vec![String::from("a.rs")]);
}

#[test]
fn no_gitignore_flag_disables_standard_filters() {
    let sources = IgnoreSources {
        global_ignore: None,
        repo_exclude: None,
        gitignores: vec![IgnoreSource {
            prefix: String::new(),
            text: String::from("*.log\n"),
        }],
        user_patterns: None,
    };
    let rules = RuleSet::compile(false, &sources);
    let out = selected(&["a.rs", "b.log", ".gitignore"], &rules, &[], &[]);
    assert_eq!(
        out,
        vec![String::from(".gitignore"), String::from("a.rs"), String::from("b.log")]
    );
}

#[test]
fn nested_gitignore_applies_below_its_directory() {
    let sources = IgnoreSources {
        global_ignore: None,
        repo_exclude: None,
        gitignores: vec![IgnoreSource {
            prefix: String::from("sub/"),
            text: String::from("*.log\n"),
        }],
        user_patterns: None,
    };
    let rules = RuleSet::compile(true, &sources);
    let out = selected(&["a.log", "sub/b.log", "sub/c.rs"], &rules, &[], &[]);
    assert_eq!(out, vec![String::from("a.log"), String::from("sub/c.rs")]);
}

#[test]
fn negation_in_later_layer_reincludes() {
    let sources = IgnoreSources {
        global_ignore: None,
        repo_exclude: None,
        gitignores: vec![IgnoreSource {
            prefix: String::new(),
            text: String::from("*.log\n"),
        }],
        user_patterns: Some(String::from("!keep.log\n")),
    };
    let rules = RuleSet::compile(true, &sources);
    let out = selected(&["drop.log", "keep.log"], &rules, &[], &[]);
    assert_eq!(out, vec![String::from("keep.log")]);
}

#[test]
fn always_exclude_wins_over_everything() {
    let rules = RuleSet::compile(true, &no_sources());
    let out = selected(
        &["sheafy.toml", "project_bundle.md", "a.txt"],
        &rules,
        &[],
        &["/work/sheafy.toml", "/work/project_bundle.md"],
    );
    assert_eq!(out, vec![String::from("a.txt")]);
}

#[test]
fn extension_filter_is_case_insensitive() {
    let rules = RuleSet::compile(true, &no_sources());
    let out = selected(&["a.TXT", "b.rs", "c.md"], &rules, &["txt", "RS"], &[]);
    assert_eq!(out, vec![String::from("a.TXT"), String::from("b.rs")]);
}

#[test]
fn empty_directory_selects_nothing() {
    let rules = RuleSet::compile(true, &no_sources());
    let out = selected(&[], &rules, &[], &[]);
    assert!(out.is_empty());
    let none_pass = selected(&["a.md", "b.md"], &rules, &["rs"], &[]);
    assert!(none_pass.is_empty());
}

#[test]
fn selection_is_deterministic_across_walk_orders() {
    let rules = RuleSet::compile(true, &user_sources("*.tmp\n"));
    let one = selected(&["b.txt", "a/x.txt", "a.txt", "z.tmp"], &rules, &[], &[]);
    let two = selected(&["z.tmp", "a.txt", "b.txt", "a/x.txt"], &rules, &[], &[]);
    assert_eq!(one, two);
    assert_eq!(
        one,
        vec![String::from("a.txt"), String::from("a/x.txt"), String::from("b.txt")]
    );
}

fn loaded(path: &str, content: &str) -> LoadedFile {
    LoadedFile { path: String::from(path), content: Some(String::from(content)) }
}

#[test]
fn bundle_basic_format() {
    let files = vec![loaded("a.txt", "Content A"), loaded("src/b.rs", "fn main() {}")];
    let (doc, count) = bundle_document(&None, &files, &None);
    assert_eq!(count, 2);
    assert_eq!(
        doc,
        "\n## a.txt\n```\nContent A\n```\n\n## src/b.rs\n```rust\nfn main() {}\n```\n"
    );
}

#[test]
fn bundle_with_prologue_epilogue() {
    let files = vec![loaded("a.txt", "Content")];
    let (doc, count) = bundle_document(
        &Some(String::from("### START ###")),
        &files,
        &Some(String::from("### END ###")),
    );
    assert_eq!(count, 1);
    assert!(doc.starts_with("### START ###\n"), "Prologue missing or incorrect");
    assert!(doc.contains("\n## a.txt\n"), "File section missing");
    assert!(doc.ends_with("### END ###\n"), "Epilogue missing or incorrect");
}

#[test]
fn bundle_skips_unreadable_content() {
    let files = vec![
        LoadedFile { path: String::from("invalid_utf8.bin"), content: None },
        loaded("valid.txt", "Valid text"),
    ];
    let (doc, count) = bundle_document(&None, &files, &None);
    assert_eq!(count, 1);
    assert!(doc.contains("\n## valid.txt\n"));
    assert!(!doc.contains("invalid_utf8.bin"));
    let blocks = parse_bundle(&doc);
    assert_eq!(blocks.len(), 1);
    assert_eq!(blocks[0].path, "valid.txt");
}

#[test]
fn bundle_of_nothing_has_no_blocks() {
    let (doc, count) = bundle_document(&None, &Vec::new(), &None);
    assert_eq!(count, 0);
    assert_eq!(doc, "");
    assert!(parse_bundle(&doc).is_empty());
}

#[test]
fn restore_parses_basic_document() {
    let doc = "\n# Some leading text\n\n## src/main.rs\n```rust\nfn main() {\n    println!(\"Hello\");\n}\n```\n\n## config/settings.toml\n```toml\nvalue = 123\n```\n\n";
    let blocks = parse_bundle(doc);
    assert_eq!(blocks.len(), 2);
    assert_eq!(blocks[0].path, "src/main.rs");
    assert_eq!(blocks[0].content, "fn main() {\n    println!(\"Hello\");\n}\n");
    assert_eq!(blocks[1].path, "config/settings.toml");
    assert_eq!(blocks[1].content, "value = 123\n");
    let plan = restore_plan(&blocks);
    assert_eq!(plan.len(), 2);
    assert_eq!(plan[0].content, "fn main() {\n    println!(\"Hello\");\n}\n");
    assert_eq!(plan[1].content, "value = 123\n");
}

#[test]
fn restore_normalizes_missing_trailing_newline() {
    let doc = "\n## existing.txt\n```\nNew Content\n```\n";
    let blocks = parse_bundle(doc);
    assert_eq!(blocks.len(), 1);
    assert_eq!(blocks[0].path, "existing.txt");
    let plan = restore_plan(&blocks);
    assert_eq!(plan[0].content, "New Content\n");
}

#[test]
fn restore_skips_empty_path_blocks() {
    let doc = "\n## \n```\norphan\n```\n\n## kept.txt\n```\nbody\n```\n";
    let blocks = parse_bundle(doc);
    assert_eq!(blocks.len(), 2);
    assert_eq!(blocks[0].path, "");
    let plan = restore_plan(&blocks);
    assert_eq!(plan.len(), 1);
    assert_eq!(plan[0].path, "kept.txt");
    assert_eq!(plan[0].content, "body\n");
}

#[test]
fn restore_finds_no_blocks_in_plain_text() {
    let doc = "just some text\nwith no blocks\n";
    assert!(parse_bundle(doc).is_empty());
}

#[test]
fn first_closing_fence_terminates_block() {
    let doc = "\n## a.md\n```\nline one\n```\nstray tail\n```\n";
    let blocks = parse_bundle(doc);
    assert_eq!(blocks.len(), 1);
    assert_eq!(blocks[0].content, "line one\n");
}

#[test]
fn header_path_is_trimmed() {
    let doc = "\n##   spaced.txt  \n```\nbody\n```\n";
    let blocks = parse_bundle(doc);
    assert_eq!(blocks.len(), 1);
    assert_eq!(blocks[0].path, "spaced.txt");
}

#[test]
fn round_trip_example_scenario() {
    let rules = RuleSet::compile(true, &no_sources());
    let out = selected(&["a.txt", "src/b.rs"], &rules, &["txt", "rs"], &[]);
    assert_eq!(out, vec![String::from("a.txt"), String::from("src/b.rs")]);
    let files = vec![loaded("a.txt", "Content A"), loaded("src/b.rs", "fn main() {}")];
    let (doc, _) = bundle_document(&None, &files, &None);
    let plan = restore_plan(&parse_bundle(&doc));
    assert_eq!(plan.len(), 2);
    assert_eq!(plan[0].path, "a.txt");
    assert_eq!(plan[0].content, "Content A\n");
    assert_eq!(plan[1].path, "src/b.rs");
    assert_eq!(plan[1].content, "fn main() {}\n");
}

#[test]
fn round_trip_preserves_newline_terminated_content() {
    let files = vec![loaded("keep.txt", "exact\ncontent\n")];
    let (doc, _) = bundle_document(&None, &files, &None);
    let plan = restore_plan(&parse_bundle(&doc));
    assert_eq!(plan.len(), 1);
    assert_eq!(plan[0].content, "exact\ncontent\n");
}

#[test]
fn bundling_twice_is_byte_identical() {
    let files = vec![loaded("a.txt", "one"), loaded("b.txt", "two\n")];
    let (doc1, n1) = bundle_document(&None, &files, &None);
    let (doc2, n2) = bundle_document(&None, &files, &None);
    assert_eq!(doc1, doc2);
    assert_eq!(n1, n2);
}

#[test]
fn cli_command_carries_flags() {
    let cli = sheafy::cli::Cli {
        command: sheafy::cli::Commands::Bundle {
            filters: None,
            output: Some(String::from("my_bundle.md")),
            use_gitignore: false,
            no_gitignore: true,
        },
    };
    match cli.command {
        sheafy::cli::Commands::Bundle { output, use_gitignore, no_gitignore, .. } => {
            assert_eq!(output.as_deref(), Some("my_bundle.md"));
            let effective = resolve_use_gitignore(use_gitignore, no_gitignore, None).unwrap();
            assert!(!effective);
        }
        _ => panic!("expected the bundle command"),
    }
}

#[test]
fn hidden_paths_are_recognized() {
    assert!(sheafy::rules::is_hidden_path(".gitignore"));
    assert!(sheafy::rules::is_hidden_path(".git/config"));
    assert!(sheafy::rules::is_hidden_path("src/.cache/x"));
    assert!(!sheafy::rules::is_hidden_path("src/main.rs"));
    assert!(!sheafy::rules::is_hidden_path("a.b/c"));
}

#[test]
fn pattern_lines_drop_comments_and_blanks() {
    let cleaned = sheafy::rules::clean_pattern_lines("# comment\n\nfoo\n!bar\n   \n");
    assert_eq!(cleaned, vec![String::from("foo"), String::from("!bar")]);
}
