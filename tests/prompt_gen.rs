use prompt_gen::assemble::assemble;
use prompt_gen::compact::remove_empty_lines;
use prompt_gen::config::create_config;
use prompt_gen::strip::remove_comments;
use prompt_gen::walk::{admits_file, denies_dir, walk, Entry, FileBlock, Walk, WalkError};

fn file(name: &str, content: &str) -> Entry {
    Entry::File { name: name.to_string(), content: Some(content.to_string()) }
}

fn dir(name: &str, children: Vec<Entry>) -> Entry {
    Entry::Dir { name: name.to_string(), children, listed: true }
}

fn strings(v: &[&str]) -> Vec<String> {
    v.iter().map(|s| s.to_string()).collect()
}

fn walked(root: &Entry, allowed: &[&str], deny: &[&str]) -> Walk {
    match walk(root, &strings(allowed), &strings(deny)) {
        Ok(w) => w,
        Err(e) => panic!("walk failed: {:?}", e),
    }
}

fn block_pairs(w: &Walk) -> Vec<(String, String)> {
    w.blocks.iter().map(|b| (b.path.clone(), b.content.clone())).collect()
}

#[test]
fn compaction_drops_blank_and_whitespace_lines() {
    assert_eq!(remove_empty_lines("a\n\n  \n\tb\n"), "a\n\tb");
}

#[test]
fn compaction_of_empty_and_blank_text() {
    assert_eq!(remove_empty_lines(""), "");
    assert_eq!(remove_empty_lines("\n\n"), "");
    assert_eq!(remove_empty_lines(" \t \n\u{a0}\n"), "");
}

#[test]
fn compaction_drops_carriage_returns_of_line_endings() {
    assert_eq!(remove_empty_lines("a\r\nb\r\n"), "a\nb");
    assert_eq!(remove_empty_lines("\r\n\r\nx"), "x");
}

#[test]
fn compaction_is_idempotent_on_examples() {
    for s in ["x\n \n y \n", "", "\n\na\n\nb", "one line", "a\r\n\r\nb\n"] {
        let once = remove_empty_lines(s);
        assert_eq!(remove_empty_lines(&once), once);
    }
}

#[test]
fn strip_rust_line_and_block_comments() {
    let src = "let a = 1; // c\nlet b = 2; /* x\ny */let c = 3;\n";
    assert_eq!(remove_comments(src, "rs"), "let a = 1; \nlet b = 2; let c = 3;\n");
}

#[test]
fn strip_keeps_comment_marker_inside_string_literal() {
    let src = "x = \"// not a comment\"";
    assert_eq!(remove_comments(src, "rs"), src);
    assert_eq!(remove_comments("x = \"/* no */\"; // yes\n", "c"), "x = \"/* no */\"; \n");
}

#[test]
fn strip_python_keeps_hash_in_literals() {
    assert_eq!(remove_comments("s = \"# no\"  # yes\n", "py"), "s = \"# no\"  \n");
    assert_eq!(remove_comments("t = '#'\n# whole line\n", "py"), "t = '#'\n\n");
}

#[test]
fn strip_honours_escaped_quotes() {
    assert_eq!(remove_comments("\"a\\\"//b\" // c", "rs"), "\"a\\\"//b\" ");
}

#[test]
fn strip_c_char_literal_holding_a_quote() {
    assert_eq!(remove_comments("char q = '\"'; // c\n", "c"), "char q = '\"'; \n");
}

#[test]
fn strip_unterminated_block_and_string_degrade() {
    assert_eq!(remove_comments("a /* b\nc", "rs"), "a ");
    assert_eq!(remove_comments("\"abc // d", "rs"), "\"abc // d");
}

#[test]
fn strip_line_comment_before_crlf() {
    assert_eq!(remove_comments("a // c\r\nb", "rs"), "a \nb");
}

#[test]
fn strip_unknown_extension_passes_through() {
    let content = "// keep\n/* this */ # too\n";
    assert_eq!(remove_comments(content, "unknownext"), content);
    assert_eq!(remove_comments(content, "md"), content);
    assert_eq!(remove_comments(content, ""), content);
}

#[test]
fn create_config_from_answers() {
    let c = create_config(
        "/path/to/test/dir",
        "Test Project\n",
        "/path/to/output",
        "Test intro prompt",
        "rs,toml",
        "target,node_modules\n",
    );
    assert_eq!(c.project_name, "Test Project");
    assert_eq!(c.output_path, "/path/to/output");
    assert_eq!(c.intro_prompt, "Test intro prompt");
    assert_eq!(c.allowed_extensions, vec!["rs", "toml"]);
    assert_eq!(c.deny_dirs, vec!["target", "node_modules"]);
    assert!(c.history.is_empty());
}

#[test]
fn create_config_defaults_the_project_name() {
    let c = create_config("/path/to/current/dir", "   \n", " /out ", "hi", " rs , toml, md ", "dist,build");
    assert_eq!(c.project_name, "/path/to/current/dir");
    assert_eq!(c.output_path, "/out");
    assert_eq!(c.allowed_extensions, vec!["rs", "toml", "md"]);
    assert_eq!(c.deny_dirs, vec!["dist", "build"]);
}

#[test]
fn create_config_empty_list_answer() {
    let c = create_config("/d", "P", "/o", "i", "", "target");
    assert_eq!(c.allowed_extensions, vec![""]);
    assert_eq!(c.deny_dirs, vec!["target"]);
}

#[test]
fn walk_scenario_with_denied_and_filtered_entries() {
    let root = dir(
        "/p",
        vec![
            file("readme.md", "# readme"),
            dir("target", vec![file("x.rs", "fn x(){}")]),
            dir("src", vec![file("main.rs", "// hello\nfn main(){}\n")]),
        ],
    );
    let w = walked(&root, &["rs"], &["target"]);
    assert_eq!(w.tree, "/p\n└── src\n    └── main.rs\n");
    assert_eq!(block_pairs(&w), vec![("src/main.rs".to_string(), "fn main(){}".to_string())]);
    assert!(w.errors.is_empty());
}

#[test]
fn walk_extension_filtering() {
    let root = dir("/r", vec![file("c", "data"), file("b.py", "x = 1"), file("a.rs", "fn a(){}")]);
    let w = walked(&root, &["rs"], &[]);
    assert_eq!(w.tree, "/r\n└── a.rs\n");
    assert_eq!(block_pairs(&w), vec![("a.rs".to_string(), "fn a(){}".to_string())]);
}

#[test]
fn walk_denied_directory_hides_its_subtree() {
    let nested = dir("node_modules", vec![file("lib.rs", "fn l(){}"), dir("deep", vec![file("d.rs", "fn d(){}")])]);
    let root = dir("/q", vec![nested, file("main.rs", "fn main(){}")]);
    let w = walked(&root, &["rs"], &["node_modules"]);
    assert_eq!(w.tree, "/q\n└── main.rs\n");
    assert_eq!(block_pairs(&w), vec![("main.rs".to_string(), "fn main(){}".to_string())]);
    assert!(!w.tree.contains("node_modules"));
}

#[test]
fn walk_sorts_and_nests_with_branch_glyphs() {
    let root = dir(
        "/t",
        vec![file("b.rs", "b // x"), dir("a", vec![file("y.rs", "y"), file("x.rs", "x")])],
    );
    let w = walked(&root, &["rs"], &[]);
    assert_eq!(w.tree, "/t\n├── a\n    ├── x.rs\n    └── y.rs\n└── b.rs\n");
    assert_eq!(
        block_pairs(&w),
        vec![
            ("a/x.rs".to_string(), "x".to_string()),
            ("a/y.rs".to_string(), "y".to_string()),
            ("b.rs".to_string(), "b ".to_string()),
        ]
    );
}

#[test]
fn walk_is_deterministic_across_listing_orders() {
    let one = dir("/d", vec![file("b.rs", "b"), file("a.rs", "a"), dir("z", vec![file("q.rs", "q")])]);
    let two = dir("/d", vec![dir("z", vec![file("q.rs", "q")]), file("a.rs", "a"), file("b.rs", "b")]);
    let w1 = walked(&one, &["rs"], &[]);
    let w2 = walked(&two, &["rs"], &[]);
    let w3 = walked(&one, &["rs"], &[]);
    assert_eq!(w1.tree, w2.tree);
    assert_eq!(w1.tree, w3.tree);
    assert_eq!(block_pairs(&w1), block_pairs(&w2));
}

#[test]
fn walk_reports_unreadable_entries_and_goes_on() {
    let locked = Entry::Dir { name: "locked".to_string(), children: vec![], listed: false };
    let broken = Entry::File { name: "bad.rs".to_string(), content: None };
    let root = dir("/e", vec![locked, broken, file("ok.rs", "ok")]);
    let w = walked(&root, &["rs"], &[]);
    assert_eq!(w.tree, "/e\n├── bad.rs\n├── locked\n└── ok.rs\n");
    assert_eq!(w.errors, vec!["bad.rs", "locked"]);
    assert_eq!(block_pairs(&w), vec![("ok.rs".to_string(), "ok".to_string())]);
}

#[test]
fn walk_root_errors() {
    let f = file("/f.rs", "x");
    assert!(matches!(walk(&f, &strings(&["rs"]), &vec![]), Err(WalkError::NotADirectory)));
    let d = Entry::Dir { name: "/x".to_string(), children: vec![], listed: false };
    assert!(matches!(walk(&d, &strings(&["rs"]), &vec![]), Err(WalkError::Unreadable)));
}

#[test]
fn walk_dotfile_has_no_extension() {
    let root = dir("/h", vec![file(".rs", "x"), file(".a.rs", "y")]);
    let w = walked(&root, &["rs"], &[]);
    assert_eq!(w.tree, "/h\n└── .a.rs\n");
}

#[test]
fn admission_and_denial_predicates() {
    let allowed = strings(&["rs", "toml"]);
    assert!(admits_file("main.rs", &allowed));
    assert!(!admits_file("main.py", &allowed));
    assert!(!admits_file("Makefile", &allowed));
    assert!(!admits_file(".toml", &allowed));
    let deny = strings(&["target"]);
    assert!(denies_dir("target", &deny));
    assert!(!denies_dir("targets", &deny));
}

#[test]
fn assemble_orders_the_parts() {
    let blocks = vec![FileBlock { path: "src/main.rs".to_string(), content: "fn main(){}".to_string() }];
    let doc = assemble("Intro", "/p\n└── src\n", &blocks, "Add tests");
    assert_eq!(
        doc,
        "Intro\n/p\n└── src\n\nFile: src/main.rs\n```\nfn main(){}\n```\nSpecific Goal: Add tests\n"
    );
}

#[test]
fn assemble_without_blocks() {
    assert_eq!(assemble("", "/p\n", &vec![], "g"), "\n/p\n\nSpecific Goal: g\n");
}

#[test]
fn compaction_keeps_a_doubled_carriage_return_once() {
    let once = remove_empty_lines("a\r\r\nb");
    assert_eq!(once, "a\r\nb");
    assert_eq!(remove_empty_lines(&once), "a\nb");
}
