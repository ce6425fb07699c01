use aris::github::{TreeEntry, select_target_files, decode_file_content, ContentError, normalize_import_exec,
    imported_names, register_files, link_imports, build_payload, is_eligible, auth_header};
use aris::graph::Graph;
use aris::interner::Interner;
use aris::types::EdgeType;

fn entry(t: &str, p: &str, size: u64) -> TreeEntry {
    TreeEntry { entry_type: Some(t.to_string()), path: Some(p.to_string()), size: Some(size) }
}

#[test]
fn selection_filters_and_puts_core_first() {
    let tree = vec![
        entry("blob", "lib/util.py", 10),
        entry("blob", "src/Main.RS", 10),
        entry("tree", "src/dir.rs", 10),
        entry("blob", "node_modules/x.js", 10),
        entry("blob", "README.md", 10),
        entry("blob", "app/page.tsx", 51200),
        entry("blob", "src/big.rs", 51201),
        entry("blob", "src/empty.rs", 0),
        entry("blob", "pkg/tests/t.go", 5),
        TreeEntry { entry_type: Some("blob".to_string()), path: Some("src/nosize.rs".to_string()), size: None },
    ];
    let files = select_target_files(&tree).unwrap();
    assert_eq!(files, vec!["src/Main.RS".to_string(), "app/page.tsx".to_string(), "lib/util.py".to_string()]);
}

#[test]
fn selection_keeps_at_most_80() {
    let tree: Vec<TreeEntry> = (0..100).map(|i| entry("blob", &format!("lib/f{}.rs", i), 1)).collect();
    let files = select_target_files(&tree).unwrap();
    assert_eq!(files.len(), 80);
    assert_eq!(files[79], "lib/f79.rs");
}

#[test]
fn selection_without_files_is_an_error() {
    let tree = vec![entry("blob", "README.md", 3)];
    assert_eq!(select_target_files(&tree), Err("No eligible code files found in repository.".to_string()));
    assert!(!is_eligible(&entry("blob", "build/out.js", 3)));
}

#[test]
fn content_decoding() {
    assert_eq!(decode_file_content("aGVs\nbG8=\r\n"), Ok("hello".to_string()));
    assert_eq!(decode_file_content("!!!"), Err(ContentError::NotBase64));
    assert_eq!(decode_file_content("/w=="), Err(ContentError::NotUtf8));
}

#[test]
fn import_names_are_normalized() {
    let n = |s: &str| normalize_import_exec(s).into_iter().collect::<String>();
    assert_eq!(n("./util.rs"), "util");
    assert_eq!(n("../lib/helpers.py"), "lib/helpers");
    assert_eq!(n("./../x.ts"), "x");
    assert_eq!(n("pkg.module"), "pkg.module");
    assert_eq!(n("a.RS"), "a.RS");
}

#[test]
fn import_lines_are_found() {
    let text = "use crate::graph;\nimport './b.js'\n  from x\nrequire \"c/d\"\nnot use y";
    assert_eq!(imported_names(text), vec!["crate".to_string(), "./b.js".to_string(), "c/d".to_string()]);
}

#[test]
fn imports_become_edges_and_payload() {
    let files = vec!["src/a.rs".to_string(), "src/b.rs".to_string(), "src/c.rs".to_string()];
    let mut names = Interner::new();
    let mut g = Graph::new();
    register_files(&files, &mut names, &mut g);
    let contents = vec![("src/a.rs".to_string(), "use b;\nimport src/\n".to_string())];
    link_imports(&files, &contents, &mut names, &mut g);
    let mut out = g.out_edges(0).unwrap();
    out.sort();
    assert_eq!(out, vec![(1, EdgeType::Imports), (2, EdgeType::Imports)]);
    let p = build_payload(&files, &mut names, &g);
    assert_eq!(p.nodes.len(), 3);
    assert_eq!(p.nodes[2].id, 2);
    assert_eq!(p.nodes[2].label, "src/c.rs");
    let mut e: Vec<(u32, u32, String)> = p.edges.iter().map(|e| (e.source, e.target, e.kind.clone())).collect();
    e.sort();
    assert_eq!(e, vec![(0, 1, "Imports".to_string()), (0, 2, "Imports".to_string())]);
}

#[test]
fn auth_header_only_for_real_tokens() {
    assert_eq!(auth_header(Some("abc123")), Some("token abc123".to_string()));
    assert_eq!(auth_header(Some("")), None);
    assert_eq!(auth_header(Some("your_token_here")), None);
    assert_eq!(auth_header(None), None);
}
