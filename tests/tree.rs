use embed_it::entry_kind::EntryKind;
use embed_it::synth::{emit, generate};
use embed_it::tree::{build_tree, BuildError, SourceEntry};

fn file(n: &str) -> SourceEntry {
    SourceEntry::File(n.to_string())
}

fn dir(n: &str, ch: Vec<SourceEntry>) -> SourceEntry {
    SourceEntry::Dir(n.to_string(), ch)
}

fn sample() -> Vec<SourceEntry> {
    vec![dir("b", vec![file("c.txt")]), file("a.txt")]
}

#[test]
fn builds_root_with_file_and_nested_dir() {
    let nodes = match build_tree(&sample()) {
        Ok(n) => n,
        Err(_) => panic!("build failed"),
    };
    assert_eq!(nodes.len(), 2);
    let a = &nodes[0];
    assert_eq!(a.kind, EntryKind::File);
    assert_eq!(a.ident, "a");
    assert_eq!(a.relative_path, "a.txt");
    assert_eq!(a.name, "a.txt");
    assert_eq!(a.stem, "a");
    assert!(a.children.is_empty());
    let b = &nodes[1];
    assert_eq!(b.kind, EntryKind::Dir);
    assert_eq!(b.ident, "b");
    assert_eq!(b.relative_path, "b");
    assert_eq!(b.children.len(), 1);
    let c = &b.children[0];
    assert_eq!(c.kind, EntryKind::File);
    assert_eq!(c.ident, "c");
    assert_eq!(c.relative_path, "b/c.txt");
    assert_eq!(c.name, "c.txt");
    assert_eq!(c.stem, "c");
}

#[test]
fn children_come_in_name_order() {
    let nodes = match build_tree(&vec![file("zeta"), file("Alpha"), file("beta")]) {
        Ok(n) => n,
        Err(_) => panic!("build failed"),
    };
    let names: Vec<&str> = nodes.iter().map(|n| n.name.as_str()).collect();
    assert_eq!(names, vec!["Alpha", "beta", "zeta"]);
}

#[test]
fn sibling_identifiers_are_distinct() {
    let entries = vec![dir("d", vec![file("foo.baz"), file("foo.bar"), dir("a-b", vec![]), dir("a_b", vec![])])];
    let nodes = match build_tree(&entries) {
        Ok(n) => n,
        Err(_) => panic!("build failed"),
    };
    let ids: Vec<&str> = nodes[0].children.iter().map(|n| n.ident.as_str()).collect();
    assert_eq!(ids, vec!["a_b", "a_b_2", "foo", "foo_2"]);
}

#[test]
fn unreadable_subdirectory_fails_with_its_path() {
    let entries = vec![dir("b", vec![file("c.txt"), SourceEntry::Unreadable("locked".to_string())]), file("a.txt")];
    match build_tree(&entries) {
        Err(BuildError::Unreadable(p)) => assert_eq!(p, "b/locked"),
        _ => panic!("expected an unreadable entry"),
    }
    assert!(matches!(generate(&entries), Err(BuildError::Unreadable(p)) if p == "b/locked"));
}

#[test]
fn non_utf8_name_fails_with_parent_and_preview() {
    let entries = vec![dir("d", vec![SourceEntry::NonUtf8("bad\u{FFFD}".to_string())])];
    match generate(&entries) {
        Err(BuildError::NonUtf8 { parent, preview }) => {
            assert_eq!(parent, "d");
            assert_eq!(preview, "bad\u{FFFD}");
        },
        _ => panic!("expected an encoding error"),
    }
}

#[test]
fn emits_one_module_per_node() {
    let nodes = match build_tree(&sample()) {
        Ok(n) => n,
        Err(_) => panic!("build failed"),
    };
    let expected = "pub mod a {\n\
pub const KIND: EntryKind = EntryKind::File;\n\
pub const PATH: EmbeddedPath = EmbeddedPath::new(\"a.txt\", \"a.txt\", \"a\");\n\
}\n\
pub mod b {\n\
pub const KIND: EntryKind = EntryKind::Dir;\n\
pub const PATH: EmbeddedPath = EmbeddedPath::new(\"b\", \"b\", \"b\");\n\
pub mod c {\n\
pub const KIND: EntryKind = EntryKind::File;\n\
pub const PATH: EmbeddedPath = EmbeddedPath::new(\"b/c.txt\", \"c.txt\", \"c\");\n\
}\n\
}\n";
    assert_eq!(emit(&nodes), expected);
}

#[test]
fn quotes_and_backslashes_are_escaped() {
    let text = match generate(&vec![file("say\"hi\\.txt")]) {
        Ok(t) => t,
        Err(_) => panic!("generation failed"),
    };
    assert!(text.contains("EmbeddedPath::new(\"say\\\"hi\\\\.txt\", \"say\\\"hi\\\\.txt\", \"say\\\"hi\\\\\")"));
    assert!(text.starts_with("pub mod say_hi_ {\n"));
}

#[test]
fn generation_is_repeatable() {
    let entries = vec![dir("b", vec![file("c.txt"), file("c.md")]), file("a.txt"), file("1.txt")];
    let first = match generate(&entries) {
        Ok(t) => t,
        Err(_) => panic!("generation failed"),
    };
    let second = match generate(&entries) {
        Ok(t) => t,
        Err(_) => panic!("generation failed"),
    };
    assert_eq!(first, second);
    assert!(first.contains("pub mod _1 {"));
}

#[test]
fn empty_root_emits_nothing() {
    assert!(matches!(generate(&vec![]), Ok(t) if t.is_empty()));
}

#[test]
fn invalid_names_fail_with_parent_and_name() {
    match build_tree(&vec![dir("d", vec![file("a/b")])]) {
        Err(BuildError::InvalidName { parent, name }) => {
            assert_eq!(parent, "d");
            assert_eq!(name, "a/b");
        },
        _ => panic!("expected an invalid name"),
    }
    assert!(matches!(generate(&vec![file("")]), Err(BuildError::InvalidName { parent, name }) if parent.is_empty() && name.is_empty()));
}
