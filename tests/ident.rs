use embed_it::entry_kind::EntryKind;
use embed_it::ident::{base_identifier, derive_identifiers, disambiguate, stem_chars};

fn chars(s: &str) -> Vec<char> {
    s.chars().collect()
}

fn text(v: &[char]) -> String {
    v.iter().collect()
}

fn derive(names: &[&str], kind: EntryKind) -> Vec<String> {
    let entries: Vec<(String, EntryKind)> = names.iter().map(|s| (s.to_string(), kind)).collect();
    derive_identifiers(&entries)
}

#[test]
fn kind_tags() {
    assert_eq!(EntryKind::Dir.tag(), "Dir");
    assert_eq!(EntryKind::File.tag(), "File");
    assert_eq!(EntryKind::Dir.ident().to_string(), "Dir");
    assert_eq!(EntryKind::File.ident().to_string(), "File");
}

#[test]
fn file_identifier_uses_the_stem() {
    assert_eq!(text(&base_identifier(&chars("a.txt"), EntryKind::File)), "a");
    assert_eq!(text(&base_identifier(&chars("a.txt"), EntryKind::Dir)), "a_txt");
}

#[test]
fn invalid_characters_become_underscores() {
    assert_eq!(text(&base_identifier(&chars("my-dir v2"), EntryKind::Dir)), "my_dir_v2");
    assert_eq!(text(&base_identifier(&chars("caf\u{e9}.png"), EntryKind::File)), "caf_");
}

#[test]
fn leading_digit_gets_an_underscore() {
    assert_eq!(text(&base_identifier(&chars("1st.txt"), EntryKind::File)), "_1st");
}

#[test]
fn reserved_words_get_a_suffix() {
    assert_eq!(text(&base_identifier(&chars("type"), EntryKind::Dir)), "type_");
    assert_eq!(text(&base_identifier(&chars("mod.rs"), EntryKind::File)), "mod_");
    assert_eq!(text(&base_identifier(&chars("extern"), EntryKind::Dir)), "extern_");
    assert_eq!(text(&base_identifier(&chars("Self"), EntryKind::Dir)), "Self_");
    assert_eq!(text(&base_identifier(&chars("types"), EntryKind::Dir)), "types");
}

#[test]
fn degenerate_names_fall_back_to_placeholder() {
    assert_eq!(text(&base_identifier(&chars(""), EntryKind::Dir)), "__");
    assert_eq!(text(&base_identifier(&chars("-"), EntryKind::Dir)), "__");
    assert_eq!(text(&base_identifier(&chars(".gitignore"), EntryKind::File)), "__");
    assert_eq!(text(&base_identifier(&chars(".env"), EntryKind::File)), "__");
    assert_eq!(text(&base_identifier(&chars(".config"), EntryKind::Dir)), "_config");
    assert_eq!(text(&base_identifier(&chars(".tar.gz"), EntryKind::File)), "_tar");
}

#[test]
fn stem_of_names() {
    assert_eq!(text(&stem_chars(&chars("a.b.c"))), "a.b");
    assert_eq!(text(&stem_chars(&chars(".env"))), ".env");
    assert_eq!(text(&stem_chars(&chars(".."))), "..");
    assert_eq!(text(&stem_chars(&chars("plain"))), "plain");
}

#[test]
fn same_stem_files_get_distinct_identifiers() {
    assert_eq!(derive(&["foo.bar", "foo.baz"], EntryKind::File), vec!["foo", "foo_2"]);
}

#[test]
fn suffix_skips_taken_candidates() {
    assert_eq!(
        derive(&["a-b", "a_b", "a_b_2"], EntryKind::Dir),
        vec!["a_b", "a_b_2", "a_b_2_2"]
    );
}

#[test]
fn suffixes_count_past_nine() {
    let names: Vec<String> = (1..=12).map(|i| format!("x.{}", i)).collect();
    let refs: Vec<&str> = names.iter().map(|s| s.as_str()).collect();
    let ids = derive(&refs, EntryKind::File);
    assert_eq!(ids[0], "x");
    assert_eq!(ids[1], "x_2");
    assert_eq!(ids[9], "x_10");
    assert_eq!(ids[11], "x_12");
    for i in 0..ids.len() {
        for j in 0..i {
            assert_ne!(ids[i], ids[j]);
        }
    }
}

#[test]
fn disambiguate_picks_least_free_suffix() {
    let used = vec![chars("n"), chars("n_2"), chars("n_4")];
    assert_eq!(text(&disambiguate(chars("n"), &used)), "n_3");
    assert_eq!(text(&disambiguate(chars("m"), &used)), "m");
}

#[test]
fn renaming_a_later_sibling_keeps_earlier_identifiers() {
    let before = derive(&["alpha.txt", "beta.txt", "gamma.txt"], EntryKind::File);
    let after = derive(&["alpha.txt", "beta.txt", "beta.md"], EntryKind::File);
    assert_eq!(before[0], after[0]);
    assert_eq!(before[1], after[1]);
    assert_eq!(before[2], "gamma");
    assert_eq!(after[2], "beta_2");
}

#[test]
fn file_and_directory_with_same_base_are_disambiguated() {
    let entries = vec![("a".to_string(), EntryKind::Dir), ("a.txt".to_string(), EntryKind::File)];
    assert_eq!(derive_identifiers(&entries), vec!["a", "a_2"]);
}

#[test]
fn pure_extension_files_share_the_placeholder_then_disambiguate() {
    assert_eq!(
        derive(&[".env", ".gitignore", "__.txt"], EntryKind::File),
        vec!["__", "___2", "___3"]
    );
}
