use embed_it::embedded_path::EmbeddedPath;
use std::path::Path;

#[test]
fn new_keeps_the_three_parts() {
    let p = EmbeddedPath::new("assets/logo.png", "logo.png", "logo");
    assert_eq!(p.relative_path_str(), "assets/logo.png");
    assert_eq!(p.name(), "logo.png");
    assert_eq!(p.stem(), "logo");
}

#[test]
fn relative_path_is_the_same_text_as_a_path() {
    let p = EmbeddedPath::new("a/b.txt", "b.txt", "b");
    assert_eq!(p.relative_path(), Path::new("a/b.txt"));
}

#[test]
fn display_form_is_the_relative_path() {
    let p = EmbeddedPath::new("dir/file.rs", "file.rs", "file");
    assert_eq!(p.to_string(), "dir/file.rs");
}

#[test]
fn split_takes_last_component_and_stem() {
    let p = EmbeddedPath::from_relative_path("assets/img/logo.png");
    assert_eq!(p.relative_path_str(), "assets/img/logo.png");
    assert_eq!(p.name(), "logo.png");
    assert_eq!(p.stem(), "logo");
}

#[test]
fn split_of_a_top_level_file() {
    let p = EmbeddedPath::from_relative_path("a.txt");
    assert_eq!(p.name(), "a.txt");
    assert_eq!(p.stem(), "a");
}

#[test]
fn split_removes_only_the_last_extension() {
    let p = EmbeddedPath::from_relative_path("dist/archive.tar.gz");
    assert_eq!(p.name(), "archive.tar.gz");
    assert_eq!(p.stem(), "archive.tar");
}

#[test]
fn split_keeps_names_without_extension() {
    let p = EmbeddedPath::from_relative_path("docs/README");
    assert_eq!(p.name(), "README");
    assert_eq!(p.stem(), "README");
    let d = EmbeddedPath::from_relative_path("conf/.gitignore");
    assert_eq!(d.name(), ".gitignore");
    assert_eq!(d.stem(), ".gitignore");
    let up = EmbeddedPath::from_relative_path("x/..");
    assert_eq!(up.name(), "..");
    assert_eq!(up.stem(), "..");
}

#[test]
fn split_agrees_with_std_path() {
    for s in ["a/b/c.d.e", "top", "x/.hidden.txt", "m/n/o."] {
        let p = EmbeddedPath::from_relative_path(s);
        let path = Path::new(s);
        assert_eq!(Some(p.name()), path.file_name().and_then(|n| n.to_str()));
        assert_eq!(Some(p.stem()), path.file_stem().and_then(|n| n.to_str()));
    }
}
