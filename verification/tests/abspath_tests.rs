use dotloy::abspath::{parent_of, remove_midcomps, AbsPathBuf};

fn root() -> AbsPathBuf {
    AbsPathBuf::from_absolute("/".to_owned()).unwrap()
}

#[test]
fn abspath_normalises_paths() {
    let base = root();
    assert_eq!(
        AbsPathBuf::new("././.", &base),
        AbsPathBuf::new(".", &base)
    );
}

#[test]
fn abspath_can_handle_non_existant_paths() {
    let base = root();
    let p = AbsPathBuf::new("I do not exist", &base);
    assert!(p.as_str().starts_with('/'));
}

#[test]
fn existing_paths_resolve_to_their_canonical_form() {
    // The current directory exists, so resolution goes through the
    // operating system and yields an absolute spelling different
    // from the relative input.
    let base = root();
    let p = AbsPathBuf::new("src", &base);
    assert!(p.as_str().starts_with('/'));
    assert!(p.as_str().ends_with("/src"));
    assert_ne!(p.as_str(), "src");
    // and different relative spellings of the same entity agree
    assert_eq!(AbsPathBuf::new("./src/..", &base), AbsPathBuf::new(".", &base));
}

#[test]
fn remove_midcomps_collapses_dots_and_parents() {
    assert_eq!(remove_midcomps("/a/b/../c/./d//e"), "/a/c/d/e");
    assert_eq!(remove_midcomps("/a/.."), "/");
    assert_eq!(remove_midcomps("/"), "/");
    assert_eq!(remove_midcomps("/.."), "/..");
    assert_eq!(remove_midcomps("/../.."), "/");
}

#[test]
fn lexical_resolution_joins_relative_paths_onto_the_base() {
    let base = AbsPathBuf::from_absolute("/base/dir".to_owned()).unwrap();
    assert_eq!(AbsPathBuf::resolve_lexical("x/../y", &base).as_str(), "/base/dir/y");
    assert_eq!(AbsPathBuf::resolve_lexical(".", &base).as_str(), "/base/dir");
    assert_eq!(AbsPathBuf::resolve_lexical("././.", &base).as_str(), "/base/dir");
    assert_eq!(AbsPathBuf::resolve_lexical("/already/abs", &base).as_str(), "/already/abs");
}

#[test]
fn parent_of_strips_the_final_component() {
    assert_eq!(parent_of("/a/b"), Some("/a".to_owned()));
    assert_eq!(parent_of("/a"), Some("/".to_owned()));
    assert_eq!(parent_of("a"), Some(String::new()));
    assert_eq!(parent_of("./dst"), Some(".".to_owned()));
    assert_eq!(parent_of("a/b/"), Some("a".to_owned()));
    assert_eq!(parent_of("/"), None);
    assert_eq!(parent_of(""), None);
}
