use mozsearch_format::paths::{
    has_extension, read_file_name, read_parent, read_strip_prefix, same_path,
};
use std::path::Path;

const PATHS: [&str; 22] = [
    "", "/", ".", "..", "a", "a/", "/a", "a/b", "a//b/", "./a", "a/.", "a/./b", "a/..", "../a",
    "/..", "//a//b.svg", ".svg", "x.svg", "dir.svg/x", "a.b.svg", "a.", "é/ü.svg",
];

#[test]
fn file_names_are_those_of_the_standard_library() {
    for p in PATHS {
        let expected = Path::new(p).file_name().map(|n| n.to_str().unwrap());
        assert_eq!(read_file_name(p), expected, "{}", p);
    }
}

#[test]
fn extensions_are_those_of_the_standard_library() {
    for p in PATHS {
        let expected = Path::new(p).extension().map_or(false, |e| e.to_str() == Some("svg"));
        assert_eq!(has_extension(p, "svg"), expected, "{}", p);
    }
    assert!(has_extension("logo.svg", "svg"));
    assert!(!has_extension("logo.SVG", "svg"));
}

#[test]
fn parents_are_those_of_the_standard_library() {
    for p in PATHS {
        let expected = Path::new(p).parent().map(|q| q.to_str().unwrap().to_owned());
        match (read_parent(p), expected) {
            (Some(a), Some(b)) => assert_eq!(Path::new(&a), Path::new(&b), "{}", p),
            (a, b) => assert_eq!(a, b, "{}", p),
        }
    }
}

#[test]
fn a_parent_has_one_component_less() {
    assert_eq!(read_parent("a/b/c.rs").as_deref(), Some("a/b"));
    assert_eq!(read_parent("a").as_deref(), Some(""));
    assert_eq!(read_parent(""), None);
}

#[test]
fn paths_compare_as_in_the_standard_library() {
    for p in PATHS {
        for q in PATHS {
            assert_eq!(same_path(p, q), Path::new(p) == Path::new(q), "{} {}", p, q);
        }
    }
}

#[test]
fn prefixes_are_stripped_as_in_the_standard_library() {
    for p in PATHS {
        for q in PATHS {
            let expected = Path::new(p).strip_prefix(q).ok();
            match (read_strip_prefix(p, q), expected) {
                (Some(a), Some(b)) => assert_eq!(Path::new(&a), b, "{} {}", p, q),
                (a, b) => assert_eq!(a.is_none(), b.is_none(), "{} {}", p, q),
            }
        }
    }
    assert_eq!(read_strip_prefix("ext/lib/src/x.c", "ext/lib").as_deref(), Some("src/x.c"));
}
