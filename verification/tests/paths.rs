use libxcp::entry::{place, target_path};
use libxcp::path::{empty_path, PathBuf};
use libxcp::path_set::PathSet;

fn p(text: &str) -> PathBuf {
    PathBuf::from_bytes(text.as_bytes().to_vec())
}

fn text(path: &PathBuf) -> String {
    String::from_utf8(path.as_bytes().clone()).unwrap()
}

fn names(path: &str) -> Vec<String> {
    p(path).components().into_iter().map(|c| String::from_utf8(c).unwrap()).collect()
}

#[test]
fn components_drop_empty_names_and_inner_dots() {
    assert_eq!(names("a/b/c"), vec!["a", "b", "c"]);
    assert_eq!(names("a//b/./c/"), vec!["a", "b", "c"]);
    assert_eq!(names("./a"), vec![".", "a"]);
    assert_eq!(names("."), vec!["."]);
    assert_eq!(names(".."), vec![".."]);
    assert_eq!(names("a/.."), vec!["a", ".."]);
}

#[test]
fn components_of_rooted_paths_start_with_the_root() {
    assert_eq!(names("/"), vec!["/"]);
    assert_eq!(names("//"), vec!["/"]);
    assert_eq!(names("/a/b"), vec!["/", "a", "b"]);
    assert_eq!(names("/./a"), vec!["/", "a"]);
}

#[test]
fn components_agree_with_the_standard_library() {
    let samples = [
        "", ".", "..", "/", "//", "a", "a/", "./a", "a/./b", "a//b", "/a", "/./a/.", "./", "./.",
        "../a", "a/../b", ".a/..b", "/..", "a/.", "///a//b///", "....", "a b/c d",
    ];
    for sample in samples {
        let expected: Vec<Vec<u8>> = std::path::Path::new(sample)
            .components()
            .map(|c| c.as_os_str().to_string_lossy().into_owned().into_bytes())
            .collect();
        assert_eq!(p(sample).components(), expected, "{sample:?}");
    }
}

#[test]
fn only_the_path_without_text_is_empty() {
    assert!(empty_path(&p("")));
    assert!(!empty_path(&p(".")));
    assert!(!empty_path(&p("/")));
    assert!(!empty_path(&p("a")));
}

#[test]
fn paths_with_the_same_components_are_the_same() {
    assert!(p("a/b").same_as(&p("a//b/")));
    assert!(p("a/b") == p("a/./b"));
    assert!(p("a/b") != p("./a/b"));
    assert!(p("/a") != p("a"));
    assert!(p("a") != p("a/b"));
}

#[test]
fn join_adds_one_separator() {
    assert_eq!(text(&p("a").join(&p("b"))), "a/b");
    assert_eq!(text(&p("a/").join(&p("b"))), "a/b");
    assert_eq!(text(&p("").join(&p("b"))), "b");
    assert_eq!(text(&p("a").join(&p(""))), "a/");
    assert_eq!(text(&p("a").join(&p("/b"))), "/b");
}

#[test]
fn join_agrees_with_the_standard_library() {
    let samples = ["", "a", "a/", "/", "/a/b", ".", "..", "x/y/"];
    for base in samples {
        for rel in samples {
            let expected = std::path::Path::new(base).join(rel);
            assert_eq!(text(&p(base).join(&p(rel))), expected.to_str().unwrap());
        }
    }
}

#[test]
fn strip_prefix_takes_whole_components() {
    assert_eq!(text(&p("a/b/c").strip_prefix(&p("a")).unwrap()), "b/c");
    assert_eq!(text(&p("a/b//c/").strip_prefix(&p("a/./b")).unwrap()), "c");
    assert_eq!(text(&p("a/b").strip_prefix(&p("a/b")).unwrap()), "");
    assert!(p("abc").strip_prefix(&p("a")).is_none());
    assert!(p("a").strip_prefix(&p("a/b")).is_none());
    assert!(p("/a").strip_prefix(&p("a")).is_none());
}

#[test]
fn strip_prefix_undoes_join() {
    for base in ["", "a", "a/", "/", "/x/y", "."] {
        for rel in ["b", "b/c", "b//c/"] {
            let back = p(base).join(&p(rel)).strip_prefix(&p(base)).unwrap();
            assert!(back.same_as(&p(rel)), "{base:?} {rel:?}");
        }
    }
}

#[test]
fn last_component_is_the_name() {
    assert_eq!(text(&p("a/b/").last_component().unwrap()), "b");
    assert_eq!(text(&p("/").last_component().unwrap()), "/");
    assert_eq!(text(&p("a/..").last_component().unwrap()), "..");
    assert!(p("").last_component().is_none());
}

#[test]
fn clones_keep_the_text() {
    assert_eq!(text(&p("a//b/").clone()), "a//b/");
}

#[test]
fn the_top_of_a_source_belongs_at_the_base() {
    assert_eq!(text(&target_path(&p("base"), &p(""))), "base");
    assert_eq!(text(&target_path(&p("base"), &p("x/y"))), "base/x/y");
}

#[test]
fn an_entry_is_placed_where_it_lies_in_the_source() {
    let (rel, target) = place(&p("src"), &p("dst"), &p("src/a/b")).unwrap();
    assert_eq!(text(&rel), "a/b");
    assert_eq!(text(&target), "dst/a/b");
    let (rel, target) = place(&p("src"), &p("dst"), &p("src")).unwrap();
    assert_eq!(text(&rel), "");
    assert_eq!(text(&target), "dst");
    assert!(place(&p("src"), &p("dst"), &p("srcx/a")).is_none());
}

#[test]
fn different_entries_get_different_targets() {
    let a = place(&p("s"), &p("d"), &p("s/a")).unwrap().1;
    let b = place(&p("s"), &p("d"), &p("s/b")).unwrap().1;
    let inner = place(&p("s"), &p("d"), &p("s/a/x")).unwrap().1;
    assert!(a != b);
    assert!(inner.strip_prefix(&a).is_some());
    assert!(inner.strip_prefix(&b).is_none());
}

#[test]
fn path_sets_hold_what_was_inserted() {
    let mut set = PathSet::new();
    assert!(!set.contains(&p("a/b").components()));
    set.insert(p("a/b").components());
    set.insert(p("").components());
    assert!(set.contains(&p("a//b").components()));
    assert!(set.contains(&p("").components()));
    assert!(!set.contains(&p("a").components()));
    assert!(!set.contains(&p("ab").components()));
    for i in 0..500 {
        set.insert(p(&format!("dir/{i}")).components());
    }
    for i in 0..500 {
        assert!(set.contains(&p(&format!("dir/{i}")).components()));
    }
    assert!(!set.contains(&p("dir/500").components()));
}
