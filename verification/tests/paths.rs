use std::path::Path;

use nixly_launcher::dedup::keep_firsts;
use nixly_launcher::desktop::ComponentsKey;
use nixly_launcher::filepath::{components_before, split_components, FilePath};

fn path(s: &str) -> FilePath {
    FilePath::new(s)
}

fn text(p: &FilePath) -> String {
    String::from_utf8(p.bytes.clone()).unwrap()
}

fn opt_text(p: Option<Vec<u8>>) -> Option<String> {
    p.map(|b| String::from_utf8(b).unwrap())
}

fn samples() -> Vec<String> {
    let pieces = ["", ".", "..", "a", ".b", "c.d", "e.f.g", "h."];
    let mut out: Vec<String> = Vec::new();
    for lead in ["", "/", "//"] {
        for a in pieces {
            out.push(format!("{lead}{a}"));
            for b in pieces {
                out.push(format!("{lead}{a}/{b}"));
                for c in pieces {
                    out.push(format!("{lead}{a}/{b}/{c}"));
                }
            }
        }
    }
    out
}

#[test]
fn components_are_those_of_std() {
    for s in samples() {
        let ours: Vec<String> = split_components(s.as_bytes())
            .into_iter()
            .map(|c| String::from_utf8(c).unwrap())
            .collect();
        let theirs: Vec<String> = Path::new(&s)
            .components()
            .map(|c| c.as_os_str().to_str().unwrap().to_string())
            .collect();
        assert_eq!(ours, theirs, "{s:?}");
        assert_eq!(path(&s).component_count(), theirs.len());
    }
}

#[test]
fn names_and_parents_are_those_of_std() {
    for s in samples() {
        let ours = path(&s);
        let theirs = Path::new(&s);
        let name = theirs.file_name().map(|n| n.to_str().unwrap().to_string());
        let stem = theirs.file_stem().map(|n| n.to_str().unwrap().to_string());
        let ext = theirs.extension().map(|n| n.to_str().unwrap().to_string());
        let parent = theirs.parent().map(|n| n.to_str().unwrap().to_string());
        assert_eq!(opt_text(ours.file_name()), name, "name of {s:?}");
        assert_eq!(opt_text(ours.file_stem()), stem, "stem of {s:?}");
        assert_eq!(opt_text(ours.extension()), ext, "extension of {s:?}");
        assert_eq!(ours.parent().map(|p| text(&p)), parent, "parent of {s:?}");
    }
}

#[test]
fn relations_are_those_of_std() {
    let all = samples();
    for a in all.iter().step_by(7) {
        for b in all.iter().step_by(11) {
            let (pa, pb) = (Path::new(a), Path::new(b));
            let (oa, ob) = (path(a), path(b));
            assert_eq!(oa.same(&ob), pa == pb, "{a:?} {b:?}");
            assert_eq!(oa.starts_with(&ob), pa.starts_with(pb), "{a:?} {b:?}");
            assert_eq!(text(&oa.join(&ob)), pa.join(pb).to_str().unwrap(), "{a:?} {b:?}");
            let before = components_before(
                &split_components(a.as_bytes()),
                &split_components(b.as_bytes()),
            );
            assert_eq!(before, pa < pb, "{a:?} {b:?}");
        }
    }
}

#[test]
fn hidden_components_below_a_base() {
    let home = path("/home/u");
    assert!(path("/home/u/a/b.txt").visible_below(&home));
    assert!(path("/home/u").visible_below(&home));
    assert!(!path("/home/u/.config/x").visible_below(&home));
    assert!(!path("/home/u/a/.x").visible_below(&home));
    assert!(!path("/home/other/a").visible_below(&home));
    assert!(!path("/home/u2/a").visible_below(&home));
    assert!(path("/home/.u/a").visible_below(&path("/home/.u")));
    assert!(path("/home/u/../a").visible_below(&home));
    assert!(path("./a").visible_below(&path("")));
    assert!(!path("./.a").visible_below(&path("")));
}

#[test]
fn joined_name_is_the_last_component() {
    let joined = path("/a/b/").join_str("c.txt");
    assert_eq!(text(&joined), "/a/b/c.txt");
    assert_eq!(opt_text(joined.file_name()), Some("c.txt".to_string()));
    assert!(joined.starts_with(&path("/a/b")));
    assert!(joined.parent().unwrap().same(&path("/a/b")));
    assert_eq!(text(&path("/a").join_str("/b")), "/b");
}

#[test]
fn lossy_text_replaces_invalid_bytes() {
    let p = FilePath { bytes: vec![0x2f, 0xff, 0x61] };
    assert_eq!(p.to_string_lossy(), "/\u{fffd}a");
}

#[test]
fn first_of_equal_keys_is_kept() {
    let items = vec!["x", "y", "z", "w"];
    let keys: Vec<ComponentsKey> = ["/a/b", "/c", "/a//b/.", "/c/d"]
        .iter()
        .map(|s| ComponentsKey::new(&path(s)))
        .collect();
    assert_eq!(keep_firsts(items, &keys), vec!["x", "y", "w"]);
}
