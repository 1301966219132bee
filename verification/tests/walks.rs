use nixly_launcher::fileindex;
use nixly_launcher::filepath::FilePath;
use nixly_launcher::font::{find, FontError};
use nixly_launcher::gitscan::{self, git_mtime, strip_nested, visit, visit_named, GitProject, Visit};
use nixly_launcher::mounts::walk_roots;
use nixly_launcher::protocol::ErrorKind;
use nixly_launcher::recents::Recent;

fn path(s: &str) -> FilePath {
    FilePath::new(s)
}

fn text(p: &FilePath) -> String {
    String::from_utf8(p.bytes.clone()).unwrap()
}

fn project(p: &str, mtime: u64) -> GitProject {
    GitProject { path: path(p), mtime }
}

fn listed(projects: &[GitProject]) -> Vec<String> {
    projects.iter().map(|p| text(&p.path)).collect()
}

#[test]
fn file_walk_leaves_out_caches_and_trash() {
    for name in ["node_modules", ".git", ".cache", "Trash", ".Trash-1000", "__pycache__", ".local"] {
        assert!(fileindex::is_skipped(true, Some("x"), Some(name), 1), "{name}");
        assert!(!fileindex::is_skipped(false, None, Some(name), 1));
        assert!(!fileindex::is_skipped(true, Some("x"), Some(name), 0));
    }
    for name in [".config", "src", ".Trash", "Target", "vendor"] {
        assert!(!fileindex::is_skipped(true, Some("x"), Some(name), 1), "{name}");
    }
    assert!(!fileindex::is_skipped(true, Some(".config"), None, 1));
    assert_eq!(fileindex::MAX_DEPTH, 12);
}

#[test]
fn file_walk_leaves_out_what_browsers_keep() {
    for name in ["google-chrome", "chromium", "BraveSoftware", "discord"] {
        assert!(fileindex::is_skipped(true, Some(".config"), Some(name), 2), "{name}");
        assert!(!fileindex::is_skipped(true, Some(".config"), Some(name), 0));
        assert!(!fileindex::is_skipped(false, Some(".config"), Some(name), 2));
        assert!(!fileindex::is_skipped(true, Some("config"), Some(name), 2));
        assert!(!fileindex::is_skipped(true, None, Some(name), 2));
    }
    assert!(!fileindex::is_skipped(true, Some(".config"), Some("kitty"), 2));
    assert!(fileindex::is_skipped(true, Some(".config"), Some(".git"), 2));
}

#[test]
fn file_index_grows_newest_first() {
    let r = |p: &str, mtime: u64| Recent { path: path(p), mtime };
    let all = fileindex::add_root(vec![r("/a", 5), r("/b", 3)], vec![r("/c", 4), r("/d", 5)]);
    let names: Vec<String> = all.iter().map(|r| text(&r.path)).collect();
    assert_eq!(names, vec!["/a", "/d", "/c", "/b"]);
}

#[test]
fn git_walk_notes_projects() {
    let dot_git = path("/home/u/p/.git");
    match visit_named(true, ".git", 3, &dot_git) {
        Visit::Project(p) => assert_eq!(text(&p), "/home/u/p"),
        _ => panic!("a project was expected"),
    }
    match visit(true, &b".git".to_vec(), 0, &dot_git) {
        Visit::Project(p) => assert_eq!(text(&p), "/home/u/p"),
        _ => panic!("a project was expected"),
    }
    assert!(matches!(visit_named(false, ".git", 3, &dot_git), Visit::Next));
    assert!(matches!(visit_named(true, "src", 3, &path("/a/src")), Visit::Next));
    assert!(matches!(visit_named(true, "vendor", 3, &path("/a/vendor")), Visit::Skip));
    assert!(matches!(visit_named(true, "vendor", 0, &path("/a/vendor")), Visit::Next));
    assert!(matches!(visit_named(true, ".Trash-7", 1, &path("/a/.Trash-7")), Visit::Skip));
    assert!(matches!(visit_named(true, ".git", 0, &path("/")), Visit::Skip));
    assert_eq!(gitscan::MAX_DEPTH, 10);
}

#[test]
fn git_walk_reads_invalid_names() {
    assert!(matches!(visit(true, &vec![0xff, 0x61], 1, &path("/x")), Visit::Next));
}

#[test]
fn project_time_is_the_latest_known() {
    assert_eq!(git_mtime(None, None, None), 0);
    assert_eq!(git_mtime(Some(3), Some(9), Some(5)), 9);
    assert_eq!(git_mtime(Some(3), None, Some(5)), 5);
    assert_eq!(git_mtime(Some(7), Some(1), None), 7);
    assert_eq!(git_mtime(None, Some(0), None), 0);
}

#[test]
fn nested_projects_are_dropped() {
    let projects = vec![
        project("/h/a/vendored/x", 50),
        project("/h/b", 10),
        project("/h/a", 20),
        project("/h/ab", 30),
        project("/h/b/c/d", 99),
        project("/h/a", 40),
    ];
    assert_eq!(listed(&strip_nested(&projects)), vec!["/h/ab", "/h/a", "/h/b"]);
    let times: Vec<u64> = strip_nested(&projects).iter().map(|p| p.mtime).collect();
    assert_eq!(times, vec![30, 20, 10]);
    assert!(strip_nested(&Vec::new()).is_empty());
}

#[test]
fn every_project_lies_within_a_listed_one() {
    let projects: Vec<GitProject> = ["/a/b/c", "/a", "/d/e", "/d/e/f/g", "/d/ee", "/a/b"]
        .iter()
        .enumerate()
        .map(|(i, p)| project(p, i as u64))
        .collect();
    let kept = strip_nested(&projects);
    for p in &projects {
        assert!(kept.iter().any(|k| p.path.starts_with(&k.path)));
    }
    for (i, a) in kept.iter().enumerate() {
        for (j, b) in kept.iter().enumerate() {
            assert!(i == j || !a.path.starts_with(&b.path));
        }
    }
}

#[test]
fn project_roots_accumulate() {
    let all = gitscan::add_root(vec![project("/a", 1)], vec![project("/b", 2)]);
    assert_eq!(listed(&all), vec!["/a", "/b"]);
}

#[test]
fn walks_begin_at_home() {
    assert!(walk_roots(None).is_empty());
    assert_eq!(text(&walk_roots(Some(path("/home/u")))[0]), "/home/u");
}

#[test]
fn font_is_what_the_match_printed() {
    assert_eq!(find(true, b" /f/a.ttf\n".to_vec()).map(|p| text(&p)), Ok("/f/a.ttf".to_string()));
    assert_eq!(find(false, b"/f/a.ttf".to_vec()).unwrap_err(), FontError::MatchFailed);
    assert_eq!(find(true, vec![0xff]).unwrap_err(), FontError::NotText);
    assert_eq!(find(true, b" \n".to_vec()).unwrap_err(), FontError::EmptyPath);
    assert_eq!(FontError::NotText.kind(), ErrorKind::InvalidData);
    assert_eq!(FontError::MatchFailed.kind(), ErrorKind::NotFound);
    assert_eq!(FontError::EmptyPath.message(), Some("fc-match returned empty path"));
    assert_eq!(FontError::MatchFailed.message(), Some("fc-match failed"));
    assert_eq!(FontError::NotText.message(), None);
}
