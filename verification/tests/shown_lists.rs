use nixly_launcher::desktop::Entry;
use nixly_launcher::filepath::FilePath;
use nixly_launcher::gitscan::GitProject;
use nixly_launcher::lists::{
    build_files_list, build_launcher_list, derive_icon_dirs, file_label, file_label_or,
    files_list_from_recents, git_list_from_projects, is_visible_home_file, labels_for,
    sort_by_usage, sort_by_usage_with, Action, ListEntry,
};
use nixly_launcher::matcher::Hit;
use nixly_launcher::recents::{Bookmark, Recent};
use nixly_launcher::staging::{stage_links, staging_dir, unique_name};
use nixly_launcher::state::State;
use vstd::hash_set::StringHashSet;

fn path(s: &str) -> FilePath {
    FilePath::new(s)
}

fn text(p: &FilePath) -> String {
    String::from_utf8(p.bytes.clone()).unwrap()
}

fn entry(name: &str, command: &[&str]) -> Entry {
    Entry {
        name: name.to_string(),
        command: command.iter().map(|s| s.to_string()).collect(),
        icon: Some(format!("{name}-icon")),
        path: path("/x.desktop"),
    }
}

fn app(label: &str, key: Option<&str>) -> ListEntry {
    ListEntry {
        label: label.to_string(),
        icon_hint: None,
        action: Action::Exec(vec![]),
        usage_key: key.map(|s| s.to_string()),
    }
}

fn open(p: &str) -> ListEntry {
    ListEntry {
        label: p.to_string(),
        icon_hint: None,
        action: Action::Open(path(p)),
        usage_key: None,
    }
}

fn labels(list: &[ListEntry]) -> Vec<String> {
    list.iter().map(|e| e.label.clone()).collect()
}

#[test]
fn applications_are_listed_in_the_order_of_use() {
    let mut st = State::new();
    st.record_use("b".to_string(), 50);
    st.record_use("c".to_string(), 60);
    st.record_use("d".to_string(), 50);
    st.record_use("d".to_string(), 50);
    let entries = vec![
        entry("zeta", &["z"]),
        entry("Beta", &["b", "-x"]),
        entry("Alpha", &["a"]),
        entry("none", &[]),
        entry("Gamma", &["c"]),
        entry("Delta", &["d"]),
    ];
    let list = build_launcher_list(&entries, &st);
    assert_eq!(labels(&list), vec!["Gamma", "Delta", "Beta", "Alpha", "zeta"]);
    assert_eq!(list[2].usage_key, Some("b".to_string()));
    assert_eq!(list[2].icon_hint, Some("Beta-icon".to_string()));
    match &list[2].action {
        Action::Exec(cmd) => assert_eq!(cmd, &vec!["b".to_string(), "-x".to_string()]),
        Action::Open(_) => panic!("a command was expected"),
    }
}

#[test]
fn sorting_goes_by_the_given_labels() {
    let list = vec![app("A", None), app("B", None), app("C", Some("k"))];
    let mut st = State::new();
    st.record_use("k".to_string(), 1);
    let lowered = ["z", "y", "x"].map(|s| s.to_string()).to_vec();
    assert_eq!(labels(&sort_by_usage_with(list, &st, &lowered)), vec!["C", "B", "A"]);
}

#[test]
fn sorting_uses_unicode_lower_case() {
    let list = vec![app("Østfold", None), app("øst", None), app("Zeta", None), app("alpha", None)];
    let sorted = sort_by_usage(list, &State::new());
    assert_eq!(labels(&sorted), vec!["alpha", "Zeta", "øst", "Østfold"]);
}

#[test]
fn icon_directories_of_packages() {
    let paths = vec![
        path("/nix/store/p/share/applications/a.desktop"),
        path("/nix/store/p/share/applications/b.desktop"),
        path("/nix/store/q/share/applications/c.desktop"),
        path("/d.desktop"),
        path("e.desktop"),
    ];
    let dirs: Vec<String> = derive_icon_dirs(&paths).iter().map(text).collect();
    assert_eq!(
        dirs,
        vec![
            "/nix/store/p/share/icons",
            "/nix/store/p/share/pixmaps",
            "/nix/store/q/share/icons",
            "/nix/store/q/share/pixmaps",
        ]
    );
}

#[test]
fn labels_of_paths() {
    assert_eq!(file_label(&path("/a/b.txt")), "b.txt");
    assert_eq!(file_label(&path("/")), "/");
    assert_eq!(file_label(&path("/a/..")), "/a/..");
    assert_eq!(file_label(&FilePath { bytes: b"/a/\xff".to_vec() }), "/a/\u{fffd}");
    assert_eq!(file_label_or(&path("/"), "whole".to_string()), "whole");
    assert_eq!(file_label_or(&path("/x"), "whole".to_string()), "x");
}

#[test]
fn only_visible_files_below_home_are_listed() {
    let home = Some(path("/home/u"));
    let r = |p: &str| Recent { path: path(p), mtime: 1 };
    let list = files_list_from_recents(
        vec![r("/home/u/a"), r("/home/u/.x/b"), r("/etc/c"), r("/home/u/d/e.txt")],
        &home,
    );
    assert_eq!(labels(&list), vec!["a", "e.txt"]);
    assert_eq!(list[0].icon_hint, Some("text-x-generic".to_string()));
    assert!(matches!(&list[1].action, Action::Open(p) if text(p) == "/home/u/d/e.txt"));
    assert!(files_list_from_recents(vec![r("/home/u/a")], &None).is_empty());
    assert!(!is_visible_home_file(&path("/home/u/a"), &None));
    assert_eq!(*labels_for(&list), vec!["a".to_string(), "e.txt".to_string()]);
}

#[test]
fn first_files_are_limited() {
    let walked: Vec<Recent> =
        (0..40).map(|i| Recent { path: path(&format!("/h/f{i:02}")), mtime: i }).collect();
    let marks = vec![Bookmark {
        recent: Recent { path: path("/h/new"), mtime: 99 },
        exists: true,
    }];
    let list = build_files_list(marks, walked, &Some(path("/h")));
    assert_eq!(list.len(), 30);
    assert_eq!(list[0].label, "new");
    assert_eq!(list[1].label, "f39");
}

#[test]
fn projects_are_listed_by_name() {
    let list = git_list_from_projects(vec![
        GitProject { path: path("/h/.dotfiles"), mtime: 3 },
        GitProject { path: path("/h/x/tool"), mtime: 2 },
    ]);
    assert_eq!(labels(&list), vec![".dotfiles", "tool"]);
    assert_eq!(list[1].icon_hint, Some("folder".to_string()));
    assert_eq!(list[1].usage_key, None);
}

#[test]
fn names_are_made_unique() {
    let mut taken = StringHashSet::new();
    assert_eq!(unique_name("a.txt", &mut taken), "a.txt");
    assert_eq!(unique_name("a.txt", &mut taken), "a (2).txt");
    assert_eq!(unique_name("a.txt", &mut taken), "a (3).txt");
    assert_eq!(unique_name("a (2).txt", &mut taken), "a (2) (2).txt");
    assert_eq!(unique_name(".x", &mut taken), ".x");
    assert_eq!(unique_name(".x", &mut taken), ".x (2)");
    assert_eq!(unique_name("n", &mut taken), "n");
    assert_eq!(unique_name("n", &mut taken), "n (2)");
}

#[test]
fn links_sort_as_the_results() {
    let list: Vec<ListEntry> =
        (0..120).map(|i| open(&format!("/h/{}/same.txt", 500 - i))).collect();
    let hits: Vec<Hit> = (0..120).map(|i| Hit { idx: 119 - i, score: 0 }).collect();
    let links = stage_links(&list, &hits);
    assert_eq!(links.len(), 120);
    assert_eq!(links[0].name, "001 - same.txt");
    assert_eq!(links[119].name, "120 - same.txt");
    assert_eq!(text(&links[0].target), "/h/381/same.txt");
    for pair in links.windows(2) {
        assert!(pair[0].name < pair[1].name);
    }
}

#[test]
fn links_leave_out_what_has_no_name() {
    let mut list = vec![open("/a/x.png"), open("/"), app("p", None)];
    list.push(ListEntry {
        label: "bad".to_string(),
        icon_hint: None,
        action: Action::Open(FilePath { bytes: b"/\xff".to_vec() }),
        usage_key: None,
    });
    let hits: Vec<Hit> = [1, 2, 3, 0, 9].iter().map(|i| Hit { idx: *i, score: 0 }).collect();
    let links = stage_links(&list, &hits);
    assert_eq!(links.len(), 1);
    assert_eq!(links[0].name, "04 - x.png");
}

#[test]
fn links_lie_in_the_run_time_directory() {
    let tmp = || path("/tmp");
    assert_eq!(text(&staging_dir(Some(path("/run/u")), tmp())), "/run/u/nixly_launcher-files");
    assert_eq!(text(&staging_dir(None, tmp())), "/tmp/nixly_launcher-files");
}
