use nixly_launcher::desktop::{
    index, is_desktop_file, merge_entries, parse, search_paths, split_exec, DesktopFile, Entry,
};
use nixly_launcher::filepath::FilePath;

fn path(s: &str) -> FilePath {
    FilePath::new(s)
}

fn file(p: &str, canonical: &str, text: &str) -> DesktopFile {
    DesktopFile { path: path(p), canonical: path(canonical), text: Some(text.to_string()) }
}

fn names(entries: &[Entry]) -> Vec<String> {
    entries.iter().map(|e| e.name.clone()).collect()
}

fn texts(paths: Vec<FilePath>) -> Vec<String> {
    paths.into_iter().map(|p| String::from_utf8(p.bytes).unwrap()).collect()
}

#[test]
fn entry_is_read_from_its_section() {
    let text = "# comment\n[Other]\nName=Wrong\n[Desktop Entry]\nName = Fire Fox \r\n\
                Exec=firefox --new \"a b\" %u\nIcon=firefox\nNoDisplay=false\n\
                [Desktop Action x]\nName=Later\nExec=other\n";
    let e = parse(text, &path("/x/firefox.desktop")).unwrap();
    assert_eq!(e.name, "Fire Fox");
    assert_eq!(e.command, vec!["firefox", "--new", "a b"]);
    assert_eq!(e.icon, Some("firefox".to_string()));
    assert_eq!(e.path.bytes, b"/x/firefox.desktop".to_vec());
}

#[test]
fn entries_without_name_or_command_or_hidden_are_none() {
    let p = path("/x");
    assert!(parse("[Desktop Entry]\nName=A\n", &p).is_none());
    assert!(parse("[Desktop Entry]\nExec=a\n", &p).is_none());
    assert!(parse("[Desktop Entry]\nName=A\nExec=a\nNoDisplay=TRUE", &p).is_none());
    assert!(parse("[Desktop Entry]\nName=A\nExec=a\nHidden= true ", &p).is_none());
    assert!(parse("Name=A\nExec=a\n", &p).is_none());
    let e = parse("[Desktop Entry]\nName=A\nName=B\nExec=\nHidden=yes", &p).unwrap();
    assert_eq!(e.name, "B");
    assert!(e.command.is_empty());
    assert_eq!(e.icon, None);
}

#[test]
fn keys_outside_the_section_count_for_nothing() {
    let p = path("/x");
    let text = "[Desktop Entry]\nName=A\nExec=a\n[X]\nName=B\nHidden=true\n[Desktop Entry]\nIcon=i\n[";
    let e = parse(text, &p).unwrap();
    assert_eq!(e.name, "A");
    assert_eq!(e.icon, Some("i".to_string()));
}

#[test]
fn command_lines_are_split_into_words() {
    assert_eq!(split_exec("a b\tc"), vec!["a", "b", "c"]);
    assert_eq!(split_exec("  a  "), vec!["a"]);
    assert_eq!(split_exec("a %U b%fc %"), vec!["a", "bc"]);
    assert_eq!(split_exec("sh -c \"echo %u; ls\" x"), vec!["sh", "-c", "echo %u; ls", "x"]);
    assert_eq!(split_exec("a\"b c\"d"), vec!["ab cd"]);
    assert_eq!(split_exec("\"\" a"), vec!["a"]);
    assert_eq!(split_exec("\"a b"), vec!["a b"]);
    assert!(split_exec("").is_empty());
}

#[test]
fn words_hold_no_quotes_and_are_not_empty() {
    for raw in ["a \"b\" \"\"", "%%a \"%f\"", "x\"y\"z  \t"] {
        for w in split_exec(raw) {
            assert!(!w.is_empty() && !w.contains('"'));
        }
    }
    for w in split_exec("a %f b%%c\td % e") {
        assert!(!w.contains([' ', '\t', '%']));
    }
}

#[test]
fn index_keeps_the_first_of_each_file_and_application() {
    let a = "[Desktop Entry]\nName=Brave\nExec=brave %U";
    let b = "[Desktop Entry]\nName=BRAVE\nExec=brave --x";
    let c = "[Desktop Entry]\nName=Brave\nExec=other";
    let files = vec![
        file("/1/a.desktop", "/s/a.desktop", a),
        file("/2/a.desktop", "/s//a.desktop", c),
        file("/1/b.desktop", "/s/b.desktop", b),
        file("/1/c.desktop", "/s/c.desktop", c),
        file("/1/c.txt", "/s/c.txt", "[Desktop Entry]\nName=T\nExec=t"),
        DesktopFile { path: path("/1/d.desktop"), canonical: path("/d"), text: None },
    ];
    let entries = index(files);
    assert_eq!(names(&entries), vec!["Brave", "Brave"]);
    assert_eq!(entries[0].command, vec!["brave"]);
    assert_eq!(entries[0].path.bytes, b"/1/a.desktop".to_vec());
    assert_eq!(entries[1].command, vec!["other"]);
}

#[test]
fn names_are_compared_in_unicode_lower_case() {
    let e = |name: &str| format!("[Desktop Entry]\nName={name}\nExec=x");
    let files = vec![
        file("/1.desktop", "/1", &e("Ærlig Ø")),
        file("/2.desktop", "/2", &e("ærlig ø")),
    ];
    assert_eq!(names(&index(files)), vec!["Ærlig Ø"]);
}

#[test]
fn merging_goes_by_the_given_names() {
    let e = |name: &str, prog: &str| Entry {
        name: name.to_string(),
        command: if prog.is_empty() { vec![] } else { vec![prog.to_string()] },
        icon: None,
        path: path("/x"),
    };
    let entries = vec![e("A", ""), e("B", "p"), e("C", "q"), e("D", "p"), e("E", "")];
    let lowered = ["n", "m", "m", "m", "n"].map(|s| s.to_string()).to_vec();
    assert_eq!(names(&merge_entries(entries, &lowered)), vec!["A", "B", "C"]);
}

#[test]
fn desktop_files_are_known_by_their_extension() {
    assert!(is_desktop_file(&path("/a/b.desktop")));
    assert!(!is_desktop_file(&path("/a/b.Desktop")));
    assert!(!is_desktop_file(&path("/a/.desktop")));
    assert!(!is_desktop_file(&path("/a/desktop")));
}

#[test]
fn search_directories_follow_the_environment() {
    let fixed = [
        "/run/current-system/sw/share/applications",
        "/var/lib/flatpak/exports/share/applications",
        "/usr/share/applications",
        "/usr/local/share/applications",
    ];
    assert_eq!(texts(search_paths(None, None, None)), fixed);
    let all = texts(search_paths(
        Some(path("/home/u")),
        Some("u".to_string()),
        Some("/x:/y/::".to_string()),
    ));
    assert_eq!(all[..4], fixed);
    assert_eq!(
        all[4..],
        [
            "/home/u/.nix-profile/share/applications",
            "/home/u/.local/share/applications",
            "/etc/profiles/per-user/u/share/applications",
            "/x/applications",
            "/y/applications",
            "applications",
            "applications",
        ]
    );
}
