use std::sync::Arc;

use nixly_launcher::desktop::Entry;
use nixly_launcher::filepath::FilePath;
use nixly_launcher::gitscan::GitProject;
use nixly_launcher::lists::{Action, ListEntry};
use nixly_launcher::matcher::{Hit, Index};
use nixly_launcher::protocol::Command;
use nixly_launcher::recents::Recent;
use nixly_launcher::render::{IconHandle, Renderer, Upload};
use nixly_launcher::state::{AppUsage, State};
use nixly_launcher::wayland::{
    default_icon_key, is_repeatable, pick_icon, placeholder, pop_word, run_search, wants_icon, App,
    Effect, KeyEvent, Mode, Modifiers, Scrollbar, SearchRequest, SearchResult, Session,
    DEFAULT_REPEAT_DELAY, DEFAULT_REPEAT_RATE, KEY_BACKSPACE, KEY_DOWN, KEY_ESCAPE,
    KEY_ISO_LEFT_TAB, KEY_KP_ENTER, KEY_LEFT, KEY_N, KEY_P, KEY_RETURN, KEY_RIGHT, KEY_TAB, KEY_U,
    KEY_UP, KEY_W, PROCEDURAL_DEFAULT, SESSION_CONFIGURE_GRACE,
};

fn path(s: &str) -> FilePath {
    FilePath::new(s)
}

fn home() -> Option<FilePath> {
    Some(path("/h"))
}

fn entry(name: &str, command: &[&str]) -> Entry {
    Entry {
        name: name.to_string(),
        command: command.iter().map(|s| s.to_string()).collect(),
        icon: None,
        path: path("/x.desktop"),
    }
}

fn file_entry(p: &str) -> ListEntry {
    ListEntry {
        label: p.rsplit('/').next().unwrap().to_string(),
        icon_hint: None,
        action: Action::Open(path(p)),
        usage_key: None,
    }
}

fn launcher() -> App {
    let entries = vec![
        entry("Firefox", &["firefox", "--new"]),
        entry("Files", &["nautilus"]),
        entry("Terminal", &["term"]),
    ];
    let files = (0..25).map(|i| file_entry(&format!("/h/f{i:02}.txt"))).collect();
    App::new(entries, State::new(), files, None)
}

fn shown() -> App {
    let mut app = launcher();
    app.show(0, &vec![Some((1920, 1080))]);
    app.configure(0, 0);
    app
}

fn key(keysym: u32) -> KeyEvent {
    KeyEvent { keysym, utf8: None }
}

fn typed(text: &str) -> KeyEvent {
    KeyEvent { keysym: text.chars().next().unwrap() as u32, utf8: Some(text.to_string()) }
}

fn kinds(effects: &[Effect]) -> Vec<String> {
    effects
        .iter()
        .map(|e| match e {
            Effect::Draw => "draw".to_string(),
            Effect::DestroySession => "destroy".to_string(),
            Effect::CreateSurface { width, height } => format!("create {width}x{height}"),
            Effect::SetSize { width, height } => format!("size {width}x{height}"),
            Effect::ResizeWindow { width, height } => format!("resize {width}x{height}"),
            Effect::Spawn { program, args } => format!("spawn {program} {}", args.join(" ")),
            Effect::SaveState => "save".to_string(),
            Effect::Search(r) => format!("search {} {}", r.gen, r.query),
            Effect::ShowFiles(links) => format!("files {}", links.len()),
        })
        .collect()
}

fn matched(app: &App) -> Vec<usize> {
    app.matches.iter().map(|h| h.idx).collect()
}

fn labels(app: &App) -> Vec<String> {
    app.launcher_list.iter().map(|e| e.label.clone()).collect()
}

#[test]
fn modes_go_round() {
    for m in Mode::all() {
        assert_eq!(m.next().prev(), m);
        assert_eq!(m.prev().next(), m);
        assert_eq!(m.next().next().next(), m);
    }
    let names: Vec<&str> = Mode::all().iter().map(|m| m.label()).collect();
    assert_eq!(names, vec!["Launcher", "File search", "Git projects"]);
}

#[test]
fn a_new_launcher_lists_all_applications() {
    let app = launcher();
    assert_eq!(labels(&app), vec!["Files", "Firefox", "Terminal"]);
    assert_eq!(matched(&app), vec![0, 1, 2]);
    assert_eq!((app.selected, app.scroll_offset), (0, 0));
    assert!(app.session.is_none() && !app.exit);
    assert_eq!(app.search_gen, 1);
    assert_eq!(app.files_labels.len(), 25);
}

#[test]
fn typing_searches() {
    let mut app = shown();
    assert_eq!(kinds(&app.handle_key(&typed("t"), 0)), vec!["draw"]);
    assert_eq!(app.query, "t");
    assert_eq!(matched(&app), vec![2]);
    assert_eq!(kinds(&app.handle_key(&key(KEY_BACKSPACE), 0)), vec!["draw"]);
    assert_eq!(matched(&app), vec![0, 1, 2]);
    assert_eq!(kinds(&app.handle_key(&key(KEY_BACKSPACE), 0)), vec!["draw"]);
    assert_eq!(app.query, "");
}

#[test]
fn control_characters_are_not_typed() {
    let mut app = shown();
    let gen = app.search_gen;
    assert!(app.handle_key(&typed("\u{7f}"), 0).is_empty());
    assert!(app.handle_key(&KeyEvent { keysym: 99, utf8: None }, 0).is_empty());
    assert_eq!(app.search_gen, gen);
    app.handle_key(&typed("a\u{1}b"), 0);
    assert_eq!(app.query, "ab");
}

#[test]
fn control_keys_edit_the_query() {
    let mut app = shown();
    app.handle_key(&typed("fire fox"), 0);
    app.update_modifiers(Modifiers { ctrl: true, logo: false, shift: false });
    app.handle_key(&key(KEY_W), 0);
    assert_eq!(app.query, "fire ");
    app.handle_key(&key(KEY_U), 0);
    assert_eq!(app.query, "");
    assert!(app.handle_key(&typed("x"), 0).is_empty());
    assert_eq!(app.query, "");
}

#[test]
fn words_are_popped_as_in_an_editor() {
    for (before, after) in [("a b", "a "), ("a b  ", "a "), ("ab", ""), ("  ", ""), ("", ""), ("é\u{3000}x", "é\u{3000}")] {
        let mut s = before.to_string();
        pop_word(&mut s);
        assert_eq!(s, after, "{before:?}");
    }
}

#[test]
fn tabs_are_cycled() {
    let mut app = shown();
    for (k, mode) in [
        (KEY_TAB, Mode::Files),
        (KEY_RIGHT, Mode::Git),
        (KEY_LEFT, Mode::Files),
        (KEY_ISO_LEFT_TAB, Mode::Launcher),
    ] {
        app.query = "zz".to_string();
        assert_eq!(kinds(&app.handle_key(&key(k), 0)), vec!["draw"]);
        assert_eq!(app.mode, mode);
        assert_eq!(app.query, "");
    }
    app.update_modifiers(Modifiers { ctrl: false, logo: true, shift: false });
    app.handle_key(&key(KEY_P), 0);
    assert_eq!(app.mode, Mode::Files);
    app.update_modifiers(Modifiers { ctrl: false, logo: true, shift: true });
    app.handle_key(&key(KEY_P), 0);
    assert_eq!(app.mode, Mode::Launcher);
    app.update_modifiers(Modifiers { ctrl: true, logo: false, shift: false });
    app.handle_key(&key(KEY_P), 0);
    assert_eq!(app.mode, Mode::Files);
    app.handle_key(&key(KEY_N), 0);
    assert_eq!(app.mode, Mode::Launcher);
}

#[test]
fn selection_moves_and_stays_visible() {
    let mut app = shown();
    app.configure(0, 120 + 56 * 4);
    app.handle_key(&key(KEY_TAB), 0);
    assert_eq!(app.matches.len(), 20);
    for i in 1..25usize {
        app.handle_key(&key(KEY_DOWN), 0);
        assert_eq!(app.selected, i.min(19));
        assert!(app.scroll_offset <= app.selected && app.selected < app.scroll_offset + 4);
    }
    for i in 1..25usize {
        app.handle_key(&key(KEY_UP), 0);
        assert_eq!(app.selected, 19usize.saturating_sub(i));
        assert!(app.scroll_offset <= app.selected && app.selected < app.scroll_offset + 4);
    }
    app.select_next();
    app.select_prev();
    assert_eq!(app.selected, 0);
}

#[test]
fn escape_hides() {
    let mut app = shown();
    app.handle_key(&key(KEY_TAB), 0);
    app.handle_key(&key(KEY_DOWN), 0);
    assert_eq!(kinds(&app.handle_key(&key(KEY_ESCAPE), 0)), vec!["destroy"]);
    assert!(app.session.is_none() && app.repeat.is_none());
    assert_eq!(app.mode, Mode::Launcher);
    assert_eq!((app.selected, app.scroll_offset), (0, 0));
    assert_eq!(matched(&app), vec![0, 1, 2]);
    let gen = app.search_gen;
    assert!(app.conceal().is_empty());
    assert_eq!(app.search_gen, gen + 1);
}

#[test]
fn running_an_application_remembers_it() {
    let mut app = shown();
    app.handle_key(&key(KEY_DOWN), 0);
    let effects = app.handle_key(&key(KEY_RETURN), 777);
    assert_eq!(kinds(&effects), vec!["spawn firefox --new", "save", "destroy"]);
    assert_eq!(app.persisted.get("firefox"), AppUsage { count: 1, last_used: 777 });
    assert_eq!(labels(&app), vec!["Firefox", "Files", "Terminal"]);
}

#[test]
fn running_nothing_only_hides() {
    let mut app = shown();
    app.handle_key(&typed("qqqq"), 0);
    assert!(app.matches.is_empty());
    assert_eq!(kinds(&app.handle_key(&key(KEY_KP_ENTER), 0)), vec!["destroy"]);
}

#[test]
fn running_a_project_opens_a_terminal() {
    let mut app = shown();
    app.update_git_from_scan(vec![GitProject { path: path("/h/src/tool"), mtime: 1 }]);
    app.handle_key(&key(KEY_LEFT), 0);
    assert_eq!(
        kinds(&app.handle_key(&key(KEY_RETURN), 0)),
        vec!["spawn alacritty --working-directory /h/src/tool", "destroy"]
    );
}

#[test]
fn terminals_open_in_lossy_directories() {
    let mut app = shown();
    app.update_git_from_scan(vec![GitProject {
        path: FilePath { bytes: b"/h/\xff".to_vec() },
        mtime: 1,
    }]);
    app.handle_key(&key(KEY_LEFT), 0);
    assert_eq!(
        kinds(&app.execute_selected(0)),
        vec!["spawn alacritty --working-directory /h/\u{fffd}"]
    );
}

#[test]
fn running_files_shows_all_of_them() {
    let mut app = shown();
    app.handle_key(&key(KEY_TAB), 0);
    assert_eq!(kinds(&app.handle_key(&key(KEY_RETURN), 0)), vec!["files 20", "destroy"]);
}

#[test]
fn files_are_searched_beside_the_launcher() {
    let mut app = shown();
    app.handle_key(&key(KEY_TAB), 0);
    let before = matched(&app);
    let effects = app.handle_key(&typed("f1"), 0);
    assert_eq!(kinds(&effects), vec![format!("search {} f1", app.search_gen), "draw".to_string()]);
    assert_eq!(matched(&app), before);
    let request = match &effects[0] {
        Effect::Search(r) => r,
        _ => panic!("a search was expected"),
    };
    let result = run_search(&mut Index::new(), request).unwrap();
    assert_eq!(kinds(&app.on_search_result(result)), vec!["draw"]);
    assert_eq!(app.matches.len(), 12);
    assert_eq!(app.matches[0].idx, 10);
}

#[test]
fn stale_results_are_dropped() {
    let mut app = shown();
    app.handle_key(&key(KEY_TAB), 0);
    app.handle_key(&typed("f1"), 0);
    let old = app.search_gen;
    app.handle_key(&typed("2"), 0);
    let before = matched(&app);
    let hits = || vec![Hit { idx: 3, score: 1 }];
    assert!(app.on_search_result(SearchResult { gen: old, hits: hits() }).is_empty());
    assert_eq!(matched(&app), before);
    let gen = app.search_gen;
    app.on_search_result(SearchResult { gen, hits: hits() });
    assert_eq!(matched(&app), vec![3]);
    assert_eq!(app.selected, 0);
    app.handle_key(&key(KEY_TAB), 0);
    let gen = app.search_gen;
    assert!(app.on_search_result(SearchResult { gen, hits: hits() }).is_empty());
}

#[test]
fn searches_beyond_the_limit_come_to_nothing() {
    let request = SearchRequest {
        gen: 1,
        query: "x".repeat(5000),
        labels: Arc::new(vec!["x".repeat(5000)]),
    };
    assert!(run_search(&mut Index::new(), &request).is_none());
    let mut app = shown();
    app.reindex_apps(vec![Entry {
        name: "École".to_string(),
        command: vec!["ecole".to_string()],
        icon: None,
        path: path("/e.desktop"),
    }]);
    app.handle_key(&typed("e"), 0);
    let before = matched(&app);
    assert_eq!(before.len(), 1);
    app.handle_key(&typed(&"é".repeat(5000)), 0);
    assert_eq!(matched(&app), before);
}

#[test]
fn searches_for_more_than_any_label_find_nothing() {
    let request = SearchRequest {
        gen: 1,
        query: "x".repeat(5000),
        labels: Arc::new(vec!["x".to_string()]),
    };
    assert!(run_search(&mut Index::new(), &request).unwrap().hits.is_empty());
    let mut app = shown();
    app.handle_key(&typed("fi"), 0);
    assert!(!matched(&app).is_empty());
    app.handle_key(&typed(&"x".repeat(5000)), 0);
    assert!(matched(&app).is_empty());
    app.handle_key(&typed(&"é".repeat(5000)), 0);
    assert!(matched(&app).is_empty());
}

#[test]
fn new_lists_are_taken() {
    let mut app = shown();
    let files = vec![
        Recent { path: path("/h/new.txt"), mtime: 9 },
        Recent { path: path("/etc/x"), mtime: 8 },
    ];
    assert!(app.update_files_from_index(files, &home()).is_empty());
    assert_eq!(*app.files_labels, vec!["new.txt".to_string()]);
    app.handle_key(&key(KEY_TAB), 0);
    let effects = app.update_files_from_index(
        vec![Recent { path: path("/h/a"), mtime: 1 }, Recent { path: path("/h/b"), mtime: 0 }],
        &home(),
    );
    assert_eq!(kinds(&effects), vec!["draw"]);
    assert_eq!(matched(&app), vec![0, 1]);
    assert!(app.reindex_apps(vec![entry("Only", &["o"])]).is_empty());
    assert_eq!(labels(&app), vec!["Only"]);
}

#[test]
fn a_changed_system_is_noticed_once() {
    let mut app = launcher();
    assert!(!app.poll_current_system(None));
    assert!(app.poll_current_system(Some(path("/nix/store/a"))));
    assert!(!app.poll_current_system(Some(path("/nix//store/a/"))));
    assert!(app.poll_current_system(Some(path("/nix/store/b"))));
    assert!(app.poll_current_system(None));
}

#[test]
fn showing_creates_a_window_for_the_smallest_screen() {
    let mut app = launcher();
    let outputs = vec![Some((2560, 1440)), None, Some((1280, 800)), Some((1920, 1080))];
    assert_eq!(kinds(&app.show(5, &outputs)), vec!["create 800x520"]);
    assert_eq!(
        app.session,
        Some(Session {
            width: 800,
            height: 520,
            configured: false,
            size_locked: true,
            output: None,
            created: 5,
        })
    );
    let mut app = launcher();
    assert_eq!(kinds(&app.show(0, &vec![None])), vec!["create 1200x720"]);
    assert!(!app.session.unwrap().size_locked);
    app.destroy_session();
    let turned = vec![Some((1920, 1080)), Some((1080, 1920))];
    assert_eq!(kinds(&app.show(0, &turned)), vec!["create 720x675"]);
}

#[test]
fn a_lost_window_is_replaced() {
    let mut app = launcher();
    app.show(100, &vec![]);
    assert!(app.show(100 + SESSION_CONFIGURE_GRACE - 1, &vec![]).is_empty());
    let effects = app.show(100 + SESSION_CONFIGURE_GRACE, &vec![]);
    assert_eq!(kinds(&effects), vec!["destroy", "create 1200x720"]);
    app.configure(800, 0);
    assert_eq!(kinds(&app.show(u64::MAX, &vec![])), vec!["draw"]);
}

#[test]
fn windows_are_configured() {
    let mut app = launcher();
    assert!(app.configure(1, 1).is_empty());
    app.show(0, &vec![]);
    assert!(app.frame_wanted().is_empty());
    assert_eq!(kinds(&app.configure(640, 0)), vec!["resize 640x720", "draw"]);
    assert_eq!(kinds(&app.frame_wanted()), vec!["draw"]);
    let s = app.session.unwrap();
    assert!(s.configured && s.width == 640 && s.height == 720);
}

#[test]
fn windows_follow_their_screen() {
    let mut app = launcher();
    app.show(0, &vec![]);
    assert_eq!(kinds(&app.new_output(Some((1920, 1080)))), vec!["size 1200x675"]);
    assert!(app.new_output(Some((1280, 800))).is_empty());
    assert!(app.surface_enter(false, 7, Some((1280, 800))).is_empty());
    assert_eq!(app.session.unwrap().output, None);
    assert_eq!(kinds(&app.surface_enter(true, 7, Some((1280, 800)))), vec!["size 800x520"]);
    app.configure(800, 520);
    assert!(app.update_output(7, Some((1280, 800))).is_empty());
    assert!(app.update_output(8, Some((640, 480))).is_empty());
    assert_eq!(kinds(&app.update_output(7, Some((640, 480)))), vec!["size 592x432"]);
    assert!(app.update_output(7, None).is_empty());
    app.output_destroyed(8);
    assert_eq!(app.session.unwrap().output, Some(7));
    app.output_destroyed(7);
    assert_eq!(app.session.unwrap().output, None);
    assert_eq!(kinds(&app.destroy_session()), vec!["destroy"]);
    assert!(app.resize_to_output(Some((1, 1))).is_empty());
}

#[test]
fn toggling_shows_and_then_cycles() {
    let mut app = launcher();
    let none = vec![];
    assert_eq!(kinds(&app.dispatch(Command::Toggle, 0, &none)), vec!["create 1200x720"]);
    assert!(app.dispatch(Command::Toggle, 1, &none).is_empty());
    app.configure(0, 0);
    for mode in [Mode::Files, Mode::Git, Mode::Launcher] {
        assert_eq!(kinds(&app.dispatch(Command::Toggle, 2, &none)), vec!["draw"]);
        assert_eq!(app.mode, mode);
    }
    assert_eq!(kinds(&app.dispatch(Command::Show, 3, &none)), vec!["draw"]);
    assert_eq!(kinds(&app.dispatch(Command::Hide, 4, &none)), vec!["destroy"]);
    assert!(app.dispatch(Command::Hide, 5, &none).is_empty());
    assert!(!app.exit);
    assert!(app.dispatch(Command::Quit, 6, &none).is_empty());
    assert!(app.exit);
}

#[test]
fn keys_repeat_in_time() {
    let mut app = shown();
    app.press_key(typed("t"), 1000, 0);
    assert!(app.tick_repeat(1000 + DEFAULT_REPEAT_DELAY - 1, 0).is_empty());
    assert_eq!(app.query, "t");
    let now = 1000 + DEFAULT_REPEAT_DELAY;
    assert_eq!(kinds(&app.tick_repeat(now, 0)), vec!["draw"]);
    assert_eq!(app.query, "tt");
    assert!(app.tick_repeat(now + DEFAULT_REPEAT_RATE - 1, 0).is_empty());
    app.tick_repeat(now + DEFAULT_REPEAT_RATE, 0);
    assert_eq!(app.query, "ttt");
    app.disarm_repeat('u' as u32);
    assert!(app.repeat.is_some());
    app.disarm_repeat('t' as u32);
    assert!(app.tick_repeat(u64::MAX, 0).is_empty());
}

#[test]
fn some_keys_do_not_repeat() {
    for k in [
        KEY_ESCAPE, KEY_RETURN, KEY_KP_ENTER, KEY_TAB, KEY_ISO_LEFT_TAB, KEY_LEFT, KEY_RIGHT,
    ] {
        assert!(!is_repeatable(k));
        let mut app = shown();
        app.press_key(typed("a"), 0, 0);
        app.press_key(key(k), 0, 0);
        assert!(app.repeat.is_none());
    }
    for k in [KEY_UP, KEY_DOWN, KEY_BACKSPACE, KEY_P, 0x61] {
        assert!(is_repeatable(k));
    }
}

#[test]
fn default_icons_of_the_modes() {
    assert_eq!(default_icon_key(Mode::Launcher), "application-x-executable");
    assert_eq!(default_icon_key(Mode::Files), "text-x-generic");
    assert_eq!(default_icon_key(Mode::Git), "folder");
}

#[test]
fn icons_are_picked_with_fallbacks() {
    let mut r = Renderer::new();
    let put = |r: &mut Renderer, key: &str| -> IconHandle {
        match r.upload_icon(key, &vec![0; 4], 1, 1) {
            Upload::Placed(h) => h,
            _ => panic!("the atlas has room"),
        }
    };
    let own = Some("own".to_string());
    assert_eq!(pick_icon(&r, &own, "default"), None);
    assert!(wants_icon(&r, &own));
    assert!(!wants_icon(&r, &None) && !wants_icon(&r, &Some(String::new())));
    let last = put(&mut r, PROCEDURAL_DEFAULT);
    assert_eq!(pick_icon(&r, &own, "default"), Some(last));
    let default = put(&mut r, "default");
    assert_eq!(pick_icon(&r, &own, "default"), Some(default));
    let mine = put(&mut r, "own");
    assert_eq!(pick_icon(&r, &own, "default"), Some(mine));
    assert_eq!(pick_icon(&r, &None, "default"), Some(default));
    assert!(!wants_icon(&r, &own));
}

#[test]
fn prompts_count_the_entries() {
    assert_eq!(placeholder(Mode::Launcher, 3), "Search 3 apps…");
    assert_eq!(placeholder(Mode::Files, 1200), "Search 1200 files…");
    assert_eq!(placeholder(Mode::Git, 0), "Search 0 git projects…");
}

#[test]
fn frames_show_the_visible_rows() {
    let mut app = shown();
    let frame = app.frame(675);
    assert_eq!(frame.prompt, "Search 3 apps…");
    assert!(frame.placeholder && !frame.empty && frame.scrollbar.is_none());
    assert_eq!(frame.rows.len(), 3);
    assert!(frame.rows[0].selected && !frame.rows[1].selected);
    assert_eq!(frame.rows[1].label, "Firefox");
    app.configure(0, 120 + 56 * 3);
    app.handle_key(&key(KEY_TAB), 0);
    for _ in 0..5 {
        app.handle_key(&key(KEY_DOWN), 0);
    }
    let frame = app.frame(120 + 56 * 3);
    assert_eq!(frame.mode, Mode::Files);
    let rows: Vec<(usize, bool, String)> =
        frame.rows.iter().map(|r| (r.slot, r.selected, r.label.clone())).collect();
    assert_eq!(
        rows,
        vec![
            (0, false, "f03.txt".to_string()),
            (1, false, "f04.txt".to_string()),
            (2, true, "f05.txt".to_string()),
        ]
    );
    assert_eq!(frame.scrollbar, Some(Scrollbar { visible: 3, total: 20, offset: 3 }));
}

#[test]
fn frames_leave_out_entries_that_are_gone() {
    let mut app = shown();
    app.handle_key(&key(KEY_TAB), 0);
    app.handle_key(&typed("f"), 0);
    app.update_files_from_index(vec![Recent { path: path("/h/a"), mtime: 1 }], &home());
    assert_eq!(app.matches.len(), 20);
    assert_eq!(app.frame(675).rows.len(), 1);
    let mut app = shown();
    app.handle_key(&typed("qqq"), 0);
    let frame = app.frame(675);
    assert!(frame.empty && frame.rows.is_empty() && !frame.placeholder);
    assert_eq!(frame.prompt, "qqq");
}
