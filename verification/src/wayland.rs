//! The launcher itself: its state, and what each key, command and event does to it.

use std::sync::Arc;

use vstd::prelude::*;
use vstd::slice::slice_subrange;

use crate::dedup::views;
use crate::desktop::{Entry, EntryModel};
use crate::filepath::{components, opt_path_view, same_path, FilePath};
use crate::gitscan::GitProject;
use crate::icon::{DEFAULT_APP, DEFAULT_DIR, DEFAULT_FILE};
use crate::layout::{rows_for, side_for, size_for_output, visible_rows_for};
use crate::layout::{FALLBACK_HEIGHT, FALLBACK_WIDTH, MIN_HEIGHT, MIN_WIDTH};
use crate::lists::{
    app_items, build_launcher_list, by_usage, copy_opt, copy_str, copy_strings, file_items,
    files_list_from_recents, git_list_from_projects, item_labels, labels_for,
    law_sorting_keeps_the_entries, law_used_last_comes_first, lemma_item_labels,
    lowered_item_labels, project_items, sort_by_usage, sorted_by_usage,
};
use crate::lists::{Action, ActionModel, Item, ListEntry};
use crate::matcher::{
    finds_ascii, labels, literal_wins, misses_foreign, search_result, searchable, Hit, Index,
};
use crate::protocol::Command;
use crate::recents::{at_most, DatedPath, Recent};
use crate::render::{IconHandle, Renderer, RendererModel};
use crate::staging::{links, stage_links, Link, LinkModel};
use crate::state::{usage_of, used_again, AppUsage, State};
use crate::text::{
    append, append_str, chars_of, decimal, is_control_char, is_space, lossy_utf8, opt_view,
    string_of, strings_view, to_decimal,
};

verus! {

// ---------------------------------------------------------------------------
// Modes
// ---------------------------------------------------------------------------

/// What the launcher lists.
#[derive(Clone, Copy, Debug, PartialEq, Eq, Structural)]
pub enum Mode {
    Launcher,
    Files,
    Git,
}

/// The mode of the next tab.
pub open spec fn next_mode(m: Mode) -> Mode {
    match m {
        Mode::Launcher => Mode::Files,
        Mode::Files => Mode::Git,
        Mode::Git => Mode::Launcher,
    }
}

/// The mode of the tab before.
pub open spec fn prev_mode(m: Mode) -> Mode {
    match m {
        Mode::Launcher => Mode::Git,
        Mode::Files => Mode::Launcher,
        Mode::Git => Mode::Files,
    }
}

/// The text on a tab.
pub open spec fn mode_label(m: Mode) -> Seq<char> {
    match m {
        Mode::Launcher => "Launcher"@,
        Mode::Files => "File search"@,
        Mode::Git => "Git projects"@,
    }
}

impl Mode {
    /// The modes in the order of their tabs.
    pub fn all() -> (r: [Mode; 3])
        ensures
            r@ == seq![Mode::Launcher, Mode::Files, Mode::Git],
    {
        let all = [Mode::Launcher, Mode::Files, Mode::Git];
        assert(all@ =~= seq![Mode::Launcher, Mode::Files, Mode::Git]);
        all
    }

    pub fn label(self) -> (r: &'static str)
        ensures
            r@ == mode_label(self),
    {
        match self {
            Mode::Launcher => "Launcher",
            Mode::Files => "File search",
            Mode::Git => "Git projects",
        }
    }

    pub fn next(self) -> (r: Self)
        ensures
            r == next_mode(self),
    {
        match self {
            Mode::Launcher => Mode::Files,
            Mode::Files => Mode::Git,
            Mode::Git => Mode::Launcher,
        }
    }

    pub fn prev(self) -> (r: Self)
        ensures
            r == prev_mode(self),
    {
        match self {
            Mode::Launcher => Mode::Git,
            Mode::Files => Mode::Launcher,
            Mode::Git => Mode::Files,
        }
    }
}

/// One step back undoes one step forward and the reverse, and three steps lead round.
pub proof fn law_modes_go_round(m: Mode)
    ensures
        prev_mode(next_mode(m)) == m,
        next_mode(prev_mode(m)) == m,
        next_mode(next_mode(next_mode(m))) == m,
        next_mode(m) != m,
{
}

// ---------------------------------------------------------------------------
// Keys
// ---------------------------------------------------------------------------

/// The codes of the keys that do something other than typing.
pub const KEY_ESCAPE: u32 = 0xff1b;

pub const KEY_RETURN: u32 = 0xff0d;

pub const KEY_KP_ENTER: u32 = 0xff8d;

pub const KEY_TAB: u32 = 0xff09;

pub const KEY_ISO_LEFT_TAB: u32 = 0xfe20;

pub const KEY_RIGHT: u32 = 0xff53;

pub const KEY_LEFT: u32 = 0xff51;

pub const KEY_UP: u32 = 0xff52;

pub const KEY_DOWN: u32 = 0xff54;

pub const KEY_BACKSPACE: u32 = 0xff08;

pub const KEY_P: u32 = 0x70;

pub const KEY_N: u32 = 0x6e;

pub const KEY_U: u32 = 0x75;

pub const KEY_W: u32 = 0x77;

/// A key, and the text that it types.
#[derive(Debug)]
pub struct KeyEvent {
    pub keysym: u32,
    pub utf8: Option<String>,
}

/// The model of a [`KeyEvent`].
#[verifier::ext_equal]
pub struct KeyModel {
    pub keysym: u32,
    pub utf8: Option<Seq<char>>,
}

impl View for KeyEvent {
    type V = KeyModel;

    open spec fn view(&self) -> KeyModel {
        KeyModel { keysym: self.keysym, utf8: opt_view(self.utf8) }
    }
}

impl Clone for KeyEvent {
    fn clone(&self) -> (r: Self)
        ensures
            r@ == self@,
    {
        KeyEvent { keysym: self.keysym, utf8: copy_opt(&self.utf8) }
    }
}

/// The modifier keys that are held down.
#[derive(Clone, Copy, Debug, PartialEq, Eq, Structural)]
pub struct Modifiers {
    pub ctrl: bool,
    pub logo: bool,
    pub shift: bool,
}

/// Whether a key repeats while it is held down. Keys that open, hide or switch the tab do not:
/// each press of them is one action.
pub open spec fn repeats(keysym: u32) -> bool {
    keysym != KEY_ESCAPE && keysym != KEY_RETURN && keysym != KEY_KP_ENTER && keysym != KEY_TAB
        && keysym != KEY_ISO_LEFT_TAB && keysym != KEY_LEFT && keysym != KEY_RIGHT
}

/// Whether a key repeats while it is held down.
pub fn is_repeatable(keysym: u32) -> (r: bool)
    ensures
        r == repeats(keysym),
{
    keysym != KEY_ESCAPE && keysym != KEY_RETURN && keysym != KEY_KP_ENTER && keysym != KEY_TAB
        && keysym != KEY_ISO_LEFT_TAB && keysym != KEY_LEFT && keysym != KEY_RIGHT
}

/// What a key does, given the modifiers.
#[derive(Clone, Copy, Debug, PartialEq, Eq, Structural)]
pub enum KeyMeaning {
    /// Hides the launcher.
    Hide,
    /// Runs the selected entry, then hides the launcher.
    Run,
    /// Goes to the next tab.
    NextTab,
    /// Goes to the tab before.
    PrevTab,
    /// Selects the entry above.
    Above,
    /// Selects the entry below.
    Below,
    /// Takes the last character of the query away.
    Erase,
    /// Takes the whole query away.
    EraseAll,
    /// Takes the last word of the query away.
    EraseWord,
    /// Adds its text to the query.
    Type,
    /// Nothing.
    Nothing,
}

/// What a key does, given the modifiers.
pub open spec fn key_meaning(keysym: u32, m: Modifiers) -> KeyMeaning {
    if keysym == KEY_ESCAPE {
        KeyMeaning::Hide
    } else if keysym == KEY_RETURN || keysym == KEY_KP_ENTER {
        KeyMeaning::Run
    } else if keysym == KEY_TAB || keysym == KEY_RIGHT {
        KeyMeaning::NextTab
    } else if keysym == KEY_ISO_LEFT_TAB || keysym == KEY_LEFT {
        KeyMeaning::PrevTab
    } else if keysym == KEY_P && m.logo {
        if m.shift {
            KeyMeaning::PrevTab
        } else {
            KeyMeaning::NextTab
        }
    } else if keysym == KEY_P && m.ctrl {
        KeyMeaning::NextTab
    } else if keysym == KEY_N && m.ctrl {
        KeyMeaning::PrevTab
    } else if keysym == KEY_UP {
        KeyMeaning::Above
    } else if keysym == KEY_DOWN {
        KeyMeaning::Below
    } else if keysym == KEY_BACKSPACE {
        KeyMeaning::Erase
    } else if keysym == KEY_U && m.ctrl {
        KeyMeaning::EraseAll
    } else if keysym == KEY_W && m.ctrl {
        KeyMeaning::EraseWord
    } else if m.ctrl {
        KeyMeaning::Nothing
    } else {
        KeyMeaning::Type
    }
}

fn meaning_of(keysym: u32, m: Modifiers) -> (r: KeyMeaning)
    ensures
        r == key_meaning(keysym, m),
{
    if keysym == KEY_ESCAPE {
        KeyMeaning::Hide
    } else if keysym == KEY_RETURN || keysym == KEY_KP_ENTER {
        KeyMeaning::Run
    } else if keysym == KEY_TAB || keysym == KEY_RIGHT {
        KeyMeaning::NextTab
    } else if keysym == KEY_ISO_LEFT_TAB || keysym == KEY_LEFT {
        KeyMeaning::PrevTab
    } else if keysym == KEY_P && m.logo {
        if m.shift {
            KeyMeaning::PrevTab
        } else {
            KeyMeaning::NextTab
        }
    } else if keysym == KEY_P && m.ctrl {
        KeyMeaning::NextTab
    } else if keysym == KEY_N && m.ctrl {
        KeyMeaning::PrevTab
    } else if keysym == KEY_UP {
        KeyMeaning::Above
    } else if keysym == KEY_DOWN {
        KeyMeaning::Below
    } else if keysym == KEY_BACKSPACE {
        KeyMeaning::Erase
    } else if keysym == KEY_U && m.ctrl {
        KeyMeaning::EraseAll
    } else if keysym == KEY_W && m.ctrl {
        KeyMeaning::EraseWord
    } else if m.ctrl {
        KeyMeaning::Nothing
    } else {
        KeyMeaning::Type
    }
}

// ---------------------------------------------------------------------------
// The query
// ---------------------------------------------------------------------------

/// A text without the characters at its end that are blank.
pub open spec fn without_blanks(s: Seq<char>) -> Seq<char>
    decreases s.len(),
{
    if s.len() > 0 && is_space(s.last()) {
        without_blanks(s.drop_last())
    } else {
        s
    }
}

/// A text without the characters at its end that are not blank.
pub open spec fn without_nonblanks(s: Seq<char>) -> Seq<char>
    decreases s.len(),
{
    if s.len() > 0 && !is_space(s.last()) {
        without_nonblanks(s.drop_last())
    } else {
        s
    }
}

/// A text without its last word and the blanks after it.
pub open spec fn without_word(s: Seq<char>) -> Seq<char> {
    without_nonblanks(without_blanks(s))
}

/// Takes the last word away, and the blanks after it.
pub fn pop_word(s: &mut String)
    ensures
        final(s)@ == without_word(old(s)@),
{
    let chars = chars_of(s.as_str());
    let mut n: usize = chars.len();
    assert(chars@.take(n as int) =~= s@);
    while n > 0 && chars[n - 1].is_whitespace()
        invariant
            n <= chars@.len(),
            without_blanks(s@) == without_blanks(chars@.take(n as int)),
        decreases n,
    {
        assert(chars@.take(n as int).drop_last() =~= chars@.take(n - 1));
        n -= 1;
    }
    let ghost rest = chars@.take(n as int);
    while n > 0 && !chars[n - 1].is_whitespace()
        invariant
            n <= chars@.len(),
            without_nonblanks(rest) == without_nonblanks(chars@.take(n as int)),
        decreases n,
    {
        assert(chars@.take(n as int).drop_last() =~= chars@.take(n - 1));
        n -= 1;
    }
    let kept = slice_subrange(chars.as_slice(), 0, n);
    assert(kept@ =~= chars@.take(n as int));
    *s = string_of(kept);
}

/// The characters of a text that are not control characters.
pub open spec fn printable(s: Seq<char>) -> Seq<char>
    decreases s.len(),
{
    if s.len() == 0 {
        Seq::empty()
    } else {
        let before = printable(s.drop_last());
        if is_control_char(s.last()) {
            before
        } else {
            before.push(s.last())
        }
    }
}

/// Adds the characters of a text that are not control characters, and tells whether there
/// are any.
fn push_printable(query: &mut String, text: &str) -> (r: bool)
    ensures
        final(query)@ == old(query)@ + printable(text@),
        r == (printable(text@).len() > 0),
{
    let chars = chars_of(text);
    let mut pushed: bool = false;
    let mut i: usize = 0;
    let ghost before = query@;
    assert(chars@.take(0) =~= Seq::empty());
    assert(before + Seq::<char>::empty() =~= before);
    while i < chars.len()
        invariant
            i <= chars@.len(),
            query@ == before + printable(chars@.take(i as int)),
            pushed == (printable(chars@.take(i as int)).len() > 0),
        decreases chars.len() - i,
    {
        let c = chars[i];
        assert(chars@.take(i + 1).drop_last() =~= chars@.take(i as int));
        if !c.is_control() {
            let ghost done = printable(chars@.take(i as int));
            query.push(c);
            assert((before + done).push(c) =~= before + done.push(c));
            pushed = true;
        }
        i += 1;
    }
    assert(chars@.take(i as int) =~= chars@);
    pushed
}

/// Taking a word away leaves a beginning of the query that is empty or ends in a blank.
pub proof fn law_word_is_taken_from_the_end(s: Seq<char>)
    ensures
        without_word(s).is_prefix_of(s),
        without_word(s).len() > 0 ==> is_space(without_word(s).last()),
{
    lemma_without_blanks(s);
    lemma_without_nonblanks(without_blanks(s));
}

proof fn lemma_without_blanks(s: Seq<char>)
    ensures
        without_blanks(s).is_prefix_of(s),
    decreases s.len(),
{
    if s.len() > 0 && is_space(s.last()) {
        lemma_without_blanks(s.drop_last());
        assert(without_blanks(s) == without_blanks(s.drop_last()));
        assert(without_blanks(s.drop_last()) =~= s.subrange(
            0,
            without_blanks(s.drop_last()).len() as int,
        ));
    } else {
        assert(s =~= s.subrange(0, s.len() as int));
    }
}

proof fn lemma_without_nonblanks(s: Seq<char>)
    ensures
        without_nonblanks(s).is_prefix_of(s),
        without_nonblanks(s).len() > 0 ==> is_space(without_nonblanks(s).last()),
    decreases s.len(),
{
    if s.len() > 0 && !is_space(s.last()) {
        lemma_without_nonblanks(s.drop_last());
        assert(without_nonblanks(s) == without_nonblanks(s.drop_last()));
        assert(without_nonblanks(s.drop_last()) =~= s.subrange(
            0,
            without_nonblanks(s.drop_last()).len() as int,
        ));
    } else {
        assert(s =~= s.subrange(0, s.len() as int));
    }
}

// ---------------------------------------------------------------------------
// State and effects
// ---------------------------------------------------------------------------

/// How many files are shown without a query.
pub const FILES_DEFAULT_LIMIT: usize = 20;

/// How long a window may take to be configured before it counts as lost, in nanoseconds.
pub const SESSION_CONFIGURE_GRACE: u64 = 700_000_000;

/// How long a key is held down before it repeats, in nanoseconds.
pub const DEFAULT_REPEAT_DELAY: u64 = 400_000_000;

/// How long lies between two repeats of a key, in nanoseconds.
pub const DEFAULT_REPEAT_RATE: u64 = 33_000_000;

/// A window, from its creation to its end.
#[derive(Clone, Copy, Debug, PartialEq, Eq, Structural)]
pub struct Session {
    pub width: u32,
    pub height: u32,
    /// Whether the compositor has configured the window: only then can it be seen.
    pub configured: bool,
    /// Whether the size was chosen for a known screen.
    pub size_locked: bool,
    /// The screen that the window is on.
    pub output: Option<u32>,
    /// When the window was created, in nanoseconds.
    pub created: u64,
}

/// A key that is held down, and when it repeats next, in nanoseconds.
#[derive(Debug)]
pub struct RepeatState {
    pub event: KeyEvent,
    pub next_fire: u64,
}

/// The model of a [`RepeatState`].
#[verifier::ext_equal]
pub struct RepeatModel {
    pub event: KeyModel,
    pub next_fire: u64,
}

impl View for RepeatState {
    type V = RepeatModel;

    open spec fn view(&self) -> RepeatModel {
        RepeatModel { event: self.event@, next_fire: self.next_fire }
    }
}

/// A search that runs beside the launcher: its number, the query, and the labels.
#[derive(Debug)]
pub struct SearchRequest {
    pub gen: u64,
    pub query: String,
    pub labels: Arc<Vec<String>>,
}

/// The model of a [`SearchRequest`].
#[verifier::ext_equal]
pub struct RequestModel {
    pub gen: u64,
    pub query: Seq<char>,
    pub labels: Seq<Seq<char>>,
}

impl View for SearchRequest {
    type V = RequestModel;

    open spec fn view(&self) -> RequestModel {
        RequestModel { gen: self.gen, query: self.query@, labels: strings_view(self.labels@) }
    }
}

/// What a search came to, with the number of the search.
#[derive(Debug)]
pub struct SearchResult {
    pub gen: u64,
    pub hits: Vec<Hit>,
}

/// Something that is to be done outside the launcher's state.
#[derive(Debug)]
pub enum Effect {
    /// Draw the window.
    Draw,
    /// End the window.
    DestroySession,
    /// Create a window of this size.
    CreateSurface { width: u32, height: u32 },
    /// Ask the compositor for this size.
    SetSize { width: u32, height: u32 },
    /// Give the drawing surface this size, if there is one.
    ResizeWindow { width: u32, height: u32 },
    /// Start a program.
    Spawn { program: String, args: Vec<String> },
    /// Write down what is remembered.
    SaveState,
    /// Search beside the launcher.
    Search(SearchRequest),
    /// Show files in a file manager through links.
    ShowFiles(Vec<Link>),
}

/// The model of an [`Effect`].
pub enum EffectModel {
    Draw,
    DestroySession,
    CreateSurface { width: u32, height: u32 },
    SetSize { width: u32, height: u32 },
    ResizeWindow { width: u32, height: u32 },
    Spawn { program: Seq<char>, args: Seq<Seq<char>> },
    SaveState,
    Search(RequestModel),
    ShowFiles(Seq<LinkModel>),
}

impl View for Effect {
    type V = EffectModel;

    open spec fn view(&self) -> EffectModel {
        match self {
            Effect::Draw => EffectModel::Draw,
            Effect::DestroySession => EffectModel::DestroySession,
            Effect::CreateSurface { width, height } => EffectModel::CreateSurface {
                width: *width,
                height: *height,
            },
            Effect::SetSize { width, height } => EffectModel::SetSize {
                width: *width,
                height: *height,
            },
            Effect::ResizeWindow { width, height } => EffectModel::ResizeWindow {
                width: *width,
                height: *height,
            },
            Effect::Spawn { program, args } => EffectModel::Spawn {
                program: program@,
                args: strings_view(args@),
            },
            Effect::SaveState => EffectModel::SaveState,
            Effect::Search(request) => EffectModel::Search(request@),
            Effect::ShowFiles(links) => EffectModel::ShowFiles(views(links@)),
        }
    }
}

/// The launcher.
pub struct App {
    pub modifiers: Modifiers,
    pub repeat: Option<RepeatState>,
    pub repeat_delay: u64,
    pub repeat_rate: u64,
    pub exit: bool,
    pub session: Option<Session>,
    pub entries: Vec<Entry>,
    pub last_current_system: Option<FilePath>,
    pub query: String,
    pub matches: Vec<Hit>,
    pub selected: usize,
    pub scroll_offset: usize,
    pub matcher: Index,
    pub mode: Mode,
    pub launcher_list: Vec<ListEntry>,
    pub files_list: Vec<ListEntry>,
    pub files_labels: Arc<Vec<String>>,
    pub git_list: Vec<ListEntry>,
    pub persisted: State,
    pub search_gen: u64,
}

/// The model of an [`App`].
#[verifier::ext_equal]
pub struct AppModel {
    pub modifiers: Modifiers,
    pub repeat: Option<RepeatModel>,
    pub repeat_delay: u64,
    pub repeat_rate: u64,
    pub exit: bool,
    pub session: Option<Session>,
    pub entries: Seq<EntryModel>,
    pub last_current_system: Option<Seq<u8>>,
    pub query: Seq<char>,
    pub matches: Seq<Hit>,
    pub selected: int,
    pub scroll_offset: int,
    /// Whether searches ignore case.
    pub ignore_case: bool,
    pub mode: Mode,
    pub launcher_list: Seq<Item>,
    pub files_list: Seq<Item>,
    pub files_labels: Seq<Seq<char>>,
    pub git_list: Seq<Item>,
    pub usage: Map<Seq<char>, AppUsage>,
    pub search_gen: u64,
}

impl View for App {
    type V = AppModel;

    open spec fn view(&self) -> AppModel {
        AppModel {
            modifiers: self.modifiers,
            repeat: match self.repeat {
                Some(r) => Some(r@),
                None => None,
            },
            repeat_delay: self.repeat_delay,
            repeat_rate: self.repeat_rate,
            exit: self.exit,
            session: self.session,
            entries: views(self.entries@),
            last_current_system: opt_path_view(self.last_current_system),
            query: self.query@,
            matches: self.matches@,
            selected: self.selected as int,
            scroll_offset: self.scroll_offset as int,
            ignore_case: self.matcher.ignores_case(),
            mode: self.mode,
            launcher_list: views(self.launcher_list@),
            files_list: views(self.files_list@),
            files_labels: strings_view(self.files_labels@),
            git_list: views(self.git_list@),
            usage: self.persisted@,
            search_gen: self.search_gen,
        }
    }
}

/// Whether an entry is selected where there is one, the labels of the files are those of the
/// list, and searches ignore case.
pub open spec fn is_consistent(m: AppModel) -> bool {
    &&& m.matches.len() == 0 ==> m.selected == 0
    &&& m.matches.len() > 0 ==> 0 <= m.selected < m.matches.len()
    &&& m.files_labels == item_labels(m.files_list)
    &&& m.ignore_case
}

/// What holds of the launcher at every time: an entry is selected where there is one, the
/// list is not scrolled past it, the labels of the files are those of the list, and searches
/// ignore case.
pub open spec fn is_sound(m: AppModel) -> bool {
    is_consistent(m) && 0 <= m.scroll_offset <= m.selected
}

/// Whether the window can be seen.
pub open spec fn is_shown(m: AppModel) -> bool {
    m.session matches Some(s) && s.configured
}

/// Drawing, where the window can be seen.
pub open spec fn draws(m: AppModel) -> Seq<EffectModel> {
    if is_shown(m) {
        seq![EffectModel::Draw]
    } else {
        Seq::empty()
    }
}

/// The number of rows of the window.
pub open spec fn window_rows(m: AppModel) -> int {
    rows_for(
        match m.session {
            Some(s) => s.height as int,
            None => FALLBACK_HEIGHT as int,
        },
    )
}

/// The launcher scrolled so far that the selected entry is within the window.
pub open spec fn scrolled(m: AppModel) -> AppModel {
    let offset = if m.matches.len() == 0 {
        0
    } else if m.selected < m.scroll_offset {
        m.selected
    } else if m.selected >= m.scroll_offset + window_rows(m) {
        m.selected + 1 - window_rows(m)
    } else {
        m.scroll_offset
    };
    AppModel { scroll_offset: offset, ..m }
}

/// The launcher with other results: what was selected stays selected, or the last one.
pub open spec fn with_matches(m: AppModel, hits: Seq<Hit>) -> AppModel {
    let selected = if m.selected < hits.len() {
        m.selected
    } else if hits.len() > 0 {
        hits.len() - 1
    } else {
        0
    };
    scrolled(AppModel { matches: hits, selected, scroll_offset: 0, ..m })
}

/// The list of the current mode.
pub open spec fn active_list(m: AppModel) -> Seq<Item> {
    match m.mode {
        Mode::Launcher => m.launcher_list,
        Mode::Files => m.files_list,
        Mode::Git => m.git_list,
    }
}

/// The results for the current list and query: without a query, only the first files.
pub open spec fn current_hits(m: AppModel) -> Seq<Hit> {
    let hits = search_result(m.ignore_case, item_labels(active_list(m)), m.query);
    if m.mode == Mode::Files && m.query.len() == 0 {
        at_most(hits, FILES_DEFAULT_LIMIT as int)
    } else {
        hits
    }
}

/// The launcher after a new search. Every search has a new number. One for files with a
/// query runs beside the launcher, and the results stay until it is done; any other is done
/// at once. A search that the matcher cannot take leaves the results as they are.
pub open spec fn refreshed(m: AppModel) -> (AppModel, Seq<EffectModel>) {
    let m = AppModel { search_gen: m.search_gen.wrapping_add(1), ..m };
    if m.mode == Mode::Files && m.query.len() > 0 {
        (
            m,
            seq![
                EffectModel::Search(
                    RequestModel { gen: m.search_gen, query: m.query, labels: m.files_labels },
                ),
            ],
        )
    } else if searchable(item_labels(active_list(m)), m.query) {
        (with_matches(m, current_hits(m)), Seq::empty())
    } else {
        (m, Seq::empty())
    }
}

/// Whether the results are what a search in the current list finds, where one was done at once.
pub open spec fn shows_what_is_found(m: AppModel) -> bool {
    let labels = item_labels(active_list(m));
    m.mode != Mode::Files && searchable(labels, m.query) ==> {
        &&& finds_ascii(m.matches, labels, m.query)
        &&& literal_wins(m.matches, labels, m.query)
        &&& misses_foreign(m.matches, labels, m.query)
    }
}

/// The launcher after a search beside it: its result counts where it is that of the last
/// search and files are still searched for.
pub open spec fn with_result(m: AppModel, gen: u64, hits: Seq<Hit>) -> (
    AppModel,
    Seq<EffectModel>,
) {
    if gen != m.search_gen || m.mode != Mode::Files || m.query.len() == 0 {
        (m, Seq::empty())
    } else {
        (with_matches(m, hits), draws(with_matches(m, hits)))
    }
}

/// The launcher on another tab, with an empty query.
pub open spec fn cycled(m: AppModel, forward: bool) -> (AppModel, Seq<EffectModel>) {
    let mode = if forward {
        next_mode(m.mode)
    } else {
        prev_mode(m.mode)
    };
    refreshed(AppModel { mode, query: Seq::empty(), selected: 0, ..m })
}

/// The launcher with the entry above selected.
pub open spec fn moved_up(m: AppModel) -> AppModel {
    if m.selected > 0 {
        scrolled(AppModel { selected: m.selected - 1, ..m })
    } else {
        m
    }
}

/// The launcher with the entry below selected.
pub open spec fn moved_down(m: AppModel) -> AppModel {
    if m.selected + 1 < m.matches.len() {
        scrolled(AppModel { selected: m.selected + 1, ..m })
    } else {
        m
    }
}

/// `Arc::clone`: another handle to the same labels.
#[verifier::external_body]
fn share(labels: &Arc<Vec<String>>) -> (r: Arc<Vec<String>>)
    ensures
        r == *labels,
{
    Arc::clone(labels)
}

/// Adds effects behind others.
fn extend(out: &mut Vec<Effect>, more: Vec<Effect>)
    ensures
        views(final(out)@) == views(old(out)@) + views(more@),
{
    let ghost before = views(out@);
    let ghost added = views(more@);
    let mut more = more;
    out.append(&mut more);
    assert(views(out@) =~= before + added);
}

impl App {
    /// Drawing, where the window can be seen.
    fn draw(&self) -> (r: Vec<Effect>)
        ensures
            views(r@) == draws(self@),
    {
        let mut out: Vec<Effect> = Vec::new();
        match &self.session {
            Some(s) if s.configured => {
                out.push(Effect::Draw);
            },
            _ => {},
        }
        assert(views(out@) =~= draws(self@));
        out
    }

    /// Scrolls so far that the selected entry is within the window.
    fn ensure_visible(&mut self)
        requires
            old(self)@.matches.len() > 0 ==> old(self)@.selected < old(self)@.matches.len(),
        ensures
            final(self)@ == scrolled(old(self)@),
    {
        let height: u32 = match &self.session {
            Some(s) => s.height,
            None => FALLBACK_HEIGHT,
        };
        let rows: usize = visible_rows_for(height);
        if self.matches.len() == 0 {
            self.scroll_offset = 0;
            return ;
        }
        if self.selected < self.scroll_offset {
            self.scroll_offset = self.selected;
        } else if self.selected - self.scroll_offset >= rows {
            self.scroll_offset = self.selected - rows + 1;
        }
    }

    /// Takes other results.
    fn set_matches(&mut self, hits: Vec<Hit>)
        ensures
            final(self)@ == with_matches(old(self)@, hits@),
    {
        self.matches = hits;
        if self.selected >= self.matches.len() {
            self.selected = if self.matches.len() > 0 {
                self.matches.len() - 1
            } else {
                0
            };
        }
        self.scroll_offset = 0;
        self.ensure_visible();
    }

    /// Searches anew.
    pub fn refresh_matches(&mut self) -> (r: Vec<Effect>)
        requires
            is_consistent(old(self)@),
        ensures
            (final(self)@, views(r@)) == refreshed(old(self)@),
            shows_what_is_found(final(self)@),
            is_sound(old(self)@) || old(self)@.query.len() == 0 ==> is_sound(final(self)@),
    {
        let ghost before = self@;
        let mut out: Vec<Effect> = Vec::new();
        self.search_gen = self.search_gen.wrapping_add(1);
        let searching = !self.query.as_str().is_empty();
        if self.mode == Mode::Files && searching {
            let request = SearchRequest {
                gen: self.search_gen,
                query: copy_str(self.query.as_str()),
                labels: share(&self.files_labels),
            };
            out.push(Effect::Search(request));
            assert(views(out@) =~= refreshed(before).1);
            return out;
        }
        proof {
            lemma_item_labels(self.launcher_list@);
            lemma_item_labels(self.files_list@);
            lemma_item_labels(self.git_list@);
        }
        let found = match self.mode {
            Mode::Launcher => self.matcher.try_search(&self.launcher_list, self.query.as_str()),
            Mode::Files => self.matcher.try_search(&self.files_list, self.query.as_str()),
            Mode::Git => self.matcher.try_search(&self.git_list, self.query.as_str()),
        };
        if let Some(hits) = found {
            let mut hits = hits;
            if self.mode == Mode::Files && !searching {
                let ghost all = hits@;
                hits.truncate(FILES_DEFAULT_LIMIT);
                assert(hits@ =~= at_most(all, FILES_DEFAULT_LIMIT as int));
            }
            self.set_matches(hits);
        }
        assert(views(out@) =~= Seq::empty());
        out
    }

    /// Takes the result of a search beside the launcher.
    pub fn on_search_result(&mut self, result: SearchResult) -> (r: Vec<Effect>)
        requires
            is_sound(old(self)@),
        ensures
            (final(self)@, views(r@)) == with_result(old(self)@, result.gen, result.hits@),
            is_sound(final(self)@),
    {
        let out: Vec<Effect> = Vec::new();
        assert(views(out@) =~= Seq::empty());
        if result.gen != self.search_gen {
            return out;
        }
        if self.mode != Mode::Files || self.query.as_str().is_empty() {
            return out;
        }
        self.set_matches(result.hits);
        self.draw()
    }

    /// Goes to the next tab, or to the one before.
    pub fn cycle_mode(&mut self, forward: bool) -> (r: Vec<Effect>)
        requires
            is_sound(old(self)@),
        ensures
            (final(self)@, views(r@)) == cycled(old(self)@, forward),
            is_sound(final(self)@),
    {
        self.mode = if forward {
            self.mode.next()
        } else {
            self.mode.prev()
        };
        self.query = String::new();
        self.selected = 0;
        assert(self@.query =~= Seq::empty());
        self.refresh_matches()
    }

    /// Selects the entry above.
    pub fn select_prev(&mut self)
        requires
            is_sound(old(self)@),
        ensures
            final(self)@ == moved_up(old(self)@),
            is_sound(final(self)@),
    {
        if self.selected > 0 {
            self.selected -= 1;
            self.ensure_visible();
        }
    }

    /// Selects the entry below.
    pub fn select_next(&mut self)
        requires
            is_sound(old(self)@),
        ensures
            final(self)@ == moved_down(old(self)@),
            is_sound(final(self)@),
    {
        let count: usize = self.matches.len();
        if self.selected + 1 < count {
            self.selected += 1;
            self.ensure_visible();
        }
    }
}

// ---------------------------------------------------------------------------
// Windows
// ---------------------------------------------------------------------------

/// The launcher without its window.
pub open spec fn destroyed(m: AppModel) -> (AppModel, Seq<EffectModel>) {
    if m.session is Some {
        (AppModel { session: None, ..m }, seq![EffectModel::DestroySession])
    } else {
        (m, Seq::empty())
    }
}

/// The launcher hidden: with an empty query, on the first tab, and without a window.
pub open spec fn hidden(m: AppModel) -> (AppModel, Seq<EffectModel>) {
    let (m, searches) = refreshed(
        AppModel {
            repeat: None,
            query: Seq::empty(),
            selected: 0,
            scroll_offset: 0,
            mode: Mode::Launcher,
            ..m
        },
    );
    let (m, ends) = destroyed(m);
    (m, searches + ends)
}

/// The lesser of two lengths.
pub open spec fn lesser(a: int, b: int) -> int {
    if a < b {
        a
    } else {
        b
    }
}

/// The size of the window before the screen that it is on is known: the least width and the
/// least height of the windows for the screens of known size, and whether there is one.
pub open spec fn provisional_size(outputs: Seq<Option<(i32, i32)>>) -> (int, int, bool)
    decreases outputs.len(),
{
    if outputs.len() == 0 {
        (FALLBACK_WIDTH as int, FALLBACK_HEIGHT as int, false)
    } else {
        let (width, height, locked) = provisional_size(outputs.drop_last());
        match outputs.last() {
            Some(size) => {
                let w = side_for(size.0 as int, MIN_WIDTH as int);
                let h = side_for(size.1 as int, MIN_HEIGHT as int);
                if locked {
                    (lesser(w, width), lesser(h, height), true)
                } else {
                    (w, h, true)
                }
            },
            None => (width, height, locked),
        }
    }
}

/// The launcher with a new window.
pub open spec fn created(m: AppModel, now: u64, outputs: Seq<Option<(i32, i32)>>) -> (
    AppModel,
    Seq<EffectModel>,
) {
    let (width, height, locked) = provisional_size(outputs);
    let session = Session {
        width: width as u32,
        height: height as u32,
        configured: false,
        size_locked: locked,
        output: None,
        created: now,
    };
    (
        AppModel { session: Some(session), ..m },
        seq![EffectModel::CreateSurface { width: width as u32, height: height as u32 }],
    )
}

/// The launcher shown. A window that can be seen is drawn anew; one that waits to be
/// configured is left alone, until it counts as lost and is replaced.
pub open spec fn showed(m: AppModel, now: u64, outputs: Seq<Option<(i32, i32)>>) -> (
    AppModel,
    Seq<EffectModel>,
) {
    match m.session {
        Some(s) => if s.configured {
            (m, seq![EffectModel::Draw])
        } else if now.saturating_sub(s.created) < SESSION_CONFIGURE_GRACE {
            (m, Seq::empty())
        } else {
            let (gone, ends) = destroyed(m);
            let (m, creates) = created(gone, now, outputs);
            (m, ends + creates)
        },
        None => created(m, now, outputs),
    }
}

/// The launcher with a window for a screen of the given size. The compositor is asked for
/// the size, unless the window has it already and was sized for a known screen.
pub open spec fn fitted(m: AppModel, logical_size: Option<(i32, i32)>) -> (
    AppModel,
    Seq<EffectModel>,
) {
    match (logical_size, m.session) {
        (Some(size), Some(s)) => {
            let w = side_for(size.0 as int, MIN_WIDTH as int) as u32;
            let h = side_for(size.1 as int, MIN_HEIGHT as int) as u32;
            if s.size_locked && s.width == w && s.height == h {
                (m, Seq::empty())
            } else {
                (
                    AppModel { session: Some(Session { size_locked: true, ..s }), ..m },
                    seq![EffectModel::SetSize { width: w, height: h }],
                )
            }
        },
        _ => (m, Seq::empty()),
    }
}

/// The launcher with its window configured: the compositor's size counts where it gives one.
pub open spec fn configured(m: AppModel, w: u32, h: u32) -> (AppModel, Seq<EffectModel>) {
    match m.session {
        Some(s) => {
            let width = if w > 0 {
                w
            } else {
                s.width
            };
            let height = if h > 0 {
                h
            } else {
                s.height
            };
            (
                AppModel {
                    session: Some(Session { width, height, configured: true, ..s }),
                    ..m
                },
                seq![EffectModel::ResizeWindow { width, height }, EffectModel::Draw],
            )
        },
        None => (m, Seq::empty()),
    }
}

/// The launcher after its window has come onto a screen. `ours` says whether it was its
/// window.
pub open spec fn entered(
    m: AppModel,
    ours: bool,
    output: u32,
    logical_size: Option<(i32, i32)>,
) -> (AppModel, Seq<EffectModel>) {
    match m.session {
        Some(s) => if ours {
            fitted(
                AppModel { session: Some(Session { output: Some(output), ..s }), ..m },
                logical_size,
            )
        } else {
            (m, Seq::empty())
        },
        None => (m, Seq::empty()),
    }
}

/// The launcher after a screen has appeared: it counts only while the window is on no known
/// screen and was sized for none.
pub open spec fn with_new_screen(m: AppModel, logical_size: Option<(i32, i32)>) -> (
    AppModel,
    Seq<EffectModel>,
) {
    match m.session {
        Some(s) => if s.output is None && !s.size_locked {
            fitted(m, logical_size)
        } else {
            (m, Seq::empty())
        },
        None => (m, Seq::empty()),
    }
}

/// The launcher after a screen has changed: it counts only where the window is on it.
pub open spec fn with_changed_screen(
    m: AppModel,
    output: u32,
    logical_size: Option<(i32, i32)>,
) -> (AppModel, Seq<EffectModel>) {
    match m.session {
        Some(s) => if s.output == Some(output) {
            fitted(m, logical_size)
        } else {
            (m, Seq::empty())
        },
        None => (m, Seq::empty()),
    }
}

/// The launcher after a screen is gone: its window is on no known screen, if it was on it.
pub open spec fn without_screen(m: AppModel, output: u32) -> AppModel {
    match m.session {
        Some(s) => if s.output == Some(output) {
            AppModel { session: Some(Session { output: None, ..s }), ..m }
        } else {
            m
        },
        None => m,
    }
}

impl App {
    /// Ends the window.
    pub fn destroy_session(&mut self) -> (r: Vec<Effect>)
        requires
            is_sound(old(self)@),
        ensures
            (final(self)@, views(r@)) == destroyed(old(self)@),
            is_sound(final(self)@),
    {
        let mut out: Vec<Effect> = Vec::new();
        let ghost before = self@;
        if self.session.is_some() {
            self.session = None;
            out.push(Effect::DestroySession);
        }
        assert(views(out@) =~= destroyed(before).1);
        out
    }

    /// Hides the launcher.
    pub fn conceal(&mut self) -> (r: Vec<Effect>)
        requires
            is_sound(old(self)@),
        ensures
            (final(self)@, views(r@)) == hidden(old(self)@),
            is_sound(final(self)@),
    {
        self.repeat = None;
        self.query = String::new();
        self.selected = 0;
        self.scroll_offset = 0;
        self.mode = Mode::Launcher;
        assert(self@.query =~= Seq::empty());
        let mut out = self.refresh_matches();
        let ends = self.destroy_session();
        extend(&mut out, ends);
        out
    }

    /// Creates a window. `outputs` holds the sizes of the screens that have one.
    fn create_session(&mut self, now: u64, outputs: &Vec<Option<(i32, i32)>>) -> (r: Vec<Effect>)
        requires
            is_sound(old(self)@),
        ensures
            (final(self)@, views(r@)) == created(old(self)@, now, outputs@),
            is_sound(final(self)@),
    {
        let ghost before = self@;
        let mut width: u32 = FALLBACK_WIDTH;
        let mut height: u32 = FALLBACK_HEIGHT;
        let mut size_locked: bool = false;
        let mut i: usize = 0;
        assert(outputs@.take(0) =~= Seq::empty());
        while i < outputs.len()
            invariant
                i <= outputs@.len(),
                (width as int, height as int, size_locked) == provisional_size(
                    outputs@.take(i as int),
                ),
            decreases outputs.len() - i,
        {
            assert(outputs@.take(i + 1).drop_last() =~= outputs@.take(i as int));
            if let Some((lw, lh)) = outputs[i] {
                let (w, h) = size_for_output(lw, lh);
                if !size_locked || w < width {
                    width = w;
                }
                if !size_locked || h < height {
                    height = h;
                }
                size_locked = true;
            }
            i += 1;
        }
        assert(outputs@.take(i as int) =~= outputs@);
        self.session = Some(
            Session { width, height, configured: false, size_locked, output: None, created: now },
        );
        let mut out: Vec<Effect> = Vec::new();
        out.push(Effect::CreateSurface { width, height });
        assert(views(out@) =~= created(before, now, outputs@).1);
        out
    }

    /// Shows the launcher at the time `now`, in nanoseconds. `outputs` holds the size of each
    /// screen, where it is known.
    pub fn show(&mut self, now: u64, outputs: &Vec<Option<(i32, i32)>>) -> (r: Vec<Effect>)
        requires
            is_sound(old(self)@),
        ensures
            (final(self)@, views(r@)) == showed(old(self)@, now, outputs@),
            is_sound(final(self)@),
    {
        let mut out: Vec<Effect> = Vec::new();
        assert(views(out@) =~= Seq::empty());
        if let Some(s) = self.session {
            if s.configured {
                out.push(Effect::Draw);
                assert(views(out@) =~= seq![EffectModel::Draw]);
                return out;
            }
            if now.saturating_sub(s.created) < SESSION_CONFIGURE_GRACE {
                return out;
            }
            out = self.destroy_session();
        }
        let ghost ends = views(out@);
        let creates = self.create_session(now, outputs);
        extend(&mut out, creates);
        assert(Seq::<EffectModel>::empty() + views(creates@) =~= views(creates@));
        out
    }

    /// Sizes the window for a screen, given the screen's size where it is known.
    pub fn resize_to_output(&mut self, logical_size: Option<(i32, i32)>) -> (r: Vec<Effect>)
        requires
            is_sound(old(self)@),
        ensures
            (final(self)@, views(r@)) == fitted(old(self)@, logical_size),
            is_sound(final(self)@),
    {
        let ghost before = self@;
        let mut out: Vec<Effect> = Vec::new();
        assert(views(out@) =~= Seq::empty());
        if let (Some((lw, lh)), Some(s)) = (logical_size, self.session) {
            let (w, h) = size_for_output(lw, lh);
            if s.size_locked && s.width == w && s.height == h {
                return out;
            }
            let mut s = s;
            s.size_locked = true;
            self.session = Some(s);
            out.push(Effect::SetSize { width: w, height: h });
            assert(views(out@) =~= fitted(before, logical_size).1);
        }
        out
    }

    /// Takes the size that the compositor gives the window; 0 leaves a side to the launcher.
    pub fn configure(&mut self, w: u32, h: u32) -> (r: Vec<Effect>)
        requires
            is_sound(old(self)@),
        ensures
            (final(self)@, views(r@)) == configured(old(self)@, w, h),
            is_sound(final(self)@),
    {
        let ghost before = self@;
        let mut out: Vec<Effect> = Vec::new();
        assert(views(out@) =~= Seq::empty());
        if let Some(s) = self.session {
            let mut s = s;
            if w > 0 {
                s.width = w;
            }
            if h > 0 {
                s.height = h;
            }
            s.configured = true;
            self.session = Some(s);
            out.push(Effect::ResizeWindow { width: s.width, height: s.height });
            out.push(Effect::Draw);
            assert(views(out@) =~= configured(before, w, h).1);
        }
        out
    }

    /// The window has come onto a screen with the given number and size.
    pub fn surface_enter(&mut self, ours: bool, output: u32, logical_size: Option<(i32, i32)>) -> (r:
        Vec<Effect>)
        requires
            is_sound(old(self)@),
        ensures
            (final(self)@, views(r@)) == entered(old(self)@, ours, output, logical_size),
            is_sound(final(self)@),
    {
        let out: Vec<Effect> = Vec::new();
        assert(views(out@) =~= Seq::empty());
        if let Some(s) = self.session {
            if ours {
                let mut s = s;
                s.output = Some(output);
                self.session = Some(s);
                return self.resize_to_output(logical_size);
            }
        }
        out
    }

    /// A screen has appeared. It counts only while the window is on no known screen and was
    /// sized for none.
    pub fn new_output(&mut self, logical_size: Option<(i32, i32)>) -> (r: Vec<Effect>)
        requires
            is_sound(old(self)@),
        ensures
            (final(self)@, views(r@)) == with_new_screen(old(self)@, logical_size),
            is_sound(final(self)@),
    {
        let out: Vec<Effect> = Vec::new();
        assert(views(out@) =~= Seq::empty());
        if let Some(s) = self.session {
            if s.output.is_none() && !s.size_locked {
                return self.resize_to_output(logical_size);
            }
        }
        out
    }

    /// A screen has changed. It counts only where the window is on it.
    pub fn update_output(&mut self, output: u32, logical_size: Option<(i32, i32)>) -> (r: Vec<
        Effect,
    >)
        requires
            is_sound(old(self)@),
        ensures
            (final(self)@, views(r@)) == with_changed_screen(old(self)@, output, logical_size),
            is_sound(final(self)@),
    {
        let out: Vec<Effect> = Vec::new();
        assert(views(out@) =~= Seq::empty());
        if let Some(s) = self.session {
            if let Some(on) = s.output {
                if on == output {
                    return self.resize_to_output(logical_size);
                }
            }
        }
        out
    }

    /// A screen is gone.
    pub fn output_destroyed(&mut self, output: u32)
        requires
            is_sound(old(self)@),
        ensures
            final(self)@ == without_screen(old(self)@, output),
            is_sound(final(self)@),
    {
        if let Some(s) = self.session {
            if let Some(on) = s.output {
                if on == output {
                    let mut s = s;
                    s.output = None;
                    self.session = Some(s);
                }
            }
        }
    }

    /// The compositor asks for a picture.
    pub fn frame_wanted(&self) -> (r: Vec<Effect>)
        ensures
            views(r@) == draws(self@),
    {
        self.draw()
    }
}

// ---------------------------------------------------------------------------
// Running entries
// ---------------------------------------------------------------------------

/// The selected entry of a list, if there is one.
pub open spec fn selected_item(m: AppModel, list: Seq<Item>) -> Option<Item> {
    if 0 <= m.selected < m.matches.len() && m.matches[m.selected].idx < list.len() {
        Some(list[m.matches[m.selected].idx as int])
    } else {
        None
    }
}

/// Starting the program of a command, if it has one.
pub open spec fn spawns(action: ActionModel) -> Seq<EffectModel> {
    match action {
        ActionModel::Exec(command) => if command.len() > 0 {
            seq![EffectModel::Spawn { program: command[0], args: command.skip(1) }]
        } else {
            Seq::empty()
        },
        ActionModel::Open(_) => Seq::empty(),
    }
}

/// The launcher after the selected application was started at the time `clock`, in seconds
/// since 1970: its use is remembered, and the applications are in the order of use.
pub open spec fn launched(m: AppModel, clock: u64) -> (AppModel, Seq<EffectModel>) {
    match selected_item(m, m.launcher_list) {
        Some(item) => match item.usage_key {
            Some(key) => {
                let usage = m.usage.insert(key, used_again(usage_of(m.usage, Some(key)), clock));
                (
                    AppModel {
                        usage,
                        launcher_list: sorted_by_usage(m.launcher_list, usage),
                        ..m
                    },
                    spawns(item.action).push(EffectModel::SaveState),
                )
            },
            None => (m, spawns(item.action)),
        },
        None => (m, Seq::empty()),
    }
}

/// A terminal in a directory.
pub open spec fn terminal_in(dir: Seq<char>) -> EffectModel {
    EffectModel::Spawn { program: "alacritty"@, args: seq!["--working-directory"@, dir] }
}

/// Opening a terminal in the selected project.
pub open spec fn opens_project(m: AppModel) -> Seq<EffectModel> {
    match selected_item(m, m.git_list) {
        Some(item) => match item.action {
            ActionModel::Open(path) => seq![terminal_in(lossy_utf8(path))],
            ActionModel::Exec(_) => Seq::empty(),
        },
        None => Seq::empty(),
    }
}

/// The launcher after the selected entry was run.
pub open spec fn executed(m: AppModel, clock: u64) -> (AppModel, Seq<EffectModel>) {
    match m.mode {
        Mode::Launcher => launched(m, clock),
        Mode::Git => (m, opens_project(m)),
        Mode::Files => (m, seq![EffectModel::ShowFiles(links(m.files_list, m.matches))]),
    }
}

/// A terminal in a directory.
pub fn open_terminal(dir: String) -> (r: Effect)
    ensures
        r@ == terminal_in(dir@),
{
    let mut args: Vec<String> = Vec::new();
    args.push(copy_str("--working-directory"));
    args.push(dir);
    assert(strings_view(args@) =~= seq!["--working-directory"@, dir@]);
    Effect::Spawn { program: copy_str("alacritty"), args }
}

impl App {
    /// Starts the selected application.
    fn run_launcher_action(&mut self, clock: u64) -> (r: Vec<Effect>)
        requires
            is_sound(old(self)@),
        ensures
            (final(self)@, views(r@)) == launched(old(self)@, clock),
            is_sound(final(self)@),
    {
        let ghost before = self@;
        let mut out: Vec<Effect> = Vec::new();
        assert(views(out@) =~= Seq::empty());
        if self.selected >= self.matches.len() {
            return out;
        }
        let hit = self.matches[self.selected];
        if hit.idx >= self.launcher_list.len() {
            return out;
        }
        assert(before.launcher_list[hit.idx as int] == self.launcher_list@[hit.idx as int]@);
        let ghost item = before.launcher_list[hit.idx as int];
        let usage_key = copy_opt(&self.launcher_list[hit.idx].usage_key);
        if let Action::Exec(command) = &self.launcher_list[hit.idx].action {
            assert(strings_view(command@).len() == command@.len());
            if command.len() > 0 {
                let program = copy_str(command[0].as_str());
                let args = copy_strings(command, 1);
                out.push(Effect::Spawn { program, args });
            }
        }
        assert(views(out@) =~= spawns(item.action));
        if let Some(key) = usage_key {
            self.persisted.record_use(key, clock);
            let mut list: Vec<ListEntry> = Vec::new();
            std::mem::swap(&mut list, &mut self.launcher_list);
            self.launcher_list = sort_by_usage(list, &self.persisted);
            let ghost spawned = views(out@);
            out.push(Effect::SaveState);
            assert(views(out@) =~= spawned.push(EffectModel::SaveState));
        }
        out
    }

    /// Opens a terminal in the selected project.
    fn run_git_action(&self) -> (r: Vec<Effect>)
        requires
            is_sound(self@),
        ensures
            views(r@) == opens_project(self@),
    {
        let mut out: Vec<Effect> = Vec::new();
        assert(views(out@) =~= Seq::empty());
        if self.selected >= self.matches.len() {
            return out;
        }
        let hit = self.matches[self.selected];
        if hit.idx >= self.git_list.len() {
            return out;
        }
        assert(self@.git_list[hit.idx as int] == self.git_list@[hit.idx as int]@);
        if let Action::Open(path) = &self.git_list[hit.idx].action {
            let terminal = open_terminal(path.to_string_lossy());
            out.push(terminal);
            assert(views(out@) =~= seq![terminal@]);
        }
        out
    }

    /// Runs the selected entry at the time `clock`, in seconds since 1970.
    pub fn execute_selected(&mut self, clock: u64) -> (r: Vec<Effect>)
        requires
            is_sound(old(self)@),
        ensures
            (final(self)@, views(r@)) == executed(old(self)@, clock),
            is_sound(final(self)@),
    {
        match self.mode {
            Mode::Launcher => self.run_launcher_action(clock),
            Mode::Git => self.run_git_action(),
            Mode::Files => {
                let mut out: Vec<Effect> = Vec::new();
                let links = stage_links(&self.files_list, &self.matches);
                out.push(Effect::ShowFiles(links));
                assert(views(out@) =~= seq![EffectModel::ShowFiles(views(links@))]);
                out
            },
        }
    }
}

// ---------------------------------------------------------------------------
// Keys and commands
// ---------------------------------------------------------------------------

/// The launcher after a key has changed something: searched anew, and drawn.
pub open spec fn updated(m: AppModel, done: Seq<EffectModel>) -> (AppModel, Seq<EffectModel>) {
    let (after, searches) = refreshed(m);
    (after, done + searches + draws(after))
}

/// The launcher after a key at the time `clock`, in seconds since 1970.
pub open spec fn keyed(m: AppModel, event: KeyModel, clock: u64) -> (AppModel, Seq<EffectModel>) {
    match key_meaning(event.keysym, m.modifiers) {
        KeyMeaning::Hide => hidden(m),
        KeyMeaning::Run => {
            let (ran, runs) = executed(m, clock);
            let (gone, ends) = hidden(ran);
            (gone, runs + ends)
        },
        KeyMeaning::NextTab => updated(cycled(m, true).0, cycled(m, true).1),
        KeyMeaning::PrevTab => updated(cycled(m, false).0, cycled(m, false).1),
        KeyMeaning::Above => updated(moved_up(m), Seq::empty()),
        KeyMeaning::Below => updated(moved_down(m), Seq::empty()),
        KeyMeaning::Erase => updated(
            AppModel {
                query: if m.query.len() > 0 {
                    m.query.drop_last()
                } else {
                    m.query
                },
                ..m
            },
            Seq::empty(),
        ),
        KeyMeaning::EraseAll => updated(AppModel { query: Seq::empty(), ..m }, Seq::empty()),
        KeyMeaning::EraseWord => updated(
            AppModel { query: without_word(m.query), ..m },
            Seq::empty(),
        ),
        KeyMeaning::Type => match event.utf8 {
            Some(text) => if printable(text).len() > 0 {
                updated(AppModel { query: m.query + printable(text), ..m }, Seq::empty())
            } else {
                (m, Seq::empty())
            },
            None => (m, Seq::empty()),
        },
        KeyMeaning::Nothing => (m, Seq::empty()),
    }
}

/// The launcher with a key held down from the time `now` on, in nanoseconds.
pub open spec fn armed(m: AppModel, event: KeyModel, now: u64) -> AppModel {
    AppModel {
        repeat: if repeats(event.keysym) {
            Some(RepeatModel { event, next_fire: now.saturating_add(m.repeat_delay) })
        } else {
            None
        },
        ..m
    }
}

/// The launcher after a key was pressed.
pub open spec fn pressed(m: AppModel, event: KeyModel, now: u64, clock: u64) -> (
    AppModel,
    Seq<EffectModel>,
) {
    let (m, effects) = keyed(m, event, clock);
    (armed(m, event, now), effects)
}

/// The launcher after a key was let go: it does not repeat any more.
pub open spec fn released(m: AppModel, keysym: u32) -> AppModel {
    match m.repeat {
        Some(r) => if r.event.keysym == keysym {
            AppModel { repeat: None, ..m }
        } else {
            m
        },
        None => m,
    }
}

/// The launcher at the time `now`, in nanoseconds: a key that is held down repeats when its
/// time has come.
pub open spec fn ticked(m: AppModel, now: u64, clock: u64) -> (AppModel, Seq<EffectModel>) {
    match m.repeat {
        Some(r) => if now < r.next_fire {
            (m, Seq::empty())
        } else {
            keyed(
                AppModel {
                    repeat: Some(RepeatModel { next_fire: now.saturating_add(m.repeat_rate), ..r }),
                    ..m
                },
                r.event,
                clock,
            )
        },
        None => (m, Seq::empty()),
    }
}

/// The launcher after a command. Toggling shows it, and goes to the next tab where it can be
/// seen.
pub open spec fn commanded(
    m: AppModel,
    cmd: Command,
    now: u64,
    outputs: Seq<Option<(i32, i32)>>,
) -> (AppModel, Seq<EffectModel>) {
    match cmd {
        Command::Toggle => if is_shown(m) {
            let (m, searches) = cycled(m, true);
            (m, searches + draws(m))
        } else {
            showed(m, now, outputs)
        },
        Command::Show => showed(m, now, outputs),
        Command::Hide => hidden(m),
        Command::Quit => (AppModel { exit: true, ..m }, Seq::empty()),
    }
}

impl App {
    /// Searches anew and draws, after `done` was done.
    fn update(&mut self, done: Vec<Effect>) -> (r: Vec<Effect>)
        requires
            is_consistent(old(self)@),
            is_sound(old(self)@) || old(self)@.query.len() == 0,
        ensures
            (final(self)@, views(r@)) == updated(old(self)@, views(done@)),
            is_sound(final(self)@),
    {
        let mut out = done;
        let searches = self.refresh_matches();
        extend(&mut out, searches);
        let drawing = self.draw();
        extend(&mut out, drawing);
        out
    }

    /// Does what a key means, at the time `clock`, in seconds since 1970.
    pub fn handle_key(&mut self, event: &KeyEvent, clock: u64) -> (r: Vec<Effect>)
        requires
            is_sound(old(self)@),
        ensures
            (final(self)@, views(r@)) == keyed(old(self)@, event@, clock),
            is_sound(final(self)@),
    {
        let nothing: Vec<Effect> = Vec::new();
        assert(views(nothing@) =~= Seq::empty());
        match meaning_of(event.keysym, self.modifiers) {
            KeyMeaning::Hide => self.conceal(),
            KeyMeaning::Run => {
                let mut out = self.execute_selected(clock);
                let ends = self.conceal();
                extend(&mut out, ends);
                out
            },
            KeyMeaning::NextTab => {
                let done = self.cycle_mode(true);
                self.update(done)
            },
            KeyMeaning::PrevTab => {
                let done = self.cycle_mode(false);
                self.update(done)
            },
            KeyMeaning::Above => {
                self.select_prev();
                self.update(nothing)
            },
            KeyMeaning::Below => {
                self.select_next();
                self.update(nothing)
            },
            KeyMeaning::Erase => {
                let _ = self.query.pop();
                self.update(nothing)
            },
            KeyMeaning::EraseAll => {
                self.query = String::new();
                assert(self@.query =~= Seq::empty());
                self.update(nothing)
            },
            KeyMeaning::EraseWord => {
                pop_word(&mut self.query);
                self.update(nothing)
            },
            KeyMeaning::Type => {
                if let Some(text) = &event.utf8 {
                    if push_printable(&mut self.query, text.as_str()) {
                        return self.update(nothing);
                    }
                    assert(old(self)@.query + printable(text@) =~= old(self)@.query);
                }
                nothing
            },
            KeyMeaning::Nothing => nothing,
        }
    }

    /// Lets a key repeat from the time `now` on, in nanoseconds, if it is one that does.
    fn arm_repeat(&mut self, event: KeyEvent, now: u64)
        requires
            is_sound(old(self)@),
        ensures
            final(self)@ == armed(old(self)@, event@, now),
            is_sound(final(self)@),
    {
        if !is_repeatable(event.keysym) {
            self.repeat = None;
            return ;
        }
        self.repeat = Some(
            RepeatState { event, next_fire: now.saturating_add(self.repeat_delay) },
        );
    }

    /// A key was pressed, at the time `now`, in nanoseconds, and `clock`, in seconds since
    /// 1970.
    pub fn press_key(&mut self, event: KeyEvent, now: u64, clock: u64) -> (r: Vec<Effect>)
        requires
            is_sound(old(self)@),
        ensures
            (final(self)@, views(r@)) == pressed(old(self)@, event@, now, clock),
            is_sound(final(self)@),
    {
        let out = self.handle_key(&event, clock);
        self.arm_repeat(event, now);
        out
    }

    /// A key was let go.
    pub fn disarm_repeat(&mut self, keysym: u32)
        requires
            is_sound(old(self)@),
        ensures
            final(self)@ == released(old(self)@, keysym),
            is_sound(final(self)@),
    {
        let held = match &self.repeat {
            Some(r) => r.event.keysym == keysym,
            None => false,
        };
        if held {
            self.repeat = None;
        }
    }

    /// Lets a key that is held down repeat when its time has come.
    pub fn tick_repeat(&mut self, now: u64, clock: u64) -> (r: Vec<Effect>)
        requires
            is_sound(old(self)@),
        ensures
            (final(self)@, views(r@)) == ticked(old(self)@, now, clock),
            is_sound(final(self)@),
    {
        let out: Vec<Effect> = Vec::new();
        assert(views(out@) =~= Seq::empty());
        let event = match &self.repeat {
            Some(r) => {
                if now < r.next_fire {
                    return out;
                }
                r.event.clone()
            },
            None => return out,
        };
        self.repeat = Some(
            RepeatState {
                event: event.clone(),
                next_fire: now.saturating_add(self.repeat_rate),
            },
        );
        self.handle_key(&event, clock)
    }

    /// Other modifier keys are held down.
    pub fn update_modifiers(&mut self, modifiers: Modifiers)
        requires
            is_sound(old(self)@),
        ensures
            final(self)@ == (AppModel { modifiers, ..old(self)@ }),
            is_sound(final(self)@),
    {
        self.modifiers = modifiers;
    }

    /// Does what a command says at the time `now`, in nanoseconds. `outputs` holds the size
    /// of each screen, where it is known.
    pub fn dispatch(&mut self, cmd: Command, now: u64, outputs: &Vec<Option<(i32, i32)>>) -> (r: Vec<
        Effect,
    >)
        requires
            is_sound(old(self)@),
        ensures
            (final(self)@, views(r@)) == commanded(old(self)@, cmd, now, outputs@),
            is_sound(final(self)@),
    {
        match cmd {
            Command::Toggle => {
                let shown = match &self.session {
                    Some(s) => s.configured,
                    None => false,
                };
                if shown {
                    let mut out = self.cycle_mode(true);
                    let drawing = self.draw();
                    extend(&mut out, drawing);
                    out
                } else {
                    self.show(now, outputs)
                }
            },
            Command::Show => self.show(now, outputs),
            Command::Hide => self.conceal(),
            Command::Quit => {
                self.exit = true;
                let out: Vec<Effect> = Vec::new();
                assert(views(out@) =~= Seq::empty());
                out
            },
        }
    }
}

// ---------------------------------------------------------------------------
// New lists
// ---------------------------------------------------------------------------

/// The launcher with other files.
pub open spec fn with_files(m: AppModel, files: Seq<DatedPath>, home: Option<Seq<u8>>) -> (
    AppModel,
    Seq<EffectModel>,
) {
    let files_list = file_items(files, home);
    let m = AppModel { files_list, files_labels: item_labels(files_list), ..m };
    if m.mode == Mode::Files {
        updated(m, Seq::empty())
    } else {
        (m, Seq::empty())
    }
}

/// The launcher with other projects.
pub open spec fn with_projects(m: AppModel, projects: Seq<DatedPath>) -> (
    AppModel,
    Seq<EffectModel>,
) {
    let m = AppModel { git_list: project_items(projects), ..m };
    if m.mode == Mode::Git {
        updated(m, Seq::empty())
    } else {
        (m, Seq::empty())
    }
}

/// The launcher with other applications.
pub open spec fn with_entries(m: AppModel, entries: Seq<EntryModel>) -> (
    AppModel,
    Seq<EffectModel>,
) {
    refreshed(
        AppModel { entries, launcher_list: sorted_by_usage(app_items(entries), m.usage), ..m },
    )
}

/// Whether two links lead to one place.
pub open spec fn same_target(a: Option<Seq<u8>>, b: Option<Seq<u8>>) -> bool {
    match (a, b) {
        (Some(a), Some(b)) => same_path(a, b),
        (None, None) => true,
        _ => false,
    }
}

impl App {
    /// The launcher at its start: with applications, what is remembered, a first list of
    /// files, and where the link to the running system leads.
    pub fn new(
        entries: Vec<Entry>,
        persisted: State,
        files_list: Vec<ListEntry>,
        current_system: Option<FilePath>,
    ) -> (r: Self)
        ensures
            is_sound(r@),
            r@ == refreshed(
                AppModel {
                    modifiers: Modifiers { ctrl: false, logo: false, shift: false },
                    repeat: None,
                    repeat_delay: DEFAULT_REPEAT_DELAY,
                    repeat_rate: DEFAULT_REPEAT_RATE,
                    exit: false,
                    session: None,
                    entries: views(entries@),
                    last_current_system: opt_path_view(current_system),
                    query: Seq::empty(),
                    matches: Seq::empty(),
                    selected: 0,
                    scroll_offset: 0,
                    ignore_case: true,
                    mode: Mode::Launcher,
                    launcher_list: sorted_by_usage(app_items(views(entries@)), persisted@),
                    files_list: views(files_list@),
                    files_labels: item_labels(views(files_list@)),
                    git_list: Seq::empty(),
                    usage: persisted@,
                    search_gen: 0,
                },
            ).0,
    {
        let launcher_list = build_launcher_list(&entries, &persisted);
        let files_labels = labels_for(&files_list);
        let mut app = App {
            modifiers: Modifiers { ctrl: false, logo: false, shift: false },
            repeat: None,
            repeat_delay: DEFAULT_REPEAT_DELAY,
            repeat_rate: DEFAULT_REPEAT_RATE,
            exit: false,
            session: None,
            entries,
            last_current_system: current_system,
            query: String::new(),
            matches: Vec::new(),
            selected: 0,
            scroll_offset: 0,
            matcher: Index::new(),
            mode: Mode::Launcher,
            launcher_list,
            files_list,
            files_labels,
            git_list: Vec::new(),
            persisted,
            search_gen: 0,
        };
        assert(app@.query =~= Seq::empty());
        assert(app@.git_list =~= Seq::empty());
        assert(app@.matches =~= Seq::empty());
        let _ = app.refresh_matches();
        app
    }

    /// Takes the files of a walk, given `HOME`.
    pub fn update_files_from_index(&mut self, recents: Vec<Recent>, home: &Option<FilePath>) -> (r:
        Vec<Effect>)
        requires
            is_sound(old(self)@),
        ensures
            (final(self)@, views(r@)) == with_files(
                old(self)@,
                views(recents@),
                opt_path_view(*home),
            ),
            is_sound(final(self)@),
    {
        let out: Vec<Effect> = Vec::new();
        assert(views(out@) =~= Seq::empty());
        self.files_list = files_list_from_recents(recents, home);
        self.files_labels = labels_for(&self.files_list);
        if self.mode == Mode::Files {
            self.update(out)
        } else {
            out
        }
    }

    /// Takes the projects of a walk.
    pub fn update_git_from_scan(&mut self, projects: Vec<GitProject>) -> (r: Vec<Effect>)
        requires
            is_sound(old(self)@),
        ensures
            (final(self)@, views(r@)) == with_projects(old(self)@, views(projects@)),
            is_sound(final(self)@),
    {
        let out: Vec<Effect> = Vec::new();
        assert(views(out@) =~= Seq::empty());
        self.git_list = git_list_from_projects(projects);
        if self.mode == Mode::Git {
            self.update(out)
        } else {
            out
        }
    }

    /// Takes the applications of a new index.
    pub fn reindex_apps(&mut self, entries: Vec<Entry>) -> (r: Vec<Effect>)
        requires
            is_sound(old(self)@),
        ensures
            (final(self)@, views(r@)) == with_entries(old(self)@, views(entries@)),
            is_sound(final(self)@),
    {
        self.entries = entries;
        self.launcher_list = build_launcher_list(&self.entries, &self.persisted);
        self.refresh_matches()
    }

    /// Notes where the link to the running system leads, and tells whether it has changed: a
    /// new index of the applications is due then.
    pub fn poll_current_system(&mut self, current: Option<FilePath>) -> (r: bool)
        requires
            is_sound(old(self)@),
        ensures
            r == !same_target(old(self)@.last_current_system, opt_path_view(current)),
            final(self)@ == (if r {
                AppModel { last_current_system: opt_path_view(current), ..old(self)@ }
            } else {
                old(self)@
            }),
            is_sound(final(self)@),
    {
        let same = match (&self.last_current_system, &current) {
            (Some(a), Some(b)) => a.same(b),
            (None, None) => true,
            _ => false,
        };
        if !same {
            self.last_current_system = current;
        }
        !same
    }
}

/// Runs a search beside the launcher; nothing comes of one that the matcher cannot take.
pub fn run_search(matcher: &mut Index, request: &SearchRequest) -> (r: Option<SearchResult>)
    ensures
        final(matcher).ignores_case() == old(matcher).ignores_case(),
        r is Some <==> searchable(request@.labels, request@.query),
        r matches Some(result) ==> result.gen == request.gen && result.hits@ == search_result(
            old(matcher).ignores_case(),
            request@.labels,
            request@.query,
        ) && misses_foreign(result.hits@, request@.labels, request@.query),
        old(matcher).ignores_case() ==> (r matches Some(result) ==> finds_ascii(
            result.hits@,
            request@.labels,
            request@.query,
        ) && literal_wins(result.hits@, request@.labels, request@.query)),
{
    assert(labels(request.labels@) =~= request@.labels);
    match matcher.try_search(&request.labels, request.query.as_str()) {
        Some(hits) => Some(SearchResult { gen: request.gen, hits }),
        None => None,
    }
}

// ---------------------------------------------------------------------------
// The picture
// ---------------------------------------------------------------------------

/// The icon that stands in where the default icon of a mode cannot be had.
pub const PROCEDURAL_DEFAULT: &'static str = "__nixly_procedural_default__";

/// The icon for an entry without one.
pub open spec fn default_icon(m: Mode) -> Seq<char> {
    match m {
        Mode::Launcher => DEFAULT_APP@,
        Mode::Files => DEFAULT_FILE@,
        Mode::Git => DEFAULT_DIR@,
    }
}

/// The icon for an entry without one.
pub fn default_icon_key(mode: Mode) -> (r: &'static str)
    ensures
        r@ == default_icon(mode),
{
    match mode {
        Mode::Launcher => DEFAULT_APP,
        Mode::Files => DEFAULT_FILE,
        Mode::Git => DEFAULT_DIR,
    }
}

/// The place of an icon in the atlas, if it is there.
pub open spec fn icon_at(r: RendererModel, key: Seq<char>) -> Option<IconHandle> {
    if r.icons.dom().contains(key) {
        Some(r.icons[key])
    } else {
        None
    }
}

/// The icon to draw for an entry: its own, else the default one, else the one that stands
/// in.
pub open spec fn picked(r: RendererModel, name: Option<Seq<char>>, default_name: Seq<char>) -> Option<
    IconHandle,
> {
    if name matches Some(n) && icon_at(r, n) is Some {
        icon_at(r, name->0)
    } else if icon_at(r, default_name) is Some {
        icon_at(r, default_name)
    } else {
        icon_at(r, PROCEDURAL_DEFAULT@)
    }
}

/// The icon to draw for an entry.
pub fn pick_icon(renderer: &Renderer, name: &Option<String>, default_name: &str) -> (r: Option<
    IconHandle,
>)
    ensures
        r == picked(renderer@, opt_view(*name), default_name@),
{
    if let Some(n) = name {
        if let Some(handle) = renderer.get_icon(n.as_str()) {
            return Some(handle);
        }
    }
    match renderer.get_icon(default_name) {
        Some(handle) => Some(handle),
        None => renderer.get_icon(PROCEDURAL_DEFAULT),
    }
}

/// Whether an icon is to be looked for: it has a name, and is not in the atlas.
pub fn wants_icon(renderer: &Renderer, name: &Option<String>) -> (r: bool)
    ensures
        r == (opt_view(*name) matches Some(n) && n.len() > 0 && icon_at(renderer@, n) is None),
{
    match name {
        Some(n) => !n.as_str().is_empty() && renderer.get_icon(n.as_str()).is_none(),
        None => false,
    }
}

/// A row of the window: which of the visible rows it is, and what it shows.
#[derive(Debug)]
pub struct Row {
    pub slot: usize,
    pub selected: bool,
    pub label: String,
    pub icon_hint: Option<String>,
}

/// The model of a [`Row`].
#[verifier::ext_equal]
pub struct RowModel {
    pub slot: int,
    pub selected: bool,
    pub label: Seq<char>,
    pub icon_hint: Option<Seq<char>>,
}

impl View for Row {
    type V = RowModel;

    open spec fn view(&self) -> RowModel {
        RowModel {
            slot: self.slot as int,
            selected: self.selected,
            label: self.label@,
            icon_hint: opt_view(self.icon_hint),
        }
    }
}

/// Which part of the results is visible, where not all of them are.
#[derive(Clone, Copy, Debug, PartialEq, Eq, Structural)]
pub struct Scrollbar {
    pub visible: usize,
    pub total: usize,
    pub offset: usize,
}

/// What the window shows.
#[derive(Debug)]
pub struct Frame {
    pub mode: Mode,
    /// The query, or what stands in its place.
    pub prompt: String,
    /// Whether the prompt stands in the place of a query.
    pub placeholder: bool,
    pub rows: Vec<Row>,
    pub scrollbar: Option<Scrollbar>,
    /// Whether there are no results.
    pub empty: bool,
}

/// The text in the place of an empty query.
pub open spec fn placeholder_text(m: Mode, count: nat) -> Seq<char> {
    "Search "@ + decimal(count) + (match m {
        Mode::Launcher => " apps…"@,
        Mode::Files => " files…"@,
        Mode::Git => " git projects…"@,
    })
}

/// The end of the visible results.
pub open spec fn visible_end(m: AppModel, height: u32) -> int {
    if m.scroll_offset + rows_for(height as int) < m.matches.len() {
        m.scroll_offset + rows_for(height as int)
    } else {
        m.matches.len() as int
    }
}

/// The row for one result, if its entry is in the list.
pub open spec fn row_at(m: AppModel, i: int) -> Option<RowModel> {
    let list = active_list(m);
    if m.matches[i].idx < list.len() {
        Some(
            RowModel {
                slot: i - m.scroll_offset,
                selected: i == m.selected,
                label: list[m.matches[i].idx as int].label,
                icon_hint: list[m.matches[i].idx as int].icon_hint,
            },
        )
    } else {
        None
    }
}

/// The rows for the results from the first visible one up to `end`.
pub open spec fn rows_upto(m: AppModel, end: int) -> Seq<RowModel>
    decreases end - m.scroll_offset,
{
    if end <= m.scroll_offset {
        Seq::empty()
    } else {
        let before = rows_upto(m, end - 1);
        match row_at(m, end - 1) {
            Some(row) => before.push(row),
            None => before,
        }
    }
}

/// Whether a picture shows a launcher in a window of the given height.
pub open spec fn depicts(f: Frame, m: AppModel, height: u32) -> bool {
    &&& f.mode == m.mode
    &&& f.placeholder == (m.query.len() == 0)
    &&& f.prompt@ == (if m.query.len() == 0 {
        placeholder_text(m.mode, active_list(m).len())
    } else {
        m.query
    })
    &&& views(f.rows@) == rows_upto(m, visible_end(m, height))
    &&& f.empty == (m.matches.len() == 0)
    &&& f.scrollbar is Some <==> m.matches.len() > rows_for(height as int)
    &&& f.scrollbar matches Some(bar) ==> bar.visible == rows_for(height as int) && bar.total
        == m.matches.len() && bar.offset == m.scroll_offset
}

/// The text in the place of an empty query.
pub fn placeholder(mode: Mode, count: usize) -> (r: String)
    ensures
        r@ == placeholder_text(mode, count as nat),
{
    let mut out: Vec<char> = Vec::new();
    append_str(&mut out, "Search ");
    let digits = to_decimal(count as u64);
    append(&mut out, digits.as_slice());
    match mode {
        Mode::Launcher => append_str(&mut out, " apps…"),
        Mode::Files => append_str(&mut out, " files…"),
        Mode::Git => append_str(&mut out, " git projects…"),
    }
    assert(out@ =~= placeholder_text(mode, count as nat));
    string_of(out.as_slice())
}

impl App {
    /// What a window of the given height shows.
    pub fn frame(&self, height: u32) -> (r: Frame)
        requires
            is_sound(self@),
        ensures
            depicts(r, self@, height),
    {
        let list = match self.mode {
            Mode::Launcher => &self.launcher_list,
            Mode::Files => &self.files_list,
            Mode::Git => &self.git_list,
        };
        assert(views(list@) == active_list(self@));
        assert(views(list@).len() == list@.len());
        let placeholder = self.query.as_str().is_empty();
        let prompt = if placeholder {
            crate::wayland::placeholder(self.mode, list.len())
        } else {
            copy_str(self.query.as_str())
        };
        let visible: usize = visible_rows_for(height);
        let total: usize = self.matches.len();
        let end: usize = if visible < total - self.scroll_offset {
            self.scroll_offset + visible
        } else {
            total
        };
        let mut rows: Vec<Row> = Vec::new();
        let mut i: usize = self.scroll_offset;
        assert(views(rows@) =~= Seq::empty());
        while i < end
            invariant
                self.scroll_offset <= i,
                self.scroll_offset <= end ==> i <= end,
                end <= total,
                total == self.matches@.len(),
                views(list@) == active_list(self@),
                views(rows@) == rows_upto(self@, i as int),
            decreases end - i,
        {
            let hit = self.matches[i];
            if hit.idx < list.len() {
                let ghost before = views(rows@);
                let entry = &list[hit.idx];
                assert(active_list(self@)[hit.idx as int] == entry@);
                let row = Row {
                    slot: i - self.scroll_offset,
                    selected: i == self.selected,
                    label: copy_str(entry.label.as_str()),
                    icon_hint: copy_opt(&entry.icon_hint),
                };
                rows.push(row);
                assert(views(rows@) =~= before.push(row@));
            }
            i += 1;
        }
        let scrollbar = if total > visible {
            Some(Scrollbar { visible, total, offset: self.scroll_offset })
        } else {
            None
        };
        Frame { mode: self.mode, prompt, placeholder, rows, scrollbar, empty: total == 0 }
    }
}

// ---------------------------------------------------------------------------
// Laws
// ---------------------------------------------------------------------------

/// Whether the selected entry is within the window.
pub open spec fn is_selection_visible(m: AppModel) -> bool {
    m.matches.len() > 0 ==> m.scroll_offset <= m.selected < m.scroll_offset + window_rows(m)
}

/// After new results, and after moving up or down, the selected entry is within the window.
pub proof fn law_selection_stays_visible(m: AppModel, hits: Seq<Hit>)
    requires
        is_sound(m),
    ensures
        is_selection_visible(with_matches(m, hits)),
        m.selected > 0 ==> is_selection_visible(moved_up(m)),
        m.selected + 1 < m.matches.len() ==> is_selection_visible(moved_down(m)),
        is_selection_visible(m) ==> is_selection_visible(moved_up(m)) && is_selection_visible(
            moved_down(m),
        ),
{
}

/// Moving down and up again comes back to the same entry, and so does moving up and down.
pub proof fn law_moves_undo_each_other(m: AppModel)
    requires
        is_sound(m),
    ensures
        m.selected + 1 < m.matches.len() ==> moved_up(moved_down(m)).selected == m.selected,
        m.selected > 0 ==> moved_down(moved_up(m)).selected == m.selected,
        moved_up(m).matches == m.matches,
        moved_down(m).matches == m.matches,
{
}

/// Every new search makes the results of those before it count for nothing.
pub proof fn law_stale_results_are_dropped(m: AppModel, hits: Seq<Hit>)
    ensures
        refreshed(m).0.search_gen != m.search_gen,
        with_result(refreshed(m).0, m.search_gen, hits) == (
            refreshed(m).0,
            Seq::<EffectModel>::empty(),
        ),
{
}

/// The result of the last search counts while files are still searched for: it becomes what
/// is shown.
pub proof fn law_last_result_counts(m: AppModel, hits: Seq<Hit>)
    requires
        m.mode == Mode::Files,
        m.query.len() > 0,
    ensures
        refreshed(m).1 == seq![
            EffectModel::Search(
                RequestModel {
                    gen: refreshed(m).0.search_gen,
                    query: m.query,
                    labels: m.files_labels,
                },
            ),
        ],
        with_result(refreshed(m).0, refreshed(m).0.search_gen, hits).0.matches == hits,
{
}

/// Without a query, no more than the first files are shown; and until a search beside the
/// launcher is done, the results stay.
pub proof fn law_files_results(m: AppModel)
    requires
        m.mode == Mode::Files,
    ensures
        m.query.len() == 0 ==> refreshed(m).0.matches.len() <= FILES_DEFAULT_LIMIT,
        m.query.len() > 0 ==> refreshed(m).0.matches == m.matches,
{
}

/// A hidden launcher starts at a clean prompt: no query, the first tab with every
/// application, the first entry selected, no window, and no key that repeats.
pub proof fn law_hiding_resets(m: AppModel)
    requires
        m.launcher_list.len() <= usize::MAX,
    ensures
        hidden(m).0.query.len() == 0,
        hidden(m).0.mode == Mode::Launcher,
        hidden(m).0.matches.len() == m.launcher_list.len(),
        forall|i: int|
            0 <= i < m.launcher_list.len() ==> (#[trigger] hidden(m).0.matches[i]).idx == i,
        hidden(m).0.selected == 0,
        hidden(m).0.scroll_offset == 0,
        hidden(m).0.session is None,
        hidden(m).0.repeat is None,
{
    let start = AppModel {
        repeat: None,
        query: Seq::<char>::empty(),
        selected: 0,
        scroll_offset: 0,
        mode: Mode::Launcher,
        search_gen: m.search_gen.wrapping_add(1),
        ..m
    };
    assert(item_labels(active_list(start)).len() == m.launcher_list.len());
}

/// Hiding a hidden launcher changes nothing but the number of the last search.
pub proof fn law_hiding_twice(m: AppModel)
    requires
        m.launcher_list.len() <= usize::MAX,
    ensures
        ({
            let once = hidden(m).0;
            let twice = hidden(once).0;
            &&& twice == AppModel { search_gen: once.search_gen.wrapping_add(1), ..once }
            &&& hidden(once).1 == Seq::<EffectModel>::empty()
        }),
{
    law_hiding_resets(m);
    let once = hidden(m).0;
    let twice = hidden(once).0;
    assert(once.query =~= Seq::empty());
    assert(twice.matches =~= once.matches);
    assert(hidden(once).1 =~= Seq::empty());
}

/// Showing always leads to a window: the one that can be seen, one that is still waited
/// for, or a new one. One that was never configured in time is replaced.
pub proof fn law_showing_leads_to_a_window(
    m: AppModel,
    now: u64,
    outputs: Seq<Option<(i32, i32)>>,
)
    ensures
        showed(m, now, outputs).0.session is Some,
        is_shown(m) ==> showed(m, now, outputs).0 == m,
        m.session matches Some(s) && !s.configured && now.saturating_sub(s.created)
            >= SESSION_CONFIGURE_GRACE ==> showed(m, now, outputs).0.session->0.created == now,
        m.session is None ==> showed(m, now, outputs).0.session->0.created == now,
{
}

/// A launcher that is shown after it was hidden is at the same clean prompt.
pub proof fn law_show_after_hide(m: AppModel, now: u64, outputs: Seq<Option<(i32, i32)>>)
    ensures
        ({
            let gone = hidden(m).0;
            let back = showed(gone, now, outputs).0;
            back == AppModel { session: back.session, ..gone }
        }),
{
}

/// Toggling a launcher that can be seen never hides it: it goes to the next tab, and comes
/// back to the same tab after three times.
pub proof fn law_toggling_goes_round(m: AppModel, now: u64, outputs: Seq<Option<(i32, i32)>>)
    requires
        is_shown(m),
    ensures
        ({
            let one = commanded(m, Command::Toggle, now, outputs).0;
            let two = commanded(one, Command::Toggle, now, outputs).0;
            let three = commanded(two, Command::Toggle, now, outputs).0;
            &&& one.session == m.session && is_shown(one)
            &&& one.mode == next_mode(m.mode)
            &&& three.mode == m.mode
            &&& is_shown(three)
        }),
{
}

/// Toggling a launcher that cannot be seen does what showing it does.
pub proof fn law_toggling_shows(m: AppModel, now: u64, outputs: Seq<Option<(i32, i32)>>)
    requires
        !is_shown(m),
    ensures
        commanded(m, Command::Toggle, now, outputs) == commanded(m, Command::Show, now, outputs),
{
}

/// No key and no command but `Quit` ends the launcher.
pub proof fn law_only_quit_ends(
    m: AppModel,
    event: KeyModel,
    cmd: Command,
    now: u64,
    clock: u64,
    outputs: Seq<Option<(i32, i32)>>,
)
    requires
        !m.exit,
    ensures
        !pressed(m, event, now, clock).0.exit,
        commanded(m, cmd, now, outputs).0.exit == (cmd == Command::Quit),
{
}

/// Nothing is drawn but a window that can be seen.
pub proof fn law_only_visible_windows_are_drawn(
    m: AppModel,
    event: KeyModel,
    cmd: Command,
    now: u64,
    clock: u64,
    outputs: Seq<Option<(i32, i32)>>,
)
    requires
        !is_shown(m),
    ensures
        !keyed(m, event, clock).1.contains(EffectModel::Draw),
        !commanded(m, cmd, now, outputs).1.contains(EffectModel::Draw),
{
}

/// Without a modifier, the keys that repeat are exactly those that do not open, hide or switch
/// the tab.
pub proof fn law_actions_do_not_repeat(keysym: u32, m: Modifiers)
    requires
        !m.ctrl,
        !m.logo,
    ensures
        repeats(keysym) <==> !(key_meaning(keysym, m) is Hide || key_meaning(keysym, m) is Run
            || key_meaning(keysym, m) is NextTab || key_meaning(keysym, m) is PrevTab),
{
}

/// A key repeats first after the delay, then at the rate, and not after it was let go.
pub proof fn law_keys_repeat_in_time(m: AppModel, event: KeyModel, then: u64, now: u64, clock: u64)
    requires
        repeats(event.keysym),
    ensures
        now < then.saturating_add(m.repeat_delay) ==> ticked(armed(m, event, then), now, clock) == (
            armed(m, event, then),
            Seq::<EffectModel>::empty(),
        ),
        released(armed(m, event, then), event.keysym).repeat is None,
        ticked(released(armed(m, event, then), event.keysym), now, clock).1 == Seq::<
            EffectModel,
        >::empty(),
{
}

/// Starting an application remembers one more use of it at this time and changes no other
/// use; and where no other was used as late, it is the first of the list afterwards.
pub proof fn law_started_application_comes_first(m: AppModel, clock: u64, item: Item, key: Seq<char>)
    requires
        m.launcher_list.len() <= usize::MAX,
        selected_item(m, m.launcher_list) == Some(item),
        item.usage_key == Some(key),
        forall|k: Seq<char>|
            k != key ==> (#[trigger] usage_of(m.usage, Some(k))).last_used < clock,
        clock > 0,
    ensures
        launched(m, clock).0.usage == m.usage.insert(
            key,
            used_again(usage_of(m.usage, Some(key)), clock),
        ),
        launched(m, clock).0.launcher_list.len() > 0,
        launched(m, clock).0.launcher_list[0].usage_key == Some(key),
{
    let usage = m.usage.insert(key, used_again(usage_of(m.usage, Some(key)), clock));
    let list = m.launcher_list;
    let lowered = lowered_item_labels(list);
    let sorted = sorted_by_usage(list, usage);
    law_sorting_keeps_the_entries(list, usage, lowered);
    assert(list.contains(item));
    assert(by_usage(list, usage, lowered).contains(item));
    let i = choose|i: int| 0 <= i < sorted.len() && sorted[i] == item;
    let first = sorted[0];
    if first.usage_key != Some(key) {
        assert(i > 0);
        law_used_last_comes_first(list, usage, lowered, 0, i);
        assert(usage_of(usage, item.usage_key).last_used == clock);
        match first.usage_key {
            Some(k) => {
                assert(usage_of(usage, Some(k)) == usage_of(m.usage, Some(k)));
                assert(usage_of(m.usage, Some(k)).last_used < clock);
            },
            None => {},
        }
    }
}

/// The first size of a window is at most that for each screen of known size, and thus never
/// larger than such a screen. Its width is that for one of them, and so is its height.
pub proof fn law_first_size_is_the_least(outputs: Seq<Option<(i32, i32)>>)
    ensures
        ({
            let (width, height, locked) = provisional_size(outputs);
            &&& locked <==> exists|i: int| 0 <= i < outputs.len() && (#[trigger] outputs[i]) is Some
            &&& locked ==> exists|i: int| has_window_width(outputs, i, width)
            &&& locked ==> exists|i: int| has_window_height(outputs, i, height)
            &&& forall|i: int|
                0 <= i < outputs.len() && (#[trigger] outputs[i]) is Some ==> fits_on(
                    width,
                    height,
                    outputs[i]->0,
                )
        }),
    decreases outputs.len(),
{
    if outputs.len() > 0 {
        let init = outputs.drop_last();
        let last = outputs.len() - 1;
        law_first_size_is_the_least(init);
        let (w0, h0, l0) = provisional_size(init);
        let (width, height, locked) = provisional_size(outputs);
        assert forall|i: int| 0 <= i < outputs.len() && (#[trigger] outputs[i]) is Some implies fits_on(
            width,
            height,
            outputs[i]->0,
        ) by {
            if i < last {
                assert(init[i] == outputs[i]);
                assert(init[i] is Some);
            }
        }
        if l0 {
            let k = choose|i: int| 0 <= i < init.len() && (#[trigger] init[i]) is Some;
            assert(outputs[k] == init[k]);
            let i = choose|i: int| has_window_width(init, i, w0);
            assert(outputs[i] == init[i]);
            assert(has_window_width(outputs, i, w0));
            let j = choose|j: int| has_window_height(init, j, h0);
            assert(outputs[j] == init[j]);
            assert(has_window_height(outputs, j, h0));
        } else if outputs.last() is None {
            assert forall|i: int| 0 <= i < outputs.len() implies (#[trigger] outputs[i]) is None by {
                if i < last {
                    assert(init[i] == outputs[i]);
                }
            }
        }
        if outputs.last() is Some {
            assert(outputs[last] is Some);
            let size = outputs[last]->0;
            assert(has_window_width(outputs, last, side_for(size.0 as int, MIN_WIDTH as int)));
            assert(has_window_height(outputs, last, side_for(size.1 as int, MIN_HEIGHT as int)));
        }
    }
}

/// Whether a size is at most that of the window for a screen, and no larger than the screen.
pub open spec fn fits_on(width: int, height: int, size: (i32, i32)) -> bool {
    &&& width <= side_for(size.0 as int, MIN_WIDTH as int)
    &&& height <= side_for(size.1 as int, MIN_HEIGHT as int)
    &&& size.0 > 0 ==> width <= size.0
    &&& size.1 > 0 ==> height <= size.1
}

/// Whether a width is that of the window for a screen.
pub open spec fn has_window_width(outputs: Seq<Option<(i32, i32)>>, i: int, width: int) -> bool {
    &&& 0 <= i < outputs.len()
    &&& outputs[i] matches Some(size) && width == side_for(size.0 as int, MIN_WIDTH as int)
}

/// Whether a height is that of the window for a screen.
pub open spec fn has_window_height(outputs: Seq<Option<(i32, i32)>>, i: int, height: int) -> bool {
    &&& 0 <= i < outputs.len()
    &&& outputs[i] matches Some(size) && height == side_for(size.1 as int, MIN_HEIGHT as int)
}

// ---------------------------------------------------------------------------
// Laws of the keys
// ---------------------------------------------------------------------------

/// Whether a key has a meaning of its own whatever is held down: Escape, Return and Enter, Tab
/// in both directions, the arrows, and Backspace.
pub open spec fn is_named_key(keysym: u32) -> bool {
    ||| keysym == 0xff1b
    ||| keysym == 0xff0d
    ||| keysym == 0xff8d
    ||| keysym == 0xff09
    ||| keysym == 0xfe20
    ||| 0xff51 <= keysym <= 0xff54
    ||| keysym == 0xff08
}

/// The characters of a text that are not control characters stay, in their order, and no
/// others.
pub proof fn law_printable(s: Seq<char>)
    ensures
        printable(s) == s.filter(|c: char| !((c as u32) < 0x20 || 0x7f <= (c as u32) < 0xa0)),
    decreases s.len(),
{
    reveal(Seq::filter);
    if s.len() > 0 {
        law_printable(s.drop_last());
    }
}

/// What a launcher does after something in it was changed by a key: it searches anew, and is
/// drawn where it can be seen.
pub open spec fn is_searched_and_drawn(
    changed: AppModel,
    after: AppModel,
    effects: Seq<EffectModel>,
) -> bool {
    &&& after == refreshed(changed).0
    &&& after.session is Some && after.session->0.configured ==> effects == refreshed(
        changed,
    ).1.push(EffectModel::Draw)
    &&& after.session is None || !after.session->0.configured ==> effects == refreshed(changed).1
}

proof fn lemma_updated(m: AppModel)
    ensures
        is_searched_and_drawn(
            m,
            updated(m, Seq::empty()).0,
            updated(m, Seq::empty()).1,
        ),
{
    let (after, searches) = refreshed(m);
    assert(Seq::<EffectModel>::empty() + searches =~= searches);
    assert(searches + seq![EffectModel::Draw] =~= searches.push(EffectModel::Draw));
    assert(searches + Seq::<EffectModel>::empty() =~= searches);
}

/// Typing. Without Ctrl, a key that has no meaning of its own, and is not P together with the
/// logo key, adds to the end of the query those characters of its text that are not control
/// characters, whether Shift is held down or not; the launcher then searches anew and is drawn.
/// A key with no such characters does nothing.
pub proof fn law_typing(m: AppModel, event: KeyModel, clock: u64)
    requires
        !m.modifiers.ctrl,
        !is_named_key(event.keysym),
        !(m.modifiers.logo && event.keysym == 'p' as u32),
    ensures
        event.utf8 matches Some(text) ==> {
            let typed = text.filter(|c: char| !((c as u32) < 0x20 || 0x7f <= (c as u32) < 0xa0));
            let (after, effects) = keyed(m, event, clock);
            &&& after.query == m.query + typed
            &&& typed.len() > 0 ==> is_searched_and_drawn(
                AppModel { query: m.query + typed, ..m },
                after,
                effects,
            )
            &&& typed.len() == 0 ==> after == m && effects.len() == 0
        },
        event.utf8 is None ==> keyed(m, event, clock) == (m, Seq::<EffectModel>::empty()),
{
    if let Some(text) = event.utf8 {
        law_printable(text);
        lemma_updated(AppModel { query: m.query + printable(text), ..m });
        assert(m.query + Seq::<char>::empty() =~= m.query);
        if printable(text).len() == 0 {
            assert(printable(text) =~= Seq::empty());
        }
    }
}

/// With Ctrl, only P, N, U and W and the keys that have a meaning of their own do something.
pub proof fn law_ctrl_types_nothing(m: AppModel, event: KeyModel, clock: u64)
    requires
        m.modifiers.ctrl,
        !is_named_key(event.keysym),
        event.keysym != 'p' as u32,
        event.keysym != 'n' as u32,
        event.keysym != 'u' as u32,
        event.keysym != 'w' as u32,
    ensures
        keyed(m, event, clock) == (m, Seq::<EffectModel>::empty()),
{
}

/// Erasing. Backspace takes the last character of the query away, Ctrl and U the whole query,
/// Ctrl and W its last word with the blanks behind it; the launcher then searches anew and is
/// drawn.
pub proof fn law_erasing(m: AppModel, event: KeyModel, clock: u64)
    ensures
        ({
            let (after, effects) = keyed(m, event, clock);
            let changed = AppModel { query: after.query, ..m };
            &&& event.keysym == 0xff08 || (m.modifiers.ctrl && (event.keysym == 'u' as u32
                || event.keysym == 'w' as u32)) ==> is_searched_and_drawn(changed, after, effects)
            &&& event.keysym == 0xff08 && m.query.len() > 0 ==> exists|c: char|
                m.query == #[trigger] after.query.push(c)
            &&& event.keysym == 0xff08 && m.query.len() == 0 ==> after.query.len() == 0
            &&& m.modifiers.ctrl && event.keysym == 'u' as u32 ==> after.query.len() == 0
            &&& m.modifiers.ctrl && event.keysym == 'w' as u32 ==> is_without_last_word(
                m.query,
                after.query,
            )
        }),
{
    if event.keysym == 0xff08 {
        let query = if m.query.len() > 0 {
            m.query.drop_last()
        } else {
            m.query
        };
        lemma_updated(AppModel { query, ..m });
        if m.query.len() > 0 {
            assert(m.query =~= query.push(m.query.last()));
        }
    } else if m.modifiers.ctrl && event.keysym == 'u' as u32 {
        lemma_updated(AppModel { query: Seq::empty(), ..m });
    } else if m.modifiers.ctrl && event.keysym == 'w' as u32 {
        lemma_updated(AppModel { query: without_word(m.query), ..m });
        law_last_word(m.query);
    }
}

/// Whether a text is another one without its last word: that word, which has no blanks, and
/// after it blanks only.
pub open spec fn is_without_last_word(s: Seq<char>, kept: Seq<char>) -> bool {
    exists|end: int| #[trigger] ends_word_at(s, kept.len() as int, end) && kept == s.take(
        kept.len() as int,
    )
}

/// Whether the last word of a text lies between two places.
pub open spec fn ends_word_at(s: Seq<char>, start: int, end: int) -> bool {
    &&& 0 <= start <= end <= s.len()
    &&& forall|i: int| start <= i < end ==> !is_space(#[trigger] s[i])
    &&& forall|i: int| end <= i < s.len() ==> is_space(#[trigger] s[i])
    &&& start > 0 ==> is_space(s[start - 1])
    &&& start == end ==> start == 0
}

/// Taking a word away takes the last word and the blanks behind it, and nothing else.
pub proof fn law_last_word(s: Seq<char>)
    ensures
        is_without_last_word(s, without_word(s)),
{
    let end = lemma_blanks_at_the_end(s);
    let t = s.take(end);
    let start = lemma_nonblanks_at_the_end(t);
    assert(t.take(start) =~= s.take(start));
    assert forall|i: int| start <= i < end implies !is_space(#[trigger] s[i]) by {
        assert(t[i] == s[i]);
    }
    if start > 0 {
        assert(t[start - 1] == s[start - 1]);
    }
    if end > 0 {
        assert(t[end - 1] == s[end - 1]);
    }
    assert(ends_word_at(s, start, end));
}

proof fn lemma_blanks_at_the_end(s: Seq<char>) -> (end: int)
    ensures
        0 <= end <= s.len(),
        without_blanks(s) == s.take(end),
        forall|i: int| end <= i < s.len() ==> is_space(#[trigger] s[i]),
        end > 0 ==> !is_space(s[end - 1]),
    decreases s.len(),
{
    if s.len() > 0 && is_space(s.last()) {
        let init = s.drop_last();
        let end = lemma_blanks_at_the_end(init);
        assert(init.take(end) =~= s.take(end));
        assert forall|i: int| end <= i < s.len() implies is_space(#[trigger] s[i]) by {
            if i < init.len() {
                assert(init[i] == s[i]);
            }
        }
        if end > 0 {
            assert(init[end - 1] == s[end - 1]);
        }
        end
    } else {
        assert(s.take(s.len() as int) =~= s);
        s.len() as int
    }
}

proof fn lemma_nonblanks_at_the_end(s: Seq<char>) -> (start: int)
    ensures
        0 <= start <= s.len(),
        without_nonblanks(s) == s.take(start),
        forall|i: int| start <= i < s.len() ==> !is_space(#[trigger] s[i]),
        start > 0 ==> is_space(s[start - 1]),
    decreases s.len(),
{
    if s.len() > 0 && !is_space(s.last()) {
        let init = s.drop_last();
        let start = lemma_nonblanks_at_the_end(init);
        assert(init.take(start) =~= s.take(start));
        assert forall|i: int| start <= i < s.len() implies !is_space(#[trigger] s[i]) by {
            if i < init.len() {
                assert(init[i] == s[i]);
            }
        }
        if start > 0 {
            assert(init[start - 1] == s[start - 1]);
        }
        start
    } else {
        assert(s.take(s.len() as int) =~= s);
        s.len() as int
    }
}

/// Whether a key goes to the next tab: Tab, the right arrow, P with Ctrl, and P with the logo
/// key but without Shift.
pub open spec fn goes_forward(keysym: u32, m: Modifiers) -> bool {
    ||| keysym == 0xff09
    ||| keysym == 0xff53
    ||| keysym == 'p' as u32 && m.logo && !m.shift
    ||| keysym == 'p' as u32 && !m.logo && m.ctrl
}

/// Whether a key goes to the tab before: Shift and Tab, the left arrow, N with Ctrl, and P with
/// the logo key and Shift.
pub open spec fn goes_back(keysym: u32, m: Modifiers) -> bool {
    ||| keysym == 0xfe20
    ||| keysym == 0xff51
    ||| keysym == 'p' as u32 && m.logo && m.shift
    ||| keysym == 'n' as u32 && m.ctrl
}

/// Switching. On the way forward the files follow the applications, the projects the files, and
/// the applications the projects; on the way back it is the other way round. The query is empty
/// on the new tab, and the first entry is selected; all entries are listed, but of the files no
/// more than the first twenty.
pub proof fn law_switching(m: AppModel, event: KeyModel, clock: u64)
    requires
        goes_forward(event.keysym, m.modifiers) || goes_back(event.keysym, m.modifiers),
    ensures
        ({
            let forward = goes_forward(event.keysym, m.modifiers);
            let (after, effects) = keyed(m, event, clock);
            let list = if after.mode == Mode::Launcher {
                m.launcher_list
            } else if after.mode == Mode::Files {
                m.files_list
            } else {
                m.git_list
            };
            &&& forward ==> {
                &&& m.mode == Mode::Launcher ==> after.mode == Mode::Files
                &&& m.mode == Mode::Files ==> after.mode == Mode::Git
                &&& m.mode == Mode::Git ==> after.mode == Mode::Launcher
            }
            &&& !forward ==> {
                &&& m.mode == Mode::Files ==> after.mode == Mode::Launcher
                &&& m.mode == Mode::Git ==> after.mode == Mode::Files
                &&& m.mode == Mode::Launcher ==> after.mode == Mode::Git
            }
            &&& after.query.len() == 0
            &&& after.selected == 0
            &&& after.scroll_offset == 0
            &&& after.mode != Mode::Files || list.len() <= 20 ==> after.matches.len() == list.len()
            &&& after.mode == Mode::Files && list.len() > 20 ==> after.matches.len() == 20
            &&& forall|i: int|
                0 <= i < after.matches.len() ==> (#[trigger] after.matches[i]) == (Hit {
                    idx: i as usize,
                    score: 0,
                })
            &&& is_shown(m) ==> effects == seq![EffectModel::Draw]
            &&& !is_shown(m) ==> effects.len() == 0
            &&& after == AppModel {
                mode: after.mode,
                query: after.query,
                selected: after.selected,
                scroll_offset: after.scroll_offset,
                matches: after.matches,
                search_gen: after.search_gen,
                ..m
            }
        }),
{
    let (after, effects) = keyed(m, event, clock);
    let forward = goes_forward(event.keysym, m.modifiers);
    let once = cycled(m, forward).0;
    assert(keyed(m, event, clock) == updated(once, cycled(m, forward).1));
    assert(cycled(m, forward).1 =~= Seq::empty());
    lemma_updated(once);
    assert(item_labels(active_list(once)).len() == active_list(once).len());
    assert(updated(once, Seq::empty()).1 =~= draws(after));
}

/// Moving. The arrows up and down select the entry above and below, where there is one, and
/// leave all else but how far the list is scrolled; the launcher then searches anew and is
/// drawn.
pub proof fn law_moving(m: AppModel, event: KeyModel, clock: u64)
    requires
        is_sound(m),
        event.keysym == 0xff52 || event.keysym == 0xff54,
    ensures
        ({
            let moved = if event.keysym == 0xff52 {
                moved_up(m)
            } else {
                moved_down(m)
            };
            let (after, effects) = keyed(m, event, clock);
            &&& is_searched_and_drawn(moved, after, effects)
            &&& moved == AppModel {
                selected: moved.selected,
                scroll_offset: moved.scroll_offset,
                ..m
            }
            &&& event.keysym == 0xff52 && m.selected > 0 ==> moved.selected == m.selected - 1
            &&& event.keysym == 0xff54 && m.selected + 1 < m.matches.len() ==> moved.selected
                == m.selected + 1
            &&& (event.keysym == 0xff52 && m.selected == 0) || (event.keysym == 0xff54
                && m.selected + 1 >= m.matches.len()) ==> moved == m
            &&& after.query == m.query && after.mode == m.mode
        }),
{
    lemma_updated(moved_up(m));
    lemma_updated(moved_down(m));
}

/// Escape hides the launcher, as the command `Hide` does.
pub proof fn law_escape_hides(
    m: AppModel,
    event: KeyModel,
    now: u64,
    clock: u64,
    outputs: Seq<Option<(i32, i32)>>,
)
    requires
        event.keysym == 0xff1b,
    ensures
        keyed(m, event, clock) == commanded(m, Command::Hide, now, outputs),
        keyed(m, event, clock).0.session is None,
        keyed(m, event, clock).0.query.len() == 0,
        m.session is Some ==> keyed(m, event, clock).1 == seq![EffectModel::DestroySession],
        m.session is None ==> keyed(m, event, clock).1.len() == 0,
        keyed(m, event, clock).0.usage == m.usage,
        keyed(m, event, clock).0.launcher_list == m.launcher_list,
        keyed(m, event, clock).0.files_list == m.files_list,
        keyed(m, event, clock).0.git_list == m.git_list,
        keyed(m, event, clock).0.modifiers == m.modifiers,
{
    let none = Seq::<EffectModel>::empty();
    assert(none + seq![EffectModel::DestroySession] =~= seq![EffectModel::DestroySession]);
    assert(none + none =~= none);
}

/// Return and Enter run the selected entry, then hide the launcher; what was to be done for the
/// entry is done before the window ends.
pub proof fn law_return_runs_and_hides(m: AppModel, event: KeyModel, clock: u64)
    requires
        event.keysym == 0xff0d || event.keysym == 0xff8d,
    ensures
        ({
            let (after, effects) = keyed(m, event, clock);
            let ran = executed(m, clock).1;
            &&& after.session is None
            &&& after.query.len() == 0
            &&& after.mode == Mode::Launcher
            &&& after.usage == executed(m, clock).0.usage
            &&& after.launcher_list == executed(m, clock).0.launcher_list
            &&& m.session is Some ==> effects == ran.push(EffectModel::DestroySession)
            &&& m.session is None ==> effects == ran
        }),
{
    let ran = executed(m, clock).1;
    let none = Seq::<EffectModel>::empty();
    assert(none + seq![EffectModel::DestroySession] =~= seq![EffectModel::DestroySession]);
    assert(none + none =~= none);
    assert(ran + seq![EffectModel::DestroySession] =~= ran.push(EffectModel::DestroySession));
    assert(ran + none =~= ran);
}

// ---------------------------------------------------------------------------
// Laws of the searches
// ---------------------------------------------------------------------------

/// A new search has the next number. For files with a query it is handed out and changes
/// nothing else; any other is done at once, and what it finds is listed: an entry stays
/// selected, the list is scrolled just as far as it must be to show it, and nothing else
/// changes.
pub proof fn law_refreshed(m: AppModel)
    requires
        m.selected >= 0,
    ensures
        ({
            let (after, effects) = refreshed(m);
            let list = if m.mode == Mode::Launcher {
                m.launcher_list
            } else if m.mode == Mode::Files {
                m.files_list
            } else {
                m.git_list
            };
            let found = search_result(m.ignore_case, item_labels(list), m.query);
            let done = m.mode != Mode::Files || m.query.len() == 0;
            &&& m.search_gen < u64::MAX ==> after.search_gen == m.search_gen + 1
            &&& m.search_gen == u64::MAX ==> after.search_gen == 0
            &&& after == AppModel {
                search_gen: after.search_gen,
                matches: after.matches,
                selected: after.selected,
                scroll_offset: after.scroll_offset,
                ..m
            }
            &&& !done ==> after == (AppModel { search_gen: after.search_gen, ..m }) && effects
                == seq![
                EffectModel::Search(
                    RequestModel {
                        gen: after.search_gen,
                        query: m.query,
                        labels: m.files_labels,
                    },
                ),
            ]
            &&& done ==> effects.len() == 0
            &&& done && !searchable(item_labels(list), m.query) ==> after == AppModel {
                search_gen: after.search_gen,
                ..m
            }
            &&& done && searchable(item_labels(list), m.query) ==> {
                &&& m.mode != Mode::Files || found.len() <= 20 ==> after.matches == found
                &&& m.mode == Mode::Files && found.len() > 20 ==> after.matches == found.take(20)
                &&& lists_with_selection(m, after)
            }
        }),
{
    assert(at_most(
        search_result(m.ignore_case, item_labels(active_list(m)), m.query),
        20,
    ) == current_hits(m) || m.mode != Mode::Files || m.query.len() > 0);
}

/// Whether the results of a launcher are shown as they are to be: the place that was selected
/// stays selected, or the last one where there are fewer, and the list is scrolled just as far
/// as it must be to show it.
pub open spec fn lists_with_selection(before: AppModel, after: AppModel) -> bool {
    let rows = window_rows(after);
    &&& before.selected < after.matches.len() ==> after.selected == before.selected
    &&& before.selected >= after.matches.len() && after.matches.len() > 0 ==> after.selected
        == after.matches.len() - 1
    &&& after.matches.len() == 0 ==> after.selected == 0 && after.scroll_offset == 0
    &&& after.matches.len() > 0 && after.selected < rows ==> after.scroll_offset == 0
    &&& after.matches.len() > 0 && after.selected >= rows ==> after.scroll_offset + rows
        == after.selected + 1
}

/// The result of a search beside the launcher is listed if and only if it is that of the last
/// search and files are still searched for; else nothing happens.
pub proof fn law_results(m: AppModel, gen: u64, hits: Seq<Hit>)
    requires
        m.selected >= 0,
    ensures
        ({
            let (after, effects) = with_result(m, gen, hits);
            let counts = gen == m.search_gen && m.mode == Mode::Files && m.query.len() > 0;
            &&& !counts ==> after == m && effects.len() == 0
            &&& counts ==> {
                &&& after.matches == hits
                &&& lists_with_selection(m, after)
                &&& after == AppModel {
                    matches: after.matches,
                    selected: after.selected,
                    scroll_offset: after.scroll_offset,
                    ..m
                }
                &&& is_shown(m) ==> effects == seq![EffectModel::Draw]
                &&& !is_shown(m) ==> effects.len() == 0
            }
        }),
{
}

/// New files, projects and applications take the place of those before, and nothing else of
/// the launcher changes but what is listed. The list is searched anew and drawn where it is the
/// one that is shown; new applications are searched for whatever is shown.
pub proof fn law_new_lists(
    m: AppModel,
    files: Seq<DatedPath>,
    home: Option<Seq<u8>>,
    projects: Seq<DatedPath>,
    entries: Seq<EntryModel>,
)
    ensures
        ({
            let labels = item_labels(file_items(files, home));
            let changed = AppModel {
                files_list: file_items(files, home),
                files_labels: labels,
                ..m
            };
            let (after, effects) = with_files(m, files, home);
            &&& m.mode == Mode::Files ==> is_searched_and_drawn(changed, after, effects)
            &&& m.mode != Mode::Files ==> after == changed && effects.len() == 0
        }),
        ({
            let changed = AppModel { git_list: project_items(projects), ..m };
            let (after, effects) = with_projects(m, projects);
            &&& m.mode == Mode::Git ==> is_searched_and_drawn(changed, after, effects)
            &&& m.mode != Mode::Git ==> after == changed && effects.len() == 0
        }),
        with_entries(m, entries) == refreshed(
            AppModel { entries, launcher_list: sorted_by_usage(app_items(entries), m.usage), ..m },
        ),
{
    let files_list = file_items(files, home);
    lemma_updated(AppModel { files_list, files_labels: item_labels(files_list), ..m });
    lemma_updated(AppModel { git_list: project_items(projects), ..m });
}

// ---------------------------------------------------------------------------
// Laws of the windows
// ---------------------------------------------------------------------------

/// Showing. A window that can be seen is drawn. One that waits for less than seven tenths of a
/// second is left alone; one that waits for longer is ended, and a new one created. Without a
/// window, one is created.
pub proof fn law_showing(m: AppModel, now: u64, outputs: Seq<Option<(i32, i32)>>)
    ensures
        ({
            let (after, effects) = showed(m, now, outputs);
            let (width, height, locked) = provisional_size(outputs);
            let opened = EffectModel::CreateSurface { width: width as u32, height: height as u32 };
            let session = Session {
                width: width as u32,
                height: height as u32,
                configured: false,
                size_locked: locked,
                output: None,
                created: now,
            };
            &&& m.session matches Some(s) ==> {
                let waits = now - s.created < 700_000_000;
                &&& s.configured ==> after == m && effects == seq![EffectModel::Draw]
                &&& !s.configured && waits ==> after == m && effects.len() == 0
                &&& !s.configured && !waits ==> after == (AppModel {
                    session: Some(session),
                    ..m
                }) && effects == seq![EffectModel::DestroySession, opened]
            }
            &&& m.session is None ==> after == (AppModel { session: Some(session), ..m })
                && effects == seq![opened]
        }),
{
    let (width, height, locked) = provisional_size(outputs);
    let opened = EffectModel::CreateSurface { width: width as u32, height: height as u32 };
    assert(seq![EffectModel::DestroySession] + seq![opened] =~= seq![
        EffectModel::DestroySession,
        opened,
    ]);
    let gone = AppModel { session: None, ..m };
    assert(created(gone, now, outputs).0 == created(m, now, outputs).0);
}

/// Without a screen of known size, a window is created with a size of its own.
pub proof fn law_size_without_screens(outputs: Seq<Option<(i32, i32)>>)
    requires
        forall|i: int| 0 <= i < outputs.len() ==> (#[trigger] outputs[i]) is None,
    ensures
        provisional_size(outputs) == (1200int, 720int, false),
    decreases outputs.len(),
{
    if outputs.len() > 0 {
        let init = outputs.drop_last();
        assert forall|i: int| 0 <= i < init.len() implies (#[trigger] init[i]) is None by {
            assert(outputs[i] == init[i]);
        }
        law_size_without_screens(init);
        assert(outputs[outputs.len() - 1] is None);
    }
}

/// The compositor's size counts, side by side, where it is not 0. The window can be seen from
/// then on, and is drawn after the surface was given its size.
pub proof fn law_configuring(m: AppModel, w: u32, h: u32)
    ensures
        ({
            let (after, effects) = configured(m, w, h);
            &&& m.session is None ==> after == m && effects.len() == 0
            &&& m.session matches Some(s) ==> {
                let t = after.session->0;
                &&& is_shown(after)
                &&& w > 0 ==> t.width == w
                &&& w == 0 ==> t.width == s.width
                &&& h > 0 ==> t.height == h
                &&& h == 0 ==> t.height == s.height
                &&& t == Session { width: t.width, height: t.height, configured: true, ..s }
                &&& after == AppModel { session: Some(t), ..m }
                &&& effects == seq![
                    EffectModel::ResizeWindow { width: t.width, height: t.height },
                    EffectModel::Draw,
                ]
            }
        }),
{
}

/// A window that comes onto a screen is noted to be there, and the compositor is asked for the
/// size for that screen, once: not where the window was sized for a screen and has the size.
/// Nothing else changes; and nothing at all for the window of another program.
pub proof fn law_entering(m: AppModel, ours: bool, output: u32, size: Option<(i32, i32)>)
    ensures
        ({
            let (after, effects) = entered(m, ours, output, size);
            &&& !ours || m.session is None ==> after == m && effects.len() == 0
            &&& ours ==> (m.session matches Some(s) ==> {
                let t = after.session->0;
                &&& after == AppModel { session: Some(t), ..m }
                &&& t == Session { output: Some(output), size_locked: t.size_locked, ..s }
                &&& size is None ==> t.size_locked == s.size_locked && effects.len() == 0
                &&& size matches Some(lengths) ==> {
                    let w = side_for(lengths.0 as int, 720) as u32;
                    let h = side_for(lengths.1 as int, 520) as u32;
                    &&& t.size_locked
                    &&& s.size_locked && s.width == w && s.height == h ==> effects.len() == 0
                    &&& !s.size_locked || s.width != w || s.height != h ==> effects == seq![
                        EffectModel::SetSize { width: w, height: h },
                    ]
                }
            })
        }),
{
}

/// A screen that appears counts for a window that is on none and was sized for none, as if the
/// window were on it; one that changes counts if and only if the window is on it. Where a screen
/// does not count, nothing happens.
pub proof fn law_screens(m: AppModel, s: Session, output: u32, size: Option<(i32, i32)>)
    requires
        m.session == Some(s),
    ensures
        ({
            let on = AppModel { session: Some(Session { output: Some(output), ..s }), ..m };
            let (entered, asked) = entered(m, true, output, size);
            let (new, new_asked) = with_new_screen(m, size);
            let (changed, changed_asked) = with_changed_screen(on, output, size);
            &&& changed == entered && changed_asked == asked
            &&& s.output is None && !s.size_locked ==> new_asked == asked && entered == (AppModel {
                session: Some(Session { output: Some(output), ..new.session->0 }),
                ..new
            }) && new.session->0.output is None
            &&& s.output is Some || s.size_locked ==> new == m && new_asked.len() == 0
            &&& s.output != Some(output) ==> with_changed_screen(m, output, size) == (
                m,
                Seq::<EffectModel>::empty(),
            )
        }),
{
}

/// A window whose screen is gone is on none, and keeps its size; the end of another screen
/// changes nothing. A window that then comes onto a screen is on that one.
pub proof fn law_screen_is_gone(m: AppModel, s: Session, output: u32, other: u32)
    requires
        m.session == Some(s),
    ensures
        s.output == Some(output) ==> without_screen(m, output).session == Some(
            Session { output: None, ..s },
        ),
        s.output != Some(output) ==> without_screen(m, output) == m,
        entered(without_screen(m, output), true, other, None).0 == entered(m, true, other, None).0,
        without_screen(m, output) == (AppModel {
            session: without_screen(m, output).session,
            ..m
        }),
{
}

/// Without a window, no screen counts.
pub proof fn law_screens_without_a_window(m: AppModel, output: u32, size: Option<(i32, i32)>)
    requires
        m.session is None,
    ensures
        with_new_screen(m, size) == (m, Seq::<EffectModel>::empty()),
        with_changed_screen(m, output, size) == (m, Seq::<EffectModel>::empty()),
        without_screen(m, output) == m,
{
}

/// Hiding takes the query, the tab, the selection, the window and the key that repeats, and
/// nothing else but what is listed; and a window that was there is ended.
pub proof fn law_hiding_keeps_the_rest(m: AppModel)
    ensures
        ({
            let (after, effects) = hidden(m);
            &&& after == AppModel {
                repeat: None,
                query: Seq::empty(),
                selected: after.selected,
                scroll_offset: after.scroll_offset,
                matches: after.matches,
                mode: Mode::Launcher,
                session: None,
                search_gen: after.search_gen,
                ..m
            }
            &&& m.session is Some ==> effects == seq![EffectModel::DestroySession]
            &&& m.session is None ==> effects.len() == 0
        }),
{
    let none = Seq::<EffectModel>::empty();
    assert(none + seq![EffectModel::DestroySession] =~= seq![EffectModel::DestroySession]);
    assert(none + none =~= none);
}

/// The commands. `Show` shows; `Toggle` shows too, but goes to the next tab where the window can
/// be seen, which is drawn; `Quit` notes that the launcher ends, and does nothing else.
pub proof fn law_commands(m: AppModel, now: u64, outputs: Seq<Option<(i32, i32)>>)
    ensures
        commanded(m, Command::Show, now, outputs) == showed(m, now, outputs),
        commanded(m, Command::Hide, now, outputs) == hidden(m),
        commanded(m, Command::Quit, now, outputs) == (
            AppModel { exit: true, ..m },
            Seq::<EffectModel>::empty(),
        ),
        is_shown(m) ==> {
            let (after, effects) = commanded(m, Command::Toggle, now, outputs);
            &&& after == cycled(m, true).0
            &&& effects == seq![EffectModel::Draw]
        },
{
    if is_shown(m) {
        assert(cycled(m, true).1 =~= Seq::empty());
        assert(Seq::<EffectModel>::empty() + seq![EffectModel::Draw] =~= seq![EffectModel::Draw]);
    }
}

// ---------------------------------------------------------------------------
// Laws of held keys
// ---------------------------------------------------------------------------

/// A key that was pressed does what it does, and repeats after the delay unless it is one that
/// does not repeat: then no key repeats any more.
pub proof fn law_pressing(m: AppModel, event: KeyModel, now: u64, clock: u64)
    ensures
        ({
            let (after, effects) = pressed(m, event, now, clock);
            let done = keyed(m, event, clock).0;
            let single = event.keysym == 0xff1b || event.keysym == 0xff0d || event.keysym == 0xff8d
                || event.keysym == 0xff09 || event.keysym == 0xfe20 || event.keysym == 0xff51
                || event.keysym == 0xff53;
            &&& effects == keyed(m, event, clock).1
            &&& after == AppModel { repeat: after.repeat, ..done }
            &&& single ==> after.repeat is None
            &&& !single ==> (after.repeat matches Some(r) && r.event == event && (now
                + done.repeat_delay <= u64::MAX ==> r.next_fire == now + done.repeat_delay))
        }),
{
}

/// A key that is let go does not repeat any more; one that is let go while another is held down
/// changes nothing.
pub proof fn law_letting_go(m: AppModel, keysym: u32)
    ensures
        released(m, keysym) == (AppModel { repeat: released(m, keysym).repeat, ..m }),
        m.repeat matches Some(r) ==> {
            &&& r.event.keysym == keysym ==> released(m, keysym).repeat is None
            &&& r.event.keysym != keysym ==> released(m, keysym) == m
        },
        m.repeat is None ==> released(m, keysym) == m,
{
}

/// A key whose time has come does once more what it does, and its time comes again after the
/// rate.
pub proof fn law_repeating(m: AppModel, r: RepeatModel, now: u64, clock: u64)
    requires
        m.repeat == Some(r),
    ensures
        now < r.next_fire ==> ticked(m, now, clock) == (m, Seq::<EffectModel>::empty()),
        now >= r.next_fire && now + m.repeat_rate <= u64::MAX ==> ticked(m, now, clock) == keyed(
            AppModel {
                repeat: Some(
                    RepeatModel { event: r.event, next_fire: (now + m.repeat_rate) as u64 },
                ),
                ..m
            },
            r.event,
            clock,
        ),
{
}

// ---------------------------------------------------------------------------
// Laws of running and of the picture
// ---------------------------------------------------------------------------

/// Running an application starts the first word of its command with the rest as arguments, and
/// where its use is counted, counts it and writes that down afterwards. An entry without a
/// command starts nothing, and where nothing is selected nothing happens.
pub proof fn law_running_an_application(m: AppModel, clock: u64)
    requires
        m.mode == Mode::Launcher,
    ensures
        ({
            let (after, effects) = executed(m, clock);
            let is_selected = 0 <= m.selected < m.matches.len() && m.matches[m.selected].idx
                < m.launcher_list.len();
            let item = m.launcher_list[m.matches[m.selected].idx as int];
            let save = if item.usage_key is Some {
                seq![EffectModel::SaveState]
            } else {
                Seq::empty()
            };
            &&& !is_selected ==> after == m && effects.len() == 0
            &&& is_selected ==> {
                &&& item.action is Exec && item.action->Exec_0.len() > 0 ==> effects == seq![
                    EffectModel::Spawn {
                        program: item.action->Exec_0[0],
                        args: item.action->Exec_0.skip(1),
                    },
                ] + save
                &&& item.action is Open || item.action->Exec_0.len() == 0 ==> effects == save
                &&& item.usage_key is None ==> after == m
                &&& item.usage_key matches Some(key) ==> {
                    &&& after.usage.dom() == m.usage.dom().insert(key)
                    &&& after.usage[key].last_used == clock
                    &&& m.usage.dom().contains(key) && m.usage[key].count < u32::MAX
                        ==> after.usage[key].count == m.usage[key].count + 1
                    &&& !m.usage.dom().contains(key) ==> after.usage[key].count == 1
                    &&& forall|k: Seq<char>|
                        k != key && m.usage.dom().contains(k) ==> #[trigger] after.usage[k]
                            == m.usage[k]
                    &&& after == AppModel {
                        usage: after.usage,
                        launcher_list: sorted_by_usage(m.launcher_list, after.usage),
                        ..m
                    }
                }
            }
        }),
{
    if 0 <= m.selected < m.matches.len() && m.matches[m.selected].idx < m.launcher_list.len() {
        let item = m.launcher_list[m.matches[m.selected].idx as int];
        let did = spawns(item.action);
        assert(did.push(EffectModel::SaveState) =~= did + seq![EffectModel::SaveState]);
        assert(did + Seq::<EffectModel>::empty() =~= did);
        assert(Seq::<EffectModel>::empty() + seq![EffectModel::SaveState] =~= seq![
            EffectModel::SaveState,
        ]);
        if let Some(key) = item.usage_key {
            assert(launched(m, clock).0.usage.dom() =~= m.usage.dom().insert(key));
        }
    }
}

/// Running a project opens a terminal in its directory; where nothing is selected nothing
/// happens, and the launcher stays as it is.
pub proof fn law_running_a_project(m: AppModel, clock: u64)
    requires
        m.mode == Mode::Git,
    ensures
        ({
            let (after, effects) = executed(m, clock);
            let is_selected = 0 <= m.selected < m.matches.len() && m.matches[m.selected].idx
                < m.git_list.len();
            &&& after == m
            &&& !is_selected ==> effects.len() == 0
            &&& is_selected ==> (m.git_list[m.matches[m.selected].idx as int].action matches
                ActionModel::Open(path) ==> effects == seq![
                EffectModel::Spawn {
                    program: "alacritty"@,
                    args: seq!["--working-directory"@, lossy_utf8(path)],
                },
            ])
        }),
{
}

/// The rows of the window are the results from the first visible one on, as many as fit and as
/// there are, in their order; each shows the entry of its result, and the selected one is
/// marked.
pub proof fn law_rows(m: AppModel, height: u32)
    requires
        is_sound(m),
        forall|i: int|
            0 <= i < m.matches.len() ==> (#[trigger] m.matches[i]).idx < active_list(m).len(),
    ensures
        ({
            let rows = rows_upto(m, visible_end(m, height));
            let left = m.matches.len() - m.scroll_offset;
            let list = if m.mode == Mode::Launcher {
                m.launcher_list
            } else if m.mode == Mode::Files {
                m.files_list
            } else {
                m.git_list
            };
            &&& left <= 0 ==> rows.len() == 0
            &&& 0 < left <= rows_for(height as int) ==> rows.len() == left
            &&& left > rows_for(height as int) ==> rows.len() == rows_for(height as int)
            &&& forall|k: int|
                0 <= k < rows.len() ==> {
                    let hit = m.matches[m.scroll_offset + k];
                    &&& (#[trigger] rows[k]).slot == k
                    &&& rows[k].selected == (m.scroll_offset + k == m.selected)
                    &&& rows[k].label == list[hit.idx as int].label
                    &&& rows[k].icon_hint == list[hit.idx as int].icon_hint
                }
        }),
{
    if visible_end(m, height) > m.scroll_offset {
        lemma_rows(m, visible_end(m, height));
    }
}

proof fn lemma_rows(m: AppModel, end: int)
    requires
        0 <= m.scroll_offset <= end <= m.matches.len(),
        forall|i: int|
            0 <= i < m.matches.len() ==> (#[trigger] m.matches[i]).idx < active_list(m).len(),
    ensures
        rows_upto(m, end).len() == end - m.scroll_offset,
        forall|k: int|
            0 <= k < end - m.scroll_offset ==> {
                let hit = m.matches[m.scroll_offset + k];
                &&& (#[trigger] rows_upto(m, end)[k]).slot == k
                &&& rows_upto(m, end)[k].selected == (m.scroll_offset + k == m.selected)
                &&& rows_upto(m, end)[k].label == active_list(m)[hit.idx as int].label
                &&& rows_upto(m, end)[k].icon_hint == active_list(m)[hit.idx as int].icon_hint
            },
    decreases end - m.scroll_offset,
{
    if end > m.scroll_offset {
        lemma_rows(m, end - 1);
        assert(m.matches[end - 1].idx < active_list(m).len());
        let before = rows_upto(m, end - 1);
        assert forall|k: int| 0 <= k < end - m.scroll_offset implies ({
            let hit = m.matches[m.scroll_offset + k];
            &&& (#[trigger] rows_upto(m, end)[k]).slot == k
            &&& rows_upto(m, end)[k].selected == (m.scroll_offset + k == m.selected)
            &&& rows_upto(m, end)[k].label == active_list(m)[hit.idx as int].label
            &&& rows_upto(m, end)[k].icon_hint == active_list(m)[hit.idx as int].icon_hint
        }) by {
            if k < before.len() {
                assert(rows_upto(m, end)[k] == before[k]);
            }
        }
    }
}

/// An entry is drawn with its own icon where that is in the atlas, else with the default one,
/// else with the one that stands in for it; and without any where none of them is there.
pub proof fn law_icons(r: RendererModel, name: Option<Seq<char>>, default_name: Seq<char>)
    ensures
        ({
            let icon = picked(r, name, default_name);
            let own = name is Some && r.icons.dom().contains(name->0);
            let common = r.icons.dom().contains(default_name);
            let drawn = r.icons.dom().contains("__nixly_procedural_default__"@);
            &&& own ==> icon == Some(r.icons[name->0])
            &&& !own && common ==> icon == Some(r.icons[default_name])
            &&& !own && !common && drawn ==> icon == Some(
                r.icons["__nixly_procedural_default__"@],
            )
            &&& !own && !common && !drawn ==> icon is None
        }),
{
}

/// Links lead to one place where their paths have the same components, and where there is no
/// link in both cases.
pub proof fn law_same_target(a: Seq<u8>, b: Seq<u8>)
    ensures
        same_target(Some(a), Some(b)) <==> components(a) == components(b),
        same_target(None, None),
        !same_target(Some(a), None),
        !same_target(None, Some(b)),
{
}

/// What the window says in each mode: on the tab, and in the place of an empty query, where
/// `count` is the number of all entries; and the icon of an entry without one.
pub proof fn law_texts(m: Mode, count: nat)
    ensures
        m == Mode::Launcher ==> mode_label(m) == "Launcher"@ && placeholder_text(m, count)
            == "Search "@ + decimal(count) + " apps…"@ && default_icon(m)
            == "application-x-executable"@,
        m == Mode::Files ==> mode_label(m) == "File search"@ && placeholder_text(m, count)
            == "Search "@ + decimal(count) + " files…"@ && default_icon(m) == "text-x-generic"@,
        m == Mode::Git ==> mode_label(m) == "Git projects"@ && placeholder_text(m, count)
            == "Search "@ + decimal(count) + " git projects…"@ && default_icon(m) == "folder"@,
{
}

/// Running with files on show hands out the links to all that are found, whatever is selected,
/// and leaves the launcher as it is.
pub proof fn law_running_files(m: AppModel, clock: u64, selected: int)
    requires
        m.mode == Mode::Files,
    ensures
        executed(m, clock) == (
            m,
            seq![EffectModel::ShowFiles(links(m.files_list, m.matches))],
        ),
        executed(AppModel { selected, ..m }, clock).1 == executed(m, clock).1,
{
}

/// What a picture shows: the query, or where it is empty what stands in its place; the rows of
/// the visible results; a scrollbar if and only if there are more results than rows, with the
/// number of both and of those above; and whether there are no results.
pub proof fn law_frames(f: Frame, m: AppModel, height: u32)
    requires
        depicts(f, m, height),
    ensures
        f.mode == m.mode,
        m.query.len() > 0 ==> f.prompt@ == m.query && !f.placeholder,
        m.query.len() == 0 ==> f.placeholder,
        m.query.len() == 0 && m.mode == Mode::Launcher ==> f.prompt@ == placeholder_text(
            m.mode,
            m.launcher_list.len(),
        ),
        m.query.len() == 0 && m.mode == Mode::Files ==> f.prompt@ == placeholder_text(
            m.mode,
            m.files_list.len(),
        ),
        m.query.len() == 0 && m.mode == Mode::Git ==> f.prompt@ == placeholder_text(
            m.mode,
            m.git_list.len(),
        ),
        views(f.rows@) == rows_upto(m, visible_end(m, height)),
        f.empty <==> m.matches.len() == 0,
        m.matches.len() <= rows_for(height as int) ==> f.scrollbar is None,
        m.matches.len() > rows_for(height as int) ==> {
            let bar = f.scrollbar->0;
            &&& f.scrollbar is Some
            &&& bar.visible == rows_for(height as int)
            &&& bar.total == m.matches.len()
            &&& bar.offset == m.scroll_offset
        },
{
}

} // verus!
