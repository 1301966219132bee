//! The lists that the launcher shows: applications, files and git projects.

use std::sync::Arc;

use vstd::prelude::*;

use crate::dedup::{keep_first, keep_firsts, law_first_indices, views};
use crate::desktop::{ComponentsKey, Entry, EntryModel};
use crate::filepath::{
    bytes_of, components, file_name, is_plain_name, is_visible_below, joined, law_components,
    law_join_adds_a_component, law_parent_drops_a_component, law_paths_have_parents, opt_path_view,
    parent, FilePath, DOT, SEP,
};
use crate::gitscan::GitProject;
use crate::icon::{DEFAULT_DIR, DEFAULT_FILE};
use crate::matcher::{comes_before, labels, lemma_comes_before, Labeled};
use crate::order::{
    arrange, arranged, char_codes, chars_before, key_views, lemma_lex_laws, lemma_ranking_covers,
    lemma_ranking_exists, lex_lt, precedes, rank, ranking, Rank,
};
use crate::recents::{collect, collected, existing, Bookmark, DatedPath, Recent};
use crate::state::{usage_of, AppUsage, State};
use crate::text::{
    chars_of, decoded, from_utf8, lossy_utf8, lowercase, opt_view, string_of,
    strings_view, to_lowercase,
};

verus! {

/// What choosing an entry does.
#[derive(Debug)]
pub enum Action {
    /// Starts a program with arguments.
    Exec(Vec<String>),
    /// Opens a path.
    Open(FilePath),
}

/// The model of an [`Action`].
pub enum ActionModel {
    Exec(Seq<Seq<char>>),
    Open(Seq<u8>),
}

impl View for Action {
    type V = ActionModel;

    open spec fn view(&self) -> ActionModel {
        match self {
            Action::Exec(command) => ActionModel::Exec(strings_view(command@)),
            Action::Open(path) => ActionModel::Open(path@),
        }
    }
}

/// An entry of a list.
#[derive(Debug)]
pub struct ListEntry {
    pub label: String,
    pub icon_hint: Option<String>,
    pub action: Action,
    pub usage_key: Option<String>,
}

/// The model of a [`ListEntry`].
#[verifier::ext_equal]
pub struct Item {
    pub label: Seq<char>,
    pub icon_hint: Option<Seq<char>>,
    pub action: ActionModel,
    pub usage_key: Option<Seq<char>>,
}

impl View for ListEntry {
    type V = Item;

    open spec fn view(&self) -> Item {
        Item {
            label: self.label@,
            icon_hint: opt_view(self.icon_hint),
            action: self.action@,
            usage_key: opt_view(self.usage_key),
        }
    }
}

impl Labeled for ListEntry {
    open spec fn label(&self) -> Seq<char> {
        self.label@
    }

    fn get_label(&self) -> (r: &str) {
        self.label.as_str()
    }
}

/// The labels of a list.
pub open spec fn item_labels(list: Seq<Item>) -> Seq<Seq<char>> {
    Seq::new(list.len(), |i: int| list[i].label)
}

pub proof fn lemma_item_labels(list: Seq<ListEntry>)
    ensures
        labels(list) == item_labels(views(list)),
{
    assert(labels(list) =~= item_labels(views(list)));
}

/// A copy of a string.
pub fn copy_str(s: &str) -> (r: String)
    ensures
        r@ == s@,
{
    let chars = chars_of(s);
    string_of(chars.as_slice())
}

/// A copy of an optional string.
pub fn copy_opt(s: &Option<String>) -> (r: Option<String>)
    ensures
        opt_view(r) == opt_view(*s),
{
    match s {
        Some(s) => Some(copy_str(s.as_str())),
        None => None,
    }
}

/// A copy of a list of strings, from a place on.
pub fn copy_strings(strings: &Vec<String>, from: usize) -> (r: Vec<String>)
    requires
        from <= strings@.len(),
    ensures
        strings_view(r@) == strings_view(strings@).skip(from as int),
{
    let mut out: Vec<String> = Vec::new();
    let mut i: usize = from;
    while i < strings.len()
        invariant
            from <= i <= strings@.len(),
            strings_view(out@) == strings_view(strings@).subrange(from as int, i as int),
        decreases strings.len() - i,
    {
        let ghost before = strings_view(out@);
        out.push(copy_str(strings[i].as_str()));
        assert(strings_view(out@) =~= before.push(strings@[i as int]@));
        assert(strings_view(strings@).subrange(from as int, i + 1) =~= before.push(
            strings@[i as int]@,
        ));
        i += 1;
    }
    assert(strings_view(out@) =~= strings_view(strings@).skip(from as int));
    out
}

// ---------------------------------------------------------------------------
// Applications
// ---------------------------------------------------------------------------

/// The list entry of an application.
pub open spec fn app_item(e: EntryModel) -> Item {
    Item {
        label: e.name,
        icon_hint: e.icon,
        action: ActionModel::Exec(e.command),
        usage_key: Some(e.command[0]),
    }
}

/// The list entries of the applications that have a command.
pub open spec fn app_items(entries: Seq<EntryModel>) -> Seq<Item>
    decreases entries.len(),
{
    if entries.len() == 0 {
        Seq::empty()
    } else {
        let before = app_items(entries.drop_last());
        if entries.last().command.len() == 0 {
            before
        } else {
            before.push(app_item(entries.last()))
        }
    }
}

/// What decides the place of an application.
pub struct UsageRank {
    pub last_used: int,
    pub count: int,
    pub lowered: Seq<char>,
}

/// The executable form of a [`UsageRank`].
pub struct UsageKey {
    pub usage: AppUsage,
    pub lowered: Vec<char>,
}

impl View for UsageKey {
    type V = UsageRank;

    open spec fn view(&self) -> UsageRank {
        UsageRank {
            last_used: self.usage.last_used as int,
            count: self.usage.count as int,
            lowered: self.lowered@,
        }
    }
}

impl Rank for UsageKey {
    /// The one used last first, then the one used more often, then the alphabetical order.
    open spec fn lt(a: UsageRank, b: UsageRank) -> bool {
        if a.last_used != b.last_used {
            a.last_used > b.last_used
        } else if a.count != b.count {
            a.count > b.count
        } else {
            lex_lt(char_codes(a.lowered), char_codes(b.lowered))
        }
    }

    proof fn order_laws(a: UsageRank, b: UsageRank, c: UsageRank) {
        lemma_lex_laws(char_codes(a.lowered), char_codes(b.lowered), char_codes(c.lowered));
    }

    fn before(&self, other: &Self) -> (r: bool) {
        if self.usage.last_used != other.usage.last_used {
            self.usage.last_used > other.usage.last_used
        } else if self.usage.count != other.usage.count {
            self.usage.count > other.usage.count
        } else {
            chars_before(self.lowered.as_slice(), other.lowered.as_slice())
        }
    }
}

/// What decides the places of the entries of a list, given their labels in lower case.
pub open spec fn usage_ranks(
    list: Seq<Item>,
    usage: Map<Seq<char>, AppUsage>,
    lowered: Seq<Seq<char>>,
) -> Seq<UsageRank> {
    Seq::new(
        list.len(),
        |i: int|
            UsageRank {
                last_used: usage_of(usage, list[i].usage_key).last_used as int,
                count: usage_of(usage, list[i].usage_key).count as int,
                lowered: lowered[i],
            },
    )
}

/// The labels of a list in lower case.
pub open spec fn lowered_item_labels(list: Seq<Item>) -> Seq<Seq<char>> {
    Seq::new(list.len(), |i: int| lowercase(list[i].label))
}

/// The list in the order of use.
pub open spec fn by_usage(
    list: Seq<Item>,
    usage: Map<Seq<char>, AppUsage>,
    lowered: Seq<Seq<char>>,
) -> Seq<Item> {
    arranged(list, ranking::<UsageKey>(usage_ranks(list, usage, lowered)))
}

/// The list in the order of use, labels in lower case.
pub open spec fn sorted_by_usage(list: Seq<Item>, usage: Map<Seq<char>, AppUsage>) -> Seq<Item> {
    by_usage(list, usage, lowered_item_labels(list))
}

proof fn lemma_arranged_views(items: Seq<ListEntry>, order: Seq<usize>)
    requires
        forall|i: int| 0 <= i < order.len() ==> #[trigger] order[i] < items.len(),
    ensures
        views(arranged(items, order)) == arranged(views(items), order),
{
    assert(views(arranged(items, order)) =~= arranged(views(items), order));
}

/// The list in the order of use, given its labels in lower case: the one used last first,
/// then the one used more often, then the alphabetical order.
pub fn sort_by_usage_with(list: Vec<ListEntry>, st: &State, lowered: &Vec<String>) -> (r: Vec<
    ListEntry,
>)
    requires
        list@.len() == lowered@.len(),
    ensures
        views(r@) == by_usage(views(list@), st@, strings_view(lowered@)),
{
    let ghost models = views(list@);
    let ghost names = strings_view(lowered@);
    let mut keys: Vec<UsageKey> = Vec::new();
    let mut i: usize = 0;
    while i < list.len()
        invariant
            i <= list@.len(),
            list@.len() == lowered@.len(),
            models == views(list@),
            names == strings_view(lowered@),
            keys@.len() == i,
            forall|k: int|
                0 <= k < i ==> (#[trigger] keys@[k])@ == usage_ranks(models, st@, names)[k],
        decreases list.len() - i,
    {
        let usage = match &list[i].usage_key {
            Some(key) => st.get(key.as_str()),
            None => AppUsage { count: 0, last_used: 0 },
        };
        let lowered = chars_of(lowered[i].as_str());
        assert(models[i as int] == list@[i as int]@);
        keys.push(UsageKey { usage, lowered });
        i += 1;
    }
    let order = rank(&keys);
    assert(key_views(keys@) =~= usage_ranks(models, st@, names));
    proof {
        lemma_arranged_views(list@, order@);
    }
    arrange(list, &order)
}

/// The list in the order of use.
pub fn sort_by_usage(list: Vec<ListEntry>, st: &State) -> (r: Vec<ListEntry>)
    ensures
        views(r@) == sorted_by_usage(views(list@), st@),
{
    let ghost models = views(list@);
    let mut lowered: Vec<String> = Vec::new();
    let mut i: usize = 0;
    while i < list.len()
        invariant
            i <= list@.len(),
            lowered@.len() == i,
            forall|k: int|
                0 <= k < i ==> (#[trigger] lowered@[k])@ == lowercase(list@[k].label@),
        decreases list.len() - i,
    {
        lowered.push(to_lowercase(list[i].label.as_str()));
        i += 1;
    }
    assert(strings_view(lowered@) =~= lowered_item_labels(models));
    sort_by_usage_with(list, st, &lowered)
}

/// The list of applications: those that have a command, in the order of use.
pub fn build_launcher_list(entries: &Vec<Entry>, st: &State) -> (r: Vec<ListEntry>)
    ensures
        views(r@) == sorted_by_usage(app_items(views(entries@)), st@),
{
    let ghost all = views(entries@);
    let mut list: Vec<ListEntry> = Vec::new();
    let mut i: usize = 0;
    assert(all.take(0) =~= Seq::empty());
    assert(views(list@) =~= Seq::empty());
    while i < entries.len()
        invariant
            i <= entries@.len(),
            all == views(entries@),
            views(list@) == app_items(all.take(i as int)),
        decreases entries.len() - i,
    {
        let e = &entries[i];
        assert(all.take(i + 1).drop_last() =~= all.take(i as int));
        assert(all.take(i + 1).last() == e@);
        assert(strings_view(e.command@).len() == e.command@.len());
        if e.command.len() > 0 {
            let ghost before = views(list@);
            let command = copy_strings(&e.command, 0);
            assert(strings_view(e.command@).skip(0) =~= strings_view(e.command@));
            let entry = ListEntry {
                label: copy_str(e.name.as_str()),
                icon_hint: copy_opt(&e.icon),
                usage_key: Some(copy_str(e.command[0].as_str())),
                action: Action::Exec(command),
            };
            list.push(entry);
            assert(entry@ == app_item(e@));
            assert(views(list@) =~= before.push(entry@));
        }
        i += 1;
    }
    assert(all.take(i as int) =~= all);
    sort_by_usage(list, st)
}

/// In a list in the order of use, an entry is never behind one that was used earlier, nor
/// behind one used at the same time and less often.
pub proof fn law_used_last_comes_first(
    list: Seq<Item>,
    usage: Map<Seq<char>, AppUsage>,
    lowered: Seq<Seq<char>>,
    i: int,
    j: int,
)
    requires
        list.len() <= usize::MAX,
        0 <= i < j < list.len(),
    ensures
        by_usage(list, usage, lowered).len() == list.len(),
        ({
            let a = usage_of(usage, by_usage(list, usage, lowered)[i].usage_key);
            let b = usage_of(usage, by_usage(list, usage, lowered)[j].usage_key);
            a.last_used > b.last_used || (a.last_used == b.last_used && a.count >= b.count)
        }),
{
    let keys = usage_ranks(list, usage, lowered);
    let order = ranking::<UsageKey>(keys);
    lemma_ranking_exists::<UsageKey>(keys);
    assert(precedes::<UsageKey>(keys, order[i] as int, order[j] as int));
    assert(by_usage(list, usage, lowered)[i] == list[order[i] as int]);
    assert(by_usage(list, usage, lowered)[j] == list[order[j] as int]);
}

/// Sorting by use loses no entry and adds none.
pub proof fn law_sorting_keeps_the_entries(
    list: Seq<Item>,
    usage: Map<Seq<char>, AppUsage>,
    lowered: Seq<Seq<char>>,
)
    requires
        list.len() <= usize::MAX,
    ensures
        by_usage(list, usage, lowered).len() == list.len(),
        forall|x: Item| #[trigger] by_usage(list, usage, lowered).contains(x) <==> list.contains(x),
{
    let keys = usage_ranks(list, usage, lowered);
    let order = ranking::<UsageKey>(keys);
    let sorted = by_usage(list, usage, lowered);
    lemma_ranking_exists::<UsageKey>(keys);
    lemma_ranking_covers::<UsageKey>(keys, order);
    assert forall|x: Item| #[trigger] sorted.contains(x) <==> list.contains(x) by {
        if sorted.contains(x) {
            let i = choose|i: int| 0 <= i < sorted.len() && sorted[i] == x;
            assert(list[order[i] as int] == x);
        }
        if list.contains(x) {
            let p = choose|p: int| 0 <= p < list.len() && list[p] == x;
            assert(order.contains(p as usize));
            let a = choose|a: int| 0 <= a < order.len() && order[a] == p;
            assert(sorted[a] == x);
        }
    }
}

/// The directories of icons next to the applications of one package: below the directory
/// that holds the one with the desktop entry.
pub open spec fn package_dirs(path: Seq<u8>) -> Seq<Seq<u8>> {
    match parent(path) {
        Some(applications) => match parent(applications) {
            Some(share) => seq![
                joined(share, bytes_of("icons"@)),
                joined(share, bytes_of("pixmaps"@)),
            ],
            None => Seq::empty(),
        },
        None => Seq::empty(),
    }
}

/// The directories of icons next to the applications.
pub open spec fn all_package_dirs(paths: Seq<Seq<u8>>) -> Seq<Seq<u8>>
    decreases paths.len(),
{
    if paths.len() == 0 {
        Seq::empty()
    } else {
        all_package_dirs(paths.drop_last()) + package_dirs(paths.last())
    }
}

pub open spec fn path_parts(paths: Seq<Seq<u8>>) -> Seq<Seq<Seq<u8>>> {
    Seq::new(paths.len(), |i: int| components(paths[i]))
}

/// The directories of icons next to the applications, each once. `paths` holds the paths of
/// the desktop entries with all symbolic links followed.
pub fn derive_icon_dirs(paths: &Vec<FilePath>) -> (r: Vec<FilePath>)
    ensures
        views(r@) == keep_first(
            all_package_dirs(views(paths@)),
            path_parts(all_package_dirs(views(paths@))),
        ),
{
    let ghost all = views(paths@);
    let mut dirs: Vec<FilePath> = Vec::new();
    let mut keys: Vec<ComponentsKey> = Vec::new();
    let mut i: usize = 0;
    assert(all.take(0) =~= Seq::empty());
    assert(views(dirs@) =~= Seq::empty());
    assert(views(keys@) =~= path_parts(views(dirs@)));
    while i < paths.len()
        invariant
            i <= paths@.len(),
            all == views(paths@),
            views(dirs@) == all_package_dirs(all.take(i as int)),
            views(keys@) == path_parts(views(dirs@)),
        decreases paths.len() - i,
    {
        assert(all.take(i + 1).drop_last() =~= all.take(i as int));
        assert(all.take(i + 1).last() == paths@[i as int]@);
        let ghost before = views(dirs@);
        let ghost keys_before = views(keys@);
        assert(before + Seq::<Seq<u8>>::empty() =~= before);
        if let Some(applications) = paths[i].parent() {
            if let Some(share) = applications.parent() {
                let icons = share.join_str("icons");
                let pixmaps = share.join_str("pixmaps");
                keys.push(ComponentsKey::new(&icons));
                keys.push(ComponentsKey::new(&pixmaps));
                dirs.push(icons);
                dirs.push(pixmaps);
                assert(views(dirs@) =~= before + seq![icons@, pixmaps@]);
                assert(views(keys@) =~= keys_before + seq![
                    components(icons@),
                    components(pixmaps@),
                ]);
                assert(views(keys@) =~= path_parts(views(dirs@)));
            }
        }
        i += 1;
    }
    assert(all.take(i as int) =~= all);
    let ghost found = views(dirs@);
    assert(views(keys@).len() == keys@.len());
    assert(path_parts(found).len() == dirs@.len());
    let r = keep_firsts(dirs, &keys);
    proof {
        law_first_indices(views(keys@));
        assert(views(r@) =~= keep_first(found, views(keys@)));
    }
    r
}

// ---------------------------------------------------------------------------
// Files and projects
// ---------------------------------------------------------------------------

/// The label of a path: its file name, or the whole path where it has none that is valid
/// text. `whole` is the whole path as text.
pub open spec fn path_label(path: Seq<u8>, whole: Seq<char>) -> Seq<char> {
    match file_name(path) {
        Some(name) => match decoded(name) {
            Some(name) => name,
            None => whole,
        },
        None => whole,
    }
}

/// The label of a path, given the whole path as text.
pub fn file_label_or(p: &FilePath, whole: String) -> (r: String)
    ensures
        r@ == path_label(p@, whole@),
{
    match p.file_name() {
        Some(name) => match from_utf8(name) {
            Some(name) => name,
            None => whole,
        },
        None => whole,
    }
}

/// The label of a path.
pub fn file_label(p: &FilePath) -> (r: String)
    ensures
        r@ == path_label(p@, lossy_utf8(p@)),
{
    file_label_or(p, p.to_string_lossy())
}

/// Whether a file is shown: below `HOME`, and not within anything hidden.
pub open spec fn shows_file(path: Seq<u8>, home: Option<Seq<u8>>) -> bool {
    match home {
        Some(home) => is_visible_below(path, home),
        None => false,
    }
}

/// Whether a file is shown, given `HOME`.
pub fn is_visible_home_file(path: &FilePath, home: &Option<FilePath>) -> (r: bool)
    ensures
        r == shows_file(path@, opt_path_view(*home)),
{
    match home {
        Some(home) => path.visible_below(home),
        None => false,
    }
}

/// The list entry of a path.
pub open spec fn path_item(path: Seq<u8>, icon: Seq<char>) -> Item {
    Item {
        label: path_label(path, lossy_utf8(path)),
        icon_hint: Some(icon),
        action: ActionModel::Open(path),
        usage_key: None,
    }
}

/// The list entries of the files that are shown.
pub open spec fn file_items(files: Seq<DatedPath>, home: Option<Seq<u8>>) -> Seq<Item>
    decreases files.len(),
{
    if files.len() == 0 {
        Seq::empty()
    } else {
        let before = file_items(files.drop_last(), home);
        if shows_file(files.last().path, home) {
            before.push(path_item(files.last().path, DEFAULT_FILE@))
        } else {
            before
        }
    }
}

/// The list of files: those that are shown, in the same order.
pub fn files_list_from_recents(recents: Vec<Recent>, home: &Option<FilePath>) -> (r: Vec<ListEntry>)
    ensures
        views(r@) == file_items(views(recents@), opt_path_view(*home)),
{
    let ghost all = views(recents@);
    let mut list: Vec<ListEntry> = Vec::new();
    assert(all.take(0) =~= Seq::empty());
    assert(views(list@) =~= Seq::empty());
    for recent in iter: recents
        invariant
            all == views(iter.seq()),
            views(list@) == file_items(
                all.take(iter.index() as int),
                opt_path_view(*home),
            ),
    {
        let ghost i = iter.index() as int;
        assert(all.take(i + 1).drop_last() =~= all.take(i));
        assert(all.take(i + 1).last() == recent@);
        if is_visible_home_file(&recent.path, home) {
            let ghost before = views(list@);
            let entry = ListEntry {
                label: file_label(&recent.path),
                icon_hint: Some(copy_str(DEFAULT_FILE)),
                usage_key: None,
                action: Action::Open(recent.path),
            };
            list.push(entry);
            assert(views(list@) =~= before.push(entry@));
        }
    }
    assert(all.take(all.len() as int) =~= all);
    list
}

/// How many recent files the list of files begins with.
pub const FILES_SEED_LIMIT: usize = 30;

/// The list of files to begin with, from the bookmarked files and those found in folders.
pub fn build_files_list(bookmarks: Vec<Bookmark>, walked: Vec<Recent>, home: &Option<FilePath>) -> (r:
    Vec<ListEntry>)
    ensures
        views(r@) == file_items(
            collected(existing(bookmarks@) + views(walked@), FILES_SEED_LIMIT as int),
            opt_path_view(*home),
        ),
{
    files_list_from_recents(collect(FILES_SEED_LIMIT, bookmarks, walked), home)
}

/// The list entries of the projects.
pub open spec fn project_items(projects: Seq<DatedPath>) -> Seq<Item> {
    Seq::new(projects.len(), |i: int| path_item(projects[i].path, DEFAULT_DIR@))
}

/// The list of projects, in the same order.
pub fn git_list_from_projects(projects: Vec<GitProject>) -> (r: Vec<ListEntry>)
    ensures
        views(r@) == project_items(views(projects@)),
{
    let ghost all = views(projects@);
    let mut list: Vec<ListEntry> = Vec::new();
    assert(views(list@) =~= project_items(all).take(0));
    for project in iter: projects
        invariant
            all == views(iter.seq()),
            views(list@) == project_items(all).take(iter.index() as int),
    {
        let ghost i = iter.index() as int;
        let ghost before = views(list@);
        assert(all[i] == project@);
        let entry = ListEntry {
            label: file_label(&project.path),
            icon_hint: Some(copy_str(DEFAULT_DIR)),
            usage_key: None,
            action: Action::Open(project.path),
        };
        list.push(entry);
        assert(views(list@) =~= before.push(entry@));
        assert(project_items(all).take(i + 1) =~= before.push(entry@));
    }
    assert(project_items(all).take(all.len() as int) =~= project_items(all));
    list
}

/// The labels of a list, to hand to the search.
pub fn labels_for(list: &Vec<ListEntry>) -> (r: Arc<Vec<String>>)
    ensures
        strings_view(r@) == item_labels(views(list@)),
{
    let mut out: Vec<String> = Vec::new();
    let mut i: usize = 0;
    while i < list.len()
        invariant
            i <= list@.len(),
            out@.len() == i,
            forall|k: int| 0 <= k < i ==> (#[trigger] out@[k])@ == list@[k].label@,
        decreases list.len() - i,
    {
        out.push(copy_str(list[i].label.as_str()));
        i += 1;
    }
    assert(strings_view(out@) =~= item_labels(views(list@)));
    Arc::new(out)
}

/// Every file that is shown lies below `HOME` and within nothing hidden.
pub proof fn law_shown_files(files: Seq<DatedPath>, home: Option<Seq<u8>>, i: int)
    requires
        0 <= i < file_items(files, home).len(),
    ensures
        file_items(files, home)[i].action matches ActionModel::Open(path) && shows_file(path, home),
    decreases files.len(),
{
    if files.len() > 0 && i < file_items(files.drop_last(), home).len() {
        law_shown_files(files.drop_last(), home, i);
    }
}

/// The applications that have a command are listed, in their order: each under its name, with
/// its icon and its command, and counted under the first word of that. `at` tells which
/// application each entry is of.
pub proof fn law_app_items(entries: Seq<EntryModel>) -> (at: Seq<int>)
    ensures
        at.len() == app_items(entries).len(),
        forall|i: int|
            0 <= i < at.len() ==> {
                let item = app_items(entries)[i];
                let e = entries[at[i]];
                &&& 0 <= #[trigger] at[i] < entries.len()
                &&& e.command.len() > 0
                &&& item.label == e.name
                &&& item.icon_hint == e.icon
                &&& item.action == ActionModel::Exec(e.command)
                &&& item.usage_key == Some(e.command[0])
            },
        forall|i: int, j: int| 0 <= i < j < at.len() ==> #[trigger] at[i] < #[trigger] at[j],
        forall|k: int|
            0 <= k < entries.len() && (#[trigger] entries[k]).command.len() > 0 ==> at.contains(k),
    decreases entries.len(),
{
    if entries.len() == 0 {
        Seq::empty()
    } else {
        let init = entries.drop_last();
        let last = entries.len() - 1;
        let before = law_app_items(init);
        assert(forall|k: int| 0 <= k < init.len() ==> init[k] == entries[k]);
        let at = if entries.last().command.len() == 0 {
            before
        } else {
            before.push(last)
        };
        assert forall|k: int|
            0 <= k < entries.len() && (#[trigger] entries[k]).command.len() > 0 implies at.contains(
            k,
        ) by {
            if k < last {
                assert(init[k] == entries[k]);
                assert(before.contains(k));
                let i = choose|i: int| 0 <= i < before.len() && before[i] == k;
                assert(at[i] == k);
            } else {
                assert(at[before.len() as int] == k);
            }
        }
        at
    }
}

/// Sorting by use puts the one used last first, of those used at one time the one used more
/// often, of those used as often the first in alphabetical order in lower case, and of those
/// with one label the first in the list. `at` tells where each entry was.
pub proof fn law_order_of_use(list: Seq<Item>, usage: Map<Seq<char>, AppUsage>) -> (at: Seq<int>)
    requires
        list.len() <= usize::MAX,
    ensures
        at.len() == list.len(),
        sorted_by_usage(list, usage).len() == list.len(),
        forall|i: int|
            0 <= i < at.len() ==> 0 <= #[trigger] at[i] < list.len() && sorted_by_usage(
                list,
                usage,
            )[i] == list[at[i]],
        forall|k: int| 0 <= k < list.len() ==> #[trigger] at.contains(k),
        forall|i: int, j: int|
            0 <= i < j < at.len() ==> is_used_before(
                usage,
                list,
                #[trigger] at[i],
                #[trigger] at[j],
            ),
{
    let lowered = lowered_item_labels(list);
    let keys = usage_ranks(list, usage, lowered);
    let order = ranking::<UsageKey>(keys);
    lemma_ranking_exists::<UsageKey>(keys);
    lemma_ranking_covers::<UsageKey>(keys, order);
    let at = Seq::new(order.len(), |i: int| order[i] as int);
    assert forall|k: int| 0 <= k < list.len() implies #[trigger] at.contains(k) by {
        assert(order.contains(k as usize));
        let i = choose|i: int| 0 <= i < order.len() && order[i] == k as usize;
        assert(at[i] == k);
    }
    assert forall|i: int, j: int| 0 <= i < j < at.len() implies is_used_before(
        usage,
        list,
        #[trigger] at[i],
        #[trigger] at[j],
    ) by {
        assert(precedes::<UsageKey>(keys, order[i] as int, order[j] as int));
        let a = lowered[at[i]];
        let b = lowered[at[j]];
        lemma_comes_before(a, b);
        lemma_comes_before(b, a);
        lemma_lex_laws(char_codes(a), char_codes(a), char_codes(a));
    }
    at
}

/// Whether the entry at one place of a list belongs before that at another by their use.
pub open spec fn is_used_before(
    usage: Map<Seq<char>, AppUsage>,
    list: Seq<Item>,
    i: int,
    j: int,
) -> bool {
    let a = usage_of(usage, list[i].usage_key);
    let b = usage_of(usage, list[j].usage_key);
    &&& a.last_used >= b.last_used
    &&& a.last_used == b.last_used ==> a.count >= b.count
    &&& a.last_used == b.last_used && a.count == b.count ==> !comes_before(
        lowercase(list[j].label),
        lowercase(list[i].label),
    )
    &&& a.last_used == b.last_used && a.count == b.count && lowercase(list[i].label) == lowercase(
        list[j].label,
    ) ==> i < j
}

/// A path has the label of its last name, where that is valid text; else, and where it has no
/// such name, that of the whole path.
pub proof fn law_path_label(dir: Seq<u8>, name: Seq<char>, path: Seq<u8>, whole: Seq<char>)
    ensures
        dir.len() > 0 && is_plain_name(bytes_of(name)) && bytes_of(name) != seq![DOT, DOT]
            ==> path_label(joined(dir, bytes_of(name)), whole) == name,
        file_name(path) is None ==> path_label(path, whole) == whole,
        file_name(path) matches Some(n) ==> (!vstd::utf8::valid_utf8(n) ==> path_label(path, whole)
            == whole),
{
    vstd::utf8::encode_utf8_decode_utf8(name);
    vstd::utf8::encode_utf8_valid_utf8(name);
    if dir.len() > 0 && is_plain_name(bytes_of(name)) {
        law_join_adds_a_component(dir, bytes_of(name));
    }
}

/// Whether an entry is that of a file which is shown: it lies below `HOME` and within nothing
/// hidden.
pub open spec fn is_entry_of_file(item: Item, path: Seq<u8>, home: Option<Seq<u8>>) -> bool {
    &&& home is Some && is_visible_below(path, home->0)
    &&& item.label == path_label(path, lossy_utf8(path))
    &&& item.icon_hint == Some("text-x-generic"@)
    &&& item.action == ActionModel::Open(path)
    &&& item.usage_key is None
}

/// The files that are shown are listed, in their order: each under its label, with the icon of
/// a file, to be opened, and with no use counted. Without `HOME` none is. `at` tells which file
/// each entry is of.
pub proof fn law_file_items(files: Seq<DatedPath>, home: Option<Seq<u8>>) -> (at: Seq<int>)
    ensures
        at.len() == file_items(files, home).len(),
        home is None ==> at.len() == 0,
        forall|i: int|
            0 <= i < at.len() ==> {
                &&& 0 <= #[trigger] at[i] < files.len()
                &&& is_entry_of_file(file_items(files, home)[i], files[at[i]].path, home)
            },
        forall|i: int, j: int| 0 <= i < j < at.len() ==> #[trigger] at[i] < #[trigger] at[j],
        home is Some ==> forall|k: int|
            0 <= k < files.len() && is_visible_below((#[trigger] files[k]).path, home->0)
                ==> at.contains(k),
    decreases files.len(),
{
    if files.len() == 0 {
        Seq::empty()
    } else {
        let init = files.drop_last();
        let last = files.len() - 1;
        let before = law_file_items(init, home);
        assert(forall|k: int| 0 <= k < init.len() ==> init[k] == files[k]);
        let at = if shows_file(files.last().path, home) {
            before.push(last)
        } else {
            before
        };
        let items = file_items(files, home);
        let kept = file_items(init, home);
        assert forall|i: int| 0 <= i < at.len() implies is_entry_of_file(
            items[i],
            files[#[trigger] at[i]].path,
            home,
        ) && 0 <= at[i] < files.len() by {
            if i < before.len() {
                assert(at[i] == before[i]);
                assert(items[i] == kept[i]);
                assert(is_entry_of_file(kept[i], init[before[i]].path, home));
            }
        }
        if home is Some {
            assert forall|k: int|
                0 <= k < files.len() && is_visible_below((#[trigger] files[k]).path, home->0) implies at.contains(
            k) by {
                if k < last {
                    assert(init[k] == files[k]);
                    assert(before.contains(k));
                    let i = choose|i: int| 0 <= i < before.len() && before[i] == k;
                    assert(at[i] == k);
                } else {
                    assert(at[before.len() as int] == k);
                }
            }
        }
        at
    }
}

/// All projects are listed, in their order: each under its label, with the icon of a directory,
/// to be opened, and with no use counted.
pub proof fn law_project_items(projects: Seq<DatedPath>, i: int)
    requires
        0 <= i < projects.len(),
    ensures
        project_items(projects).len() == projects.len(),
        ({
            let item = project_items(projects)[i];
            let path = projects[i].path;
            &&& item.label == path_label(path, lossy_utf8(path))
            &&& item.icon_hint == Some("folder"@)
            &&& item.action == ActionModel::Open(path)
            &&& item.usage_key is None
        }),
{
}

/// The icons of a package lie beside the directory of its desktop entry: in the directories
/// `icons` and `pixmaps` of the one that holds it. An entry that lies in no such directory has
/// none.
pub proof fn law_package_dirs(path: Seq<u8>)
    ensures
        ({
            let c = components(path);
            let dirs = package_dirs(path);
            &&& parent(path) is None || parent(parent(path)->0) is None ==> dirs.len() == 0
            &&& parent(path) is Some && parent(parent(path)->0) is Some ==> {
                &&& dirs.len() == 2
                &&& components(dirs[0]) == c.take(c.len() - 2).push(bytes_of("icons"@))
                &&& components(dirs[1]) == c.take(c.len() - 2).push(bytes_of("pixmaps"@))
            }
        }),
{
    if parent(path) is Some && parent(parent(path)->0) is Some {
        let applications = parent(path)->0;
        let share = parent(applications)->0;
        law_paths_have_parents(path);
        law_paths_have_parents(applications);
        law_parent_drops_a_component(path);
        law_parent_drops_a_component(applications);
        let c = components(path);
        assert(components(share) =~= c.take(c.len() - 2));
        lemma_dir_names();
        lemma_join_any(share, bytes_of("icons"@));
        lemma_join_any(share, bytes_of("pixmaps"@));
    }
}

proof fn lemma_dir_names()
    ensures
        is_plain_name(bytes_of("icons"@)),
        is_plain_name(bytes_of("pixmaps"@)),
{
    reveal_strlit("icons");
    reveal_strlit("pixmaps");
    vstd::utf8::is_ascii_chars_encode_utf8("icons"@);
    vstd::utf8::is_ascii_chars_encode_utf8("pixmaps"@);
    let a = bytes_of("icons"@);
    let b = bytes_of("pixmaps"@);
    assert(a.len() == 5 && b.len() == 7);
    assert(seq![DOT].len() == 1);
    assert forall|i: int| 0 <= i < a.len() implies a[i] != SEP by {
        assert(a[i] == "icons"@[i] as u8);
    }
    assert forall|i: int| 0 <= i < b.len() implies b[i] != SEP by {
        assert(b[i] == "pixmaps"@[i] as u8);
    }
}

proof fn lemma_join_any(base: Seq<u8>, name: Seq<u8>)
    requires
        is_plain_name(name),
    ensures
        components(joined(base, name)) == components(base).push(name),
{
    if base.len() > 0 {
        law_join_adds_a_component(base, name);
    } else {
        assert(name.contains(name[0]));
        assert(base =~= Seq::empty());
        assert(base + name =~= name);
        law_components(base, name);
        assert(components(base).push(name) =~= seq![name]);
    }
}

/// The directories of icons of some packages are those of each, one after the other.
pub proof fn law_all_package_dirs(a: Seq<Seq<u8>>, b: Seq<Seq<u8>>, path: Seq<u8>)
    ensures
        all_package_dirs(a + b) == all_package_dirs(a) + all_package_dirs(b),
        all_package_dirs(seq![path]) == package_dirs(path),
        all_package_dirs(Seq::empty()) == Seq::<Seq<u8>>::empty(),
    decreases b.len(),
{
    let none = Seq::<Seq<u8>>::empty();
    assert(seq![path].drop_last() =~= none);
    assert(all_package_dirs(none) =~= none);
    assert(none + package_dirs(path) =~= package_dirs(path));
    if b.len() == 0 {
        assert(a + b =~= a);
        assert(all_package_dirs(a) + all_package_dirs(b) =~= all_package_dirs(a));
    } else {
        assert((a + b).drop_last() =~= a + b.drop_last());
        law_all_package_dirs(a, b.drop_last(), path);
        assert(all_package_dirs(a + b) =~= all_package_dirs(a) + all_package_dirs(b));
    }
}

} // verus!
