//! The list of git projects: how a walk finds them, and which of them count.

use vstd::prelude::*;

use crate::dedup::views;
use crate::fileindex::{is_listed, is_trash, is_trash_name, lists};
use crate::filepath::{components, is_within, parent, FilePath};
use crate::order::{
    arrange, arranged, key_views, lemma_ranking_covers, lemma_ranking_exists,
    precedes, rank, ranking, Rank,
};
use crate::recents::{law_newest_first, mtimes, newest_first, DatedPath, NewestKey};
use crate::text::{from_utf8_lossy, lossy_utf8, str_eq};

verus! {

/// A git project, and when it was last touched: seconds since 1970.
#[derive(Debug)]
pub struct GitProject {
    pub path: FilePath,
    pub mtime: u64,
}

impl View for GitProject {
    type V = DatedPath;

    open spec fn view(&self) -> DatedPath {
        DatedPath { path: self.path@, mtime: self.mtime }
    }
}

impl Clone for GitProject {
    fn clone(&self) -> (r: Self)
        ensures
            r@ == self@,
    {
        GitProject { path: self.path.clone(), mtime: self.mtime }
    }
}

/// How deep below its root a walk goes.
pub const MAX_DEPTH: usize = 10;

/// The names of directories that are left out: caches, build results, application data, and
/// collections of projects that others wrote.
pub open spec fn skip_dirs() -> Seq<&'static str> {
    seq![
        "node_modules",
        "target",
        "build",
        "dist",
        "Trash",
        ".cache",
        ".cargo",
        ".rustup",
        ".npm",
        ".gradle",
        ".m2",
        ".gem",
        ".pnpm-store",
        ".yarn",
        ".bundle",
        ".cabal",
        ".stack",
        ".tox",
        ".pytest_cache",
        ".mypy_cache",
        ".ruff_cache",
        ".venv",
        "venv",
        "__pycache__",
        ".local",
        ".mozilla",
        ".thunderbird",
        ".steam",
        ".vscode",
        ".vscode-server",
        ".cursor-server",
        ".thumbnails",
        "curated",
        "vendor",
        "vendored",
        "third_party",
        "third-party",
        "deps",
        "submodules",
        "subprojects",
        "external",
        "externals",
        "archive",
        "archives",
        "backup",
        "backups",
        "clones",
    ]
}

/// What a walk does at an entry.
pub enum Visit {
    /// Goes on.
    Next,
    /// Goes on without entering the directory.
    Skip,
    /// Notes the project with this path, and goes on without entering the directory.
    Project(FilePath),
}

/// The model of a [`Visit`].
pub enum VisitModel {
    Next,
    Skip,
    Project(Seq<u8>),
}

impl View for Visit {
    type V = VisitModel;

    open spec fn view(&self) -> VisitModel {
        match self {
            Visit::Next => VisitModel::Next,
            Visit::Skip => VisitModel::Skip,
            Visit::Project(path) => VisitModel::Project(path@),
        }
    }
}

/// What a walk does at an entry. A `.git` directory marks the directory that holds it as a
/// project.
pub open spec fn visited(is_dir: bool, name: Seq<char>, depth: int, path: Seq<u8>) -> VisitModel {
    if !is_dir {
        VisitModel::Next
    } else if depth > 0 && (is_trash(name) || is_listed(skip_dirs(), name)) {
        VisitModel::Skip
    } else if name == ".git"@ {
        match parent(path) {
            Some(project) => VisitModel::Project(project),
            None => VisitModel::Skip,
        }
    } else {
        VisitModel::Next
    }
}

/// What a walk does at an entry with the given name.
pub fn visit_named(is_dir: bool, name: &str, depth: usize, path: &FilePath) -> (r: Visit)
    ensures
        r@ == visited(is_dir, name@, depth as int, path@),
{
    if !is_dir {
        return Visit::Next;
    }
    if depth > 0 {
        let names: Vec<&'static str> = vec![
            "node_modules",
            "target",
            "build",
            "dist",
            "Trash",
            ".cache",
            ".cargo",
            ".rustup",
            ".npm",
            ".gradle",
            ".m2",
            ".gem",
            ".pnpm-store",
            ".yarn",
            ".bundle",
            ".cabal",
            ".stack",
            ".tox",
            ".pytest_cache",
            ".mypy_cache",
            ".ruff_cache",
            ".venv",
            "venv",
            "__pycache__",
            ".local",
            ".mozilla",
            ".thunderbird",
            ".steam",
            ".vscode",
            ".vscode-server",
            ".cursor-server",
            ".thumbnails",
            "curated",
            "vendor",
            "vendored",
            "third_party",
            "third-party",
            "deps",
            "submodules",
            "subprojects",
            "external",
            "externals",
            "archive",
            "archives",
            "backup",
            "backups",
            "clones",
        ];
        assert(names@ =~= skip_dirs());
        if is_trash_name(name) || lists(&names, name) {
            return Visit::Skip;
        }
    }
    if str_eq(name, ".git") {
        return match path.parent() {
            Some(project) => Visit::Project(project),
            None => Visit::Skip,
        };
    }
    Visit::Next
}

/// What a walk does at an entry whose name has the given bytes.
pub fn visit(is_dir: bool, name: &Vec<u8>, depth: usize, path: &FilePath) -> (r: Visit)
    ensures
        r@ == visited(is_dir, lossy_utf8(name@), depth as int, path@),
{
    let name = from_utf8_lossy(name.as_slice());
    visit_named(is_dir, name.as_str(), depth, path)
}

/// When a project was last touched: the latest known time of change of the files `HEAD` and
/// `FETCH_HEAD` in its `.git` directory, and of the directory itself.
pub fn git_mtime(head: Option<u64>, fetch: Option<u64>, dir: Option<u64>) -> (r: u64)
    ensures
        head matches Some(t) ==> r >= t,
        fetch matches Some(t) ==> r >= t,
        dir matches Some(t) ==> r >= t,
        head == Some(r) || fetch == Some(r) || dir == Some(r) || (head is None && fetch is None
            && dir is None && r == 0),
{
    let mut r: u64 = 0;
    if let Some(t) = head {
        r = t;
    }
    if let Some(t) = fetch {
        if head.is_none() || t > r {
            r = t;
        }
    }
    if let Some(t) = dir {
        if (head.is_none() && fetch.is_none()) || t > r {
            r = t;
        }
    }
    r
}

// ---------------------------------------------------------------------------
// Nested projects
// ---------------------------------------------------------------------------

/// A number of components, as a key.
pub struct DepthKey {
    pub depth: usize,
}

impl View for DepthKey {
    type V = int;

    open spec fn view(&self) -> int {
        self.depth as int
    }
}

impl Rank for DepthKey {
    open spec fn lt(a: int, b: int) -> bool {
        a < b
    }

    proof fn order_laws(a: int, b: int, c: int) {
    }

    fn before(&self, other: &Self) -> (r: bool) {
        self.depth < other.depth
    }
}

pub open spec fn depths(projects: Seq<DatedPath>) -> Seq<int> {
    Seq::new(projects.len(), |i: int| components(projects[i].path).len() as int)
}

/// The projects, those with fewer components first.
pub open spec fn by_depth(projects: Seq<DatedPath>) -> Seq<DatedPath> {
    arranged(projects, ranking::<DepthKey>(depths(projects)))
}

/// Whether a path lies within one of the projects.
pub open spec fn is_covered(path: Seq<u8>, projects: Seq<DatedPath>) -> bool {
    exists|i: int| 0 <= i < projects.len() && is_within(path, (#[trigger] projects[i]).path)
}

/// The projects that lie within none of those kept before them.
pub open spec fn outermost(projects: Seq<DatedPath>) -> Seq<DatedPath>
    decreases projects.len(),
{
    if projects.len() == 0 {
        Seq::empty()
    } else {
        let before = outermost(projects.drop_last());
        if is_covered(projects.last().path, before) {
            before
        } else {
            before.push(projects.last())
        }
    }
}

/// The projects that lie within no other, the newest first.
pub open spec fn top_level(projects: Seq<DatedPath>) -> Seq<DatedPath> {
    newest_first(outermost(by_depth(projects)))
}

proof fn lemma_arranged_views(items: Seq<GitProject>, order: Seq<usize>)
    requires
        forall|i: int| 0 <= i < order.len() ==> #[trigger] order[i] < items.len(),
    ensures
        views(arranged(items, order)) == arranged(views(items), order),
{
    assert(views(arranged(items, order)) =~= arranged(views(items), order));
}

fn covers(path: &FilePath, projects: &Vec<GitProject>) -> (r: bool)
    ensures
        r == is_covered(path@, views(projects@)),
{
    let mut i: usize = 0;
    while i < projects.len()
        invariant
            i <= projects@.len(),
            forall|k: int| 0 <= k < i ==> !is_within(path@, (#[trigger] views(projects@)[k]).path),
        decreases projects.len() - i,
    {
        assert(views(projects@)[i as int] == projects@[i as int]@);
        if path.starts_with(&projects[i].path) {
            return true;
        }
        i += 1;
    }
    false
}

/// The projects that lie within no other, the newest first.
pub fn strip_nested(projects: &Vec<GitProject>) -> (r: Vec<GitProject>)
    ensures
        views(r@) == top_level(views(projects@)),
{
    let ghost all = views(projects@);
    let mut keys: Vec<DepthKey> = Vec::new();
    let mut i: usize = 0;
    while i < projects.len()
        invariant
            i <= projects@.len(),
            keys@.len() == i,
            forall|k: int|
                0 <= k < i ==> #[trigger] keys@[k]@ == components(projects@[k].path@).len() as int,
        decreases projects.len() - i,
    {
        keys.push(DepthKey { depth: projects[i].path.component_count() });
        i += 1;
    }
    let order = rank(&keys);
    assert(key_views(keys@) =~= depths(all));
    let mut keep: Vec<GitProject> = Vec::new();
    let ghost sorted = by_depth(all);
    let mut i: usize = 0;
    assert(sorted.take(0) =~= Seq::empty());
    assert(views(keep@) =~= Seq::empty());
    while i < order.len()
        invariant
            i <= order@.len(),
            all == views(projects@),
            sorted == arranged(all, order@),
            forall|k: int| 0 <= k < order@.len() ==> #[trigger] order@[k] < projects@.len(),
            views(keep@) == outermost(sorted.take(i as int)),
        decreases order.len() - i,
    {
        let p = &projects[order[i]];
        assert(sorted.take(i + 1).drop_last() =~= sorted.take(i as int));
        assert(sorted.take(i + 1).last() == p@);
        if !covers(&p.path, &keep) {
            let ghost before = views(keep@);
            keep.push(p.clone());
            assert(views(keep@) =~= before.push(p@));
        }
        i += 1;
    }
    assert(sorted.take(i as int) =~= sorted);
    let ghost kept = views(keep@);
    let mut times: Vec<NewestKey> = Vec::new();
    let mut i: usize = 0;
    while i < keep.len()
        invariant
            i <= keep@.len(),
            times@.len() == i,
            forall|k: int| 0 <= k < i ==> #[trigger] times@[k]@ == keep@[k].mtime as int,
        decreases keep.len() - i,
    {
        times.push(NewestKey { mtime: keep[i].mtime });
        i += 1;
    }
    let order = rank(&times);
    assert(key_views(times@) =~= mtimes(kept));
    proof {
        lemma_arranged_views(keep@, order@);
    }
    arrange(keep, &order)
}

/// The projects found so far with those of one more root.
pub fn add_root(accumulated: Vec<GitProject>, chunk: Vec<GitProject>) -> (r: Vec<GitProject>)
    ensures
        views(r@) == views(accumulated@) + views(chunk@),
{
    let mut all = accumulated;
    let mut chunk = chunk;
    let ghost before = views(all@);
    let ghost more = views(chunk@);
    all.append(&mut chunk);
    assert(views(all@) =~= before + more);
    all
}

/// Whether the projects with fewer components come first.
spec fn is_by_depth(projects: Seq<DatedPath>) -> bool {
    forall|i: int, j: int|
        0 <= i < j < projects.len() ==> components((#[trigger] projects[i]).path).len()
            <= components((#[trigger] projects[j]).path).len()
}

/// Whether no project of a list lies within another.
pub open spec fn none_nested(projects: Seq<DatedPath>) -> bool {
    forall|i: int, j: int|
        0 <= i < projects.len() && 0 <= j < projects.len() && i != j ==> !is_within(
            (#[trigger] projects[i]).path,
            (#[trigger] projects[j]).path,
        )
}

proof fn lemma_by_depth(projects: Seq<DatedPath>)
    requires
        projects.len() <= usize::MAX,
    ensures
        is_by_depth(by_depth(projects)),
        by_depth(projects).len() == projects.len(),
        forall|i: int|
            0 <= i < projects.len() ==> projects.contains(#[trigger] by_depth(projects)[i]),
        forall|i: int|
            0 <= i < projects.len() ==> by_depth(projects).contains(#[trigger] projects[i]),
{
    let keys = depths(projects);
    let order = ranking::<DepthKey>(keys);
    let sorted = by_depth(projects);
    lemma_ranking_exists::<DepthKey>(keys);
    lemma_ranking_covers::<DepthKey>(keys, order);
    assert forall|i: int, j: int| 0 <= i < j < sorted.len() implies components(
        (#[trigger] sorted[i]).path,
    ).len() <= components((#[trigger] sorted[j]).path).len() by {
        assert(precedes::<DepthKey>(keys, order[i] as int, order[j] as int));
        assert(sorted[i] == projects[order[i] as int]);
        assert(sorted[j] == projects[order[j] as int]);
    }
    assert forall|i: int| 0 <= i < projects.len() implies projects.contains(
        #[trigger] sorted[i],
    ) by {
        assert(sorted[i] == projects[order[i] as int]);
    }
    assert forall|i: int| 0 <= i < projects.len() implies sorted.contains(
        #[trigger] projects[i],
    ) by {
        assert(order.contains(i as usize));
        let a = choose|a: int| 0 <= a < order.len() && order[a] == i;
        assert(sorted[a] == projects[i]);
    }
}

proof fn lemma_outermost(projects: Seq<DatedPath>)
    requires
        is_by_depth(projects),
    ensures
        outermost(projects).len() <= projects.len(),
        none_nested(outermost(projects)),
        forall|i: int|
            0 <= i < outermost(projects).len() ==> projects.contains(
                #[trigger] outermost(projects)[i],
            ),
        forall|p: int|
            0 <= p < projects.len() ==> is_covered(
                (#[trigger] projects[p]).path,
                outermost(projects),
            ),
    decreases projects.len(),
{
    if projects.len() > 0 {
        let init = projects.drop_last();
        let last = projects.last();
        let before = outermost(init);
        let kept = outermost(projects);
        assert(is_by_depth(init)) by {
            assert forall|i: int, j: int| 0 <= i < j < init.len() implies components(
                (#[trigger] init[i]).path,
            ).len() <= components((#[trigger] init[j]).path).len() by {
                assert(init[i] == projects[i] && init[j] == projects[j]);
            }
        }
        lemma_outermost(init);
        assert forall|i: int| 0 <= i < before.len() implies projects.contains(
            #[trigger] before[i],
        ) && components(before[i].path).len() <= components(last.path).len() by {
            assert(init.contains(before[i]));
            let p = choose|p: int| 0 <= p < init.len() && init[p] == before[i];
            assert(projects[p] == before[i]);
            assert(projects[projects.len() - 1] == last);
        }
        assert forall|i: int, j: int|
            0 <= i < kept.len() && 0 <= j < kept.len() && i != j implies !is_within(
            (#[trigger] kept[i]).path,
            (#[trigger] kept[j]).path,
        ) by {
            if i < before.len() && j < before.len() {
                assert(kept[i] == before[i] && kept[j] == before[j]);
            } else if i < before.len() {
                assert(kept[i] == before[i] && kept[j] == last);
                if is_within(before[i].path, last.path) {
                    let inner = components(before[i].path);
                    let outer = components(last.path);
                    assert(inner.len() == outer.len());
                    assert(inner =~= outer);
                    assert(is_within(last.path, before[i].path));
                }
            } else {
                assert(kept[i] == last && kept[j] == before[j]);
            }
        }
        assert forall|p: int| 0 <= p < projects.len() implies is_covered(
            (#[trigger] projects[p]).path,
            kept,
        ) by {
            if p < init.len() {
                assert(is_covered(init[p].path, before));
                let i = choose|i: int|
                    0 <= i < before.len() && is_within(init[p].path, (#[trigger] before[i]).path);
                assert(kept[i] == before[i]);
            } else if !is_covered(last.path, before) {
                assert(kept[before.len() as int] == last);
                assert(is_within(last.path, last.path));
            }
        }
        assert forall|i: int| 0 <= i < kept.len() implies projects.contains(
            #[trigger] kept[i],
        ) by {
            if i < before.len() {
                assert(kept[i] == before[i]);
            } else {
                assert(kept[i] == projects[projects.len() - 1]);
            }
        }
    }
}

/// Of the projects, only those that lie within no other are listed, the newest first; each
/// of them was found, and each project that was found lies within one that is listed.
pub proof fn law_top_level(projects: Seq<DatedPath>)
    requires
        projects.len() <= usize::MAX,
    ensures
        none_nested(top_level(projects)),
        forall|i: int, j: int|
            0 <= i < j < top_level(projects).len() ==> (#[trigger] top_level(projects)[i]).mtime
                >= (#[trigger] top_level(projects)[j]).mtime,
        forall|i: int|
            0 <= i < top_level(projects).len() ==> projects.contains(
                #[trigger] top_level(projects)[i],
            ),
        forall|p: int|
            0 <= p < projects.len() ==> is_covered(
                (#[trigger] projects[p]).path,
                top_level(projects),
            ),
{
    let sorted = by_depth(projects);
    let kept = outermost(sorted);
    let listed = top_level(projects);
    let keys = mtimes(kept);
    let order = ranking::<NewestKey>(keys);
    lemma_by_depth(projects);
    lemma_outermost(sorted);
    lemma_ranking_exists::<NewestKey>(keys);
    lemma_ranking_covers::<NewestKey>(keys, order);
    assert forall|i: int, j: int|
        0 <= i < listed.len() && 0 <= j < listed.len() && i != j implies !is_within(
        (#[trigger] listed[i]).path,
        (#[trigger] listed[j]).path,
    ) by {
        let a = order[i] as int;
        let b = order[j] as int;
        assert(a != b);
        assert(listed[i] == kept[a] && listed[j] == kept[b]);
    }
    assert forall|i: int, j: int| 0 <= i < j < listed.len() implies (#[trigger] listed[i]).mtime
        >= (#[trigger] listed[j]).mtime by {
        assert(precedes::<NewestKey>(keys, order[i] as int, order[j] as int));
        assert(listed[i] == kept[order[i] as int] && listed[j] == kept[order[j] as int]);
    }
    assert forall|i: int| 0 <= i < listed.len() implies projects.contains(
        #[trigger] listed[i],
    ) by {
        assert(listed[i] == kept[order[i] as int]);
        assert(sorted.contains(kept[order[i] as int]));
        let q = choose|q: int| 0 <= q < sorted.len() && sorted[q] == listed[i];
        assert(projects.contains(sorted[q]));
    }
    assert forall|p: int| 0 <= p < projects.len() implies is_covered(
        (#[trigger] projects[p]).path,
        listed,
    ) by {
        assert(sorted.contains(projects[p]));
        let q = choose|q: int| 0 <= q < sorted.len() && sorted[q] == projects[p];
        assert(is_covered(sorted[q].path, kept));
        let k = choose|k: int|
            0 <= k < kept.len() && is_within(sorted[q].path, (#[trigger] kept[k]).path);
        assert(order.contains(k as usize));
        let a = choose|a: int| 0 <= a < order.len() && order[a] == k;
        assert(listed[a] == kept[k]);
    }
}

/// What a walk does at an entry. A file is passed over. A directory is entered, at every depth
/// and hidden or not, unless it is the `.git` directory of a project or, below the root, is a
/// trash directory or has one of the names of caches, build results, application data and
/// collections. A `.git` directory stands for the directory that holds it.
pub proof fn law_visited(is_dir: bool, name: Seq<char>, depth: int, path: Seq<u8>)
    requires
        0 <= depth,
    ensures
        !is_dir ==> visited(is_dir, name, depth, path) is Next,
        is_dir && depth > 0 && (".Trash-"@.is_prefix_of(name) || is_left_out(name)) ==> visited(
            is_dir,
            name,
            depth,
            path,
        ) is Skip,
        is_dir && name != ".git"@ && !".Trash-"@.is_prefix_of(name) && !is_left_out(name)
            ==> visited(is_dir, name, depth, path) is Next,
        is_dir && name != ".git"@ && depth == 0 ==> visited(is_dir, name, depth, path) is Next,
        is_dir && name == ".git"@ && parent(path) is Some ==> visited(is_dir, name, depth, path)
            == VisitModel::Project(parent(path)->0),
        is_dir && name == ".git"@ && parent(path) is None ==> visited(
            is_dir,
            name,
            depth,
            path,
        ) is Skip,
        visited(is_dir, name, depth, path) is Project ==> is_dir && name == ".git"@,
{
    lemma_left_out(name);
    lemma_git_is_not_left_out();
}

/// Whether a directory below the root has one of the names that a walk leaves out.
pub open spec fn is_left_out(name: Seq<char>) -> bool {
    ||| name == "node_modules"@
    ||| name == "target"@
    ||| name == "build"@
    ||| name == "dist"@
    ||| name == "Trash"@
    ||| name == ".cache"@
    ||| name == ".cargo"@
    ||| name == ".rustup"@
    ||| name == ".npm"@
    ||| name == ".gradle"@
    ||| name == ".m2"@
    ||| name == ".gem"@
    ||| name == ".pnpm-store"@
    ||| name == ".yarn"@
    ||| name == ".bundle"@
    ||| name == ".cabal"@
    ||| name == ".stack"@
    ||| name == ".tox"@
    ||| name == ".pytest_cache"@
    ||| name == ".mypy_cache"@
    ||| name == ".ruff_cache"@
    ||| name == ".venv"@
    ||| name == "venv"@
    ||| name == "__pycache__"@
    ||| name == ".local"@
    ||| name == ".mozilla"@
    ||| name == ".thunderbird"@
    ||| name == ".steam"@
    ||| name == ".vscode"@
    ||| name == ".vscode-server"@
    ||| name == ".cursor-server"@
    ||| name == ".thumbnails"@
    ||| name == "curated"@
    ||| name == "vendor"@
    ||| name == "vendored"@
    ||| name == "third_party"@
    ||| name == "third-party"@
    ||| name == "deps"@
    ||| name == "submodules"@
    ||| name == "subprojects"@
    ||| name == "external"@
    ||| name == "externals"@
    ||| name == "archive"@
    ||| name == "archives"@
    ||| name == "backup"@
    ||| name == "backups"@
    ||| name == "clones"@
}

proof fn lemma_left_out(name: Seq<char>)
    ensures
        is_listed(skip_dirs(), name) == is_left_out(name),
{
    let names = skip_dirs();
    assert(names[0]@ == "node_modules"@);
    assert(names[1]@ == "target"@);
    assert(names[2]@ == "build"@);
    assert(names[3]@ == "dist"@);
    assert(names[4]@ == "Trash"@);
    assert(names[5]@ == ".cache"@);
    assert(names[6]@ == ".cargo"@);
    assert(names[7]@ == ".rustup"@);
    assert(names[8]@ == ".npm"@);
    assert(names[9]@ == ".gradle"@);
    assert(names[10]@ == ".m2"@);
    assert(names[11]@ == ".gem"@);
    assert(names[12]@ == ".pnpm-store"@);
    assert(names[13]@ == ".yarn"@);
    assert(names[14]@ == ".bundle"@);
    assert(names[15]@ == ".cabal"@);
    assert(names[16]@ == ".stack"@);
    assert(names[17]@ == ".tox"@);
    assert(names[18]@ == ".pytest_cache"@);
    assert(names[19]@ == ".mypy_cache"@);
    assert(names[20]@ == ".ruff_cache"@);
    assert(names[21]@ == ".venv"@);
    assert(names[22]@ == "venv"@);
    assert(names[23]@ == "__pycache__"@);
    assert(names[24]@ == ".local"@);
    assert(names[25]@ == ".mozilla"@);
    assert(names[26]@ == ".thunderbird"@);
    assert(names[27]@ == ".steam"@);
    assert(names[28]@ == ".vscode"@);
    assert(names[29]@ == ".vscode-server"@);
    assert(names[30]@ == ".cursor-server"@);
    assert(names[31]@ == ".thumbnails"@);
    assert(names[32]@ == "curated"@);
    assert(names[33]@ == "vendor"@);
    assert(names[34]@ == "vendored"@);
    assert(names[35]@ == "third_party"@);
    assert(names[36]@ == "third-party"@);
    assert(names[37]@ == "deps"@);
    assert(names[38]@ == "submodules"@);
    assert(names[39]@ == "subprojects"@);
    assert(names[40]@ == "external"@);
    assert(names[41]@ == "externals"@);
    assert(names[42]@ == "archive"@);
    assert(names[43]@ == "archives"@);
    assert(names[44]@ == "backup"@);
    assert(names[45]@ == "backups"@);
    assert(names[46]@ == "clones"@);
}

proof fn lemma_git_is_not_left_out()
    ensures
        !is_left_out(".git"@),
        !".Trash-"@.is_prefix_of(".git"@),
{
    reveal_strlit(".git");
    reveal_strlit(".Trash-");
    reveal_strlit("node_modules");
    reveal_strlit("target");
    reveal_strlit("build");
    reveal_strlit("dist");
    reveal_strlit("Trash");
    reveal_strlit(".cache");
    reveal_strlit(".cargo");
    reveal_strlit(".rustup");
    reveal_strlit(".npm");
    reveal_strlit(".gradle");
    reveal_strlit(".m2");
    reveal_strlit(".gem");
    reveal_strlit(".pnpm-store");
    reveal_strlit(".yarn");
    reveal_strlit(".bundle");
    reveal_strlit(".cabal");
    reveal_strlit(".stack");
    reveal_strlit(".tox");
    reveal_strlit(".pytest_cache");
    reveal_strlit(".mypy_cache");
    reveal_strlit(".ruff_cache");
    reveal_strlit(".venv");
    reveal_strlit("venv");
    reveal_strlit("__pycache__");
    reveal_strlit(".local");
    reveal_strlit(".mozilla");
    reveal_strlit(".thunderbird");
    reveal_strlit(".steam");
    reveal_strlit(".vscode");
    reveal_strlit(".vscode-server");
    reveal_strlit(".cursor-server");
    reveal_strlit(".thumbnails");
    reveal_strlit("curated");
    reveal_strlit("vendor");
    reveal_strlit("vendored");
    reveal_strlit("third_party");
    reveal_strlit("third-party");
    reveal_strlit("deps");
    reveal_strlit("submodules");
    reveal_strlit("subprojects");
    reveal_strlit("external");
    reveal_strlit("externals");
    reveal_strlit("archive");
    reveal_strlit("archives");
    reveal_strlit("backup");
    reveal_strlit("backups");
    reveal_strlit("clones");
    assert("dist"@[0] != ".git"@[0]);
    assert(".npm"@[1] != ".git"@[1]);
    assert(".gem"@[2] != ".git"@[2]);
    assert(".tox"@[1] != ".git"@[1]);
    assert("venv"@[0] != ".git"@[0]);
    assert("deps"@[0] != ".git"@[0]);
}

/// Of projects that were last touched at one time, those with fewer components come first.
pub proof fn law_projects_of_one_time(projects: Seq<DatedPath>, i: int, j: int)
    requires
        projects.len() <= usize::MAX,
        0 <= i < j < top_level(projects).len(),
        top_level(projects)[i].mtime == top_level(projects)[j].mtime,
    ensures
        components(top_level(projects)[i].path).len() <= components(
            top_level(projects)[j].path,
        ).len(),
{
    let sorted = by_depth(projects);
    let kept = outermost(sorted);
    lemma_by_depth(projects);
    lemma_outermost(sorted);
    lemma_outermost_by_depth(sorted);
    let at = law_newest_first(kept);
    assert(at[i] < at[j]);
    assert(top_level(projects)[i] == kept[at[i]] && top_level(projects)[j] == kept[at[j]]);
}

proof fn lemma_outermost_by_depth(projects: Seq<DatedPath>)
    requires
        is_by_depth(projects),
    ensures
        is_by_depth(outermost(projects)),
    decreases projects.len(),
{
    if projects.len() > 0 {
        let init = projects.drop_last();
        let last = projects.last();
        let before = outermost(init);
        let kept = outermost(projects);
        assert forall|i: int, j: int| 0 <= i < j < init.len() implies components(
            (#[trigger] init[i]).path,
        ).len() <= components((#[trigger] init[j]).path).len() by {
            assert(init[i] == projects[i] && init[j] == projects[j]);
        }
        lemma_outermost(init);
        lemma_outermost_by_depth(init);
        assert forall|i: int, j: int| 0 <= i < j < kept.len() implies components(
            (#[trigger] kept[i]).path,
        ).len() <= components((#[trigger] kept[j]).path).len() by {
            assert(kept[i] == before[i]);
            if j < before.len() {
                assert(kept[j] == before[j]);
            } else {
                assert(kept[j] == last);
                assert(init.contains(before[i]));
                let p = choose|p: int| 0 <= p < init.len() && init[p] == before[i];
                assert(projects[p] == before[i]);
                assert(projects[projects.len() - 1] == last);
            }
        }
    }
}

} // verus!
