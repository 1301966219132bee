//! The index of all files below the home directory: which directories it leaves out, and
//! how it grows.

use vstd::prelude::*;

use crate::dedup::views;
use crate::recents::{newest_first, sort_newest_first, Recent};
use crate::text::{append_str, chars_eq_str, chars_of, opt_str_view, starts_with, str_eq};

verus! {

/// How deep below its root a walk goes.
pub const MAX_DEPTH: usize = 12;

/// The names of directories that are left out: caches, build results and application data.
pub open spec fn skip_names() -> Seq<&'static str> {
    seq![
        "node_modules",
        "target",
        "build",
        "dist",
        "Trash",
        ".git",
        ".cache",
        ".cargo",
        ".rustup",
        ".npm",
        ".gradle",
        ".m2",
        ".gem",
        ".pnpm-store",
        ".yarn",
        ".bundle",
        ".cabal",
        ".stack",
        ".gradle",
        ".cargo-target",
        ".tox",
        ".pytest_cache",
        ".mypy_cache",
        ".ruff_cache",
        ".venv",
        "venv",
        "__pycache__",
        ".local",
        ".mozilla",
        ".thunderbird",
        ".steam",
        ".vscode",
        ".vscode-server",
        ".cursor-server",
        ".thumbnails",
    ]
}

/// The directories that are left out where they lie in a directory of the given name: what
/// browsers keep.
pub open spec fn skip_paths() -> Seq<&'static str> {
    seq![
        ".config/google-chrome",
        ".config/chromium",
        ".config/BraveSoftware",
        ".config/discord",
    ]
}

/// Whether one of the names is `s`.
pub open spec fn is_listed(names: Seq<&'static str>, s: Seq<char>) -> bool {
    exists|i: int| 0 <= i < names.len() && (#[trigger] names[i])@ == s
}

/// Whether one of the names is `s`.
pub fn lists(names: &Vec<&'static str>, s: &str) -> (r: bool)
    ensures
        r == is_listed(names@, s@),
{
    let mut i: usize = 0;
    while i < names.len()
        invariant
            i <= names@.len(),
            forall|k: int| 0 <= k < i ==> (#[trigger] names@[k])@ != s@,
        decreases names.len() - i,
    {
        if str_eq(names[i], s) {
            assert(names@[i as int]@ == s@);
            return true;
        }
        i += 1;
    }
    false
}

/// Whether a directory is a trash directory of one user, such as `.Trash-1000`.
pub open spec fn is_trash(name: Seq<char>) -> bool {
    ".Trash-"@.is_prefix_of(name)
}

/// Whether a directory is a trash directory of one user.
pub fn is_trash_name(name: &str) -> (r: bool)
    ensures
        r == is_trash(name@),
{
    let chars = chars_of(name);
    let prefix = chars_of(".Trash-");
    starts_with(chars.as_slice(), prefix.as_slice())
}

/// Whether a name and that of the directory around it spell one of the paths.
pub open spec fn is_listed_within(
    paths: Seq<&'static str>,
    parent: Option<Seq<char>>,
    name: Seq<char>,
) -> bool {
    parent matches Some(parent) && is_listed(paths, parent + "/"@ + name)
}

/// Whether a name and that of the directory around it spell one of the paths.
pub fn lists_within(paths: &Vec<&'static str>, parent: Option<&str>, name: &str) -> (r: bool)
    ensures
        r == is_listed_within(paths@, opt_str_view(parent), name@),
{
    let around = match parent {
        Some(parent) => parent,
        None => return false,
    };
    let mut spelled = chars_of(around);
    append_str(&mut spelled, "/");
    append_str(&mut spelled, name);
    let mut i: usize = 0;
    while i < paths.len()
        invariant
            i <= paths@.len(),
            parent == Some(around),
            spelled@ == around@ + "/"@ + name@,
            forall|k: int| 0 <= k < i ==> (#[trigger] paths@[k])@ != spelled@,
        decreases paths.len() - i,
    {
        if chars_eq_str(spelled.as_slice(), paths[i]) {
            assert(paths@[i as int]@ == spelled@);
            return true;
        }
        i += 1;
    }
    false
}

/// Whether a walk leaves out an entry: a directory below the root that is a trash directory,
/// has one of the names above, or spells one of the paths above with the directory around it.
/// `parent` and `name` are the names of that directory and of the entry, if they are valid
/// text.
pub open spec fn skipped(
    is_dir: bool,
    parent: Option<Seq<char>>,
    name: Option<Seq<char>>,
    depth: int,
) -> bool {
    is_dir && depth != 0 && match name {
        Some(name) => is_trash(name) || is_listed(skip_names(), name) || is_listed_within(
            skip_paths(),
            parent,
            name,
        ),
        None => false,
    }
}

/// Whether a walk leaves out an entry, given the name of the directory that it is in and its
/// own.
pub fn is_skipped(is_dir: bool, parent: Option<&str>, name: Option<&str>, depth: usize) -> (r: bool)
    ensures
        r == skipped(is_dir, opt_str_view(parent), opt_str_view(name), depth as int),
{
    if !is_dir {
        return false;
    }
    let name = match name {
        Some(name) => name,
        None => return false,
    };
    if depth == 0 {
        return false;
    }
    if is_trash_name(name) {
        return true;
    }
    let names: Vec<&'static str> = vec![
        "node_modules",
        "target",
        "build",
        "dist",
        "Trash",
        ".git",
        ".cache",
        ".cargo",
        ".rustup",
        ".npm",
        ".gradle",
        ".m2",
        ".gem",
        ".pnpm-store",
        ".yarn",
        ".bundle",
        ".cabal",
        ".stack",
        ".gradle",
        ".cargo-target",
        ".tox",
        ".pytest_cache",
        ".mypy_cache",
        ".ruff_cache",
        ".venv",
        "venv",
        "__pycache__",
        ".local",
        ".mozilla",
        ".thunderbird",
        ".steam",
        ".vscode",
        ".vscode-server",
        ".cursor-server",
        ".thumbnails",
    ];
    assert(names@ =~= skip_names());
    let paths: Vec<&'static str> = vec![
        ".config/google-chrome",
        ".config/chromium",
        ".config/BraveSoftware",
        ".config/discord",
    ];
    assert(paths@ =~= skip_paths());
    lists(&names, name) || lists_within(&paths, parent, name)
}

/// The index with the files of one more root, the newest first.
pub fn add_root(accumulated: Vec<Recent>, chunk: Vec<Recent>) -> (r: Vec<Recent>)
    ensures
        views(r@) == newest_first(views(accumulated@) + views(chunk@)),
{
    let mut all = accumulated;
    let mut chunk = chunk;
    let ghost before = views(all@);
    let ghost more = views(chunk@);
    all.append(&mut chunk);
    assert(views(all@) =~= before + more);
    sort_newest_first(all)
}

/// What a walk leaves out. Only directories below the root are left out, and only those with a
/// valid name: trash directories, those with one of the names of caches, build results and
/// application data, and what browsers keep in `.config`. Every other directory is walked,
/// hidden or not.
pub proof fn law_skipped(
    is_dir: bool,
    parent: Option<Seq<char>>,
    name: Option<Seq<char>>,
    depth: int,
)
    ensures
        !is_dir || depth == 0 || name is None ==> !skipped(is_dir, parent, name, depth),
        is_dir && depth != 0 ==> (name matches Some(n) ==> (skipped(is_dir, parent, name, depth)
            <==> ".Trash-"@.is_prefix_of(n) || is_left_out(n) || (parent is Some
            && is_browser_data(parent->0, n)))),
{
    if let Some(n) = name {
        lemma_left_out(n);
        if let Some(p) = parent {
            lemma_browser_data(p, n);
        }
    }
}

/// Whether a directory below the root has one of the names that a walk leaves out.
pub open spec fn is_left_out(name: Seq<char>) -> bool {
    ||| name == "node_modules"@
    ||| name == "target"@
    ||| name == "build"@
    ||| name == "dist"@
    ||| name == "Trash"@
    ||| name == ".git"@
    ||| name == ".cache"@
    ||| name == ".cargo"@
    ||| name == ".rustup"@
    ||| name == ".npm"@
    ||| name == ".gradle"@
    ||| name == ".m2"@
    ||| name == ".gem"@
    ||| name == ".pnpm-store"@
    ||| name == ".yarn"@
    ||| name == ".bundle"@
    ||| name == ".cabal"@
    ||| name == ".stack"@
    ||| name == ".cargo-target"@
    ||| name == ".tox"@
    ||| name == ".pytest_cache"@
    ||| name == ".mypy_cache"@
    ||| name == ".ruff_cache"@
    ||| name == ".venv"@
    ||| name == "venv"@
    ||| name == "__pycache__"@
    ||| name == ".local"@
    ||| name == ".mozilla"@
    ||| name == ".thunderbird"@
    ||| name == ".steam"@
    ||| name == ".vscode"@
    ||| name == ".vscode-server"@
    ||| name == ".cursor-server"@
    ||| name == ".thumbnails"@
}

/// Whether a directory is one in which a browser or a messenger keeps its data.
pub open spec fn is_browser_data(parent: Seq<char>, name: Seq<char>) -> bool {
    let path = parent + "/"@ + name;
    ||| path == ".config/google-chrome"@
    ||| path == ".config/chromium"@
    ||| path == ".config/BraveSoftware"@
    ||| path == ".config/discord"@
}

proof fn lemma_left_out(name: Seq<char>)
    ensures
        is_listed(skip_names(), name) == is_left_out(name),
{
    let names = skip_names();
    assert(names[0]@ == "node_modules"@);
    assert(names[1]@ == "target"@);
    assert(names[2]@ == "build"@);
    assert(names[3]@ == "dist"@);
    assert(names[4]@ == "Trash"@);
    assert(names[5]@ == ".git"@);
    assert(names[6]@ == ".cache"@);
    assert(names[7]@ == ".cargo"@);
    assert(names[8]@ == ".rustup"@);
    assert(names[9]@ == ".npm"@);
    assert(names[10]@ == ".gradle"@);
    assert(names[11]@ == ".m2"@);
    assert(names[12]@ == ".gem"@);
    assert(names[13]@ == ".pnpm-store"@);
    assert(names[14]@ == ".yarn"@);
    assert(names[15]@ == ".bundle"@);
    assert(names[16]@ == ".cabal"@);
    assert(names[17]@ == ".stack"@);
    assert(names[18]@ == ".gradle"@);
    assert(names[19]@ == ".cargo-target"@);
    assert(names[20]@ == ".tox"@);
    assert(names[21]@ == ".pytest_cache"@);
    assert(names[22]@ == ".mypy_cache"@);
    assert(names[23]@ == ".ruff_cache"@);
    assert(names[24]@ == ".venv"@);
    assert(names[25]@ == "venv"@);
    assert(names[26]@ == "__pycache__"@);
    assert(names[27]@ == ".local"@);
    assert(names[28]@ == ".mozilla"@);
    assert(names[29]@ == ".thunderbird"@);
    assert(names[30]@ == ".steam"@);
    assert(names[31]@ == ".vscode"@);
    assert(names[32]@ == ".vscode-server"@);
    assert(names[33]@ == ".cursor-server"@);
    assert(names[34]@ == ".thumbnails"@);
}

proof fn lemma_browser_data(parent: Seq<char>, name: Seq<char>)
    ensures
        is_listed_within(skip_paths(), Some(parent), name) == is_browser_data(parent, name),
{
    let paths = skip_paths();
    assert(paths[0]@ == ".config/google-chrome"@);
    assert(paths[1]@ == ".config/chromium"@);
    assert(paths[2]@ == ".config/BraveSoftware"@);
    assert(paths[3]@ == ".config/discord"@);
}

} // verus!
