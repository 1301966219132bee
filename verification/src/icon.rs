//! Icons: where they are looked for, which file is best for a name, and how a file becomes
//! pixels.

use image::imageops::FilterType;
use image::{ImageFormat, ImageReader};
use vstd::hash_map::StringHashMap;
use vstd::prelude::*;
use vstd::slice::{slice_subrange, slice_to_vec};

use crate::dedup::views;
use crate::filepath::{
    byte_views, bytes_eq, bytes_from, bytes_of, components, components_before, components_lt,
    extension, file_name, file_stem, joined, law_extension, lemma_components_laws, opt_path_view,
    same_path, split_components, FilePath, DOT,
};
use crate::order::{
    arrange, arranged, key_views, lemma_ranking_covers, lemma_ranking_exists, precedes, rank,
    ranking, Rank,
};
use crate::text::{
    ascii_lowered, chars_eq_str, chars_of, decoded, from_utf8, from_utf8_lossy, index_of_last,
    law_rsplit_once, lossy_utf8, opt_view, rsplit_once, split, split_at_char, str_eq, string_of, strings_view,
    to_ascii_lower,
};

verus! {

/// The width and height of an icon, in pixels.
pub const ICON_SIZE: u32 = 48;

/// The icon for an application without one.
pub const DEFAULT_APP: &'static str = "application-x-executable";

/// The icon for a file.
pub const DEFAULT_FILE: &'static str = "text-x-generic";

/// The icon for a directory.
pub const DEFAULT_DIR: &'static str = "folder";

// ---------------------------------------------------------------------------
// Where icons are looked for
// ---------------------------------------------------------------------------

/// The directory of the user's own icons.
pub open spec fn data_home_dirs(xdg_data_home: Option<Seq<u8>>, home: Option<Seq<u8>>) -> Seq<
    Seq<u8>,
> {
    match xdg_data_home {
        Some(dir) => seq![joined(dir, bytes_of("icons"@))],
        None => match home {
            Some(home) => seq![joined(home, bytes_of(".local/share/icons"@))],
            None => Seq::empty(),
        },
    }
}

/// The old directory of the user's own icons.
pub open spec fn home_dirs(home: Option<Seq<u8>>) -> Seq<Seq<u8>> {
    match home {
        Some(home) => seq![joined(home, bytes_of(".icons"@))],
        None => Seq::empty(),
    }
}

/// Two directories for each piece of `XDG_DATA_DIRS` that is not empty.
pub open spec fn data_dirs(pieces: Seq<Seq<char>>) -> Seq<Seq<u8>>
    decreases pieces.len(),
{
    if pieces.len() == 0 {
        Seq::empty()
    } else {
        let before = data_dirs(pieces.drop_last());
        let dir = bytes_of(pieces.last());
        if pieces.last().len() == 0 {
            before
        } else {
            before.push(joined(dir, bytes_of("icons"@))).push(joined(dir, bytes_of("pixmaps"@)))
        }
    }
}

/// The directories that are searched whatever the environment holds.
pub open spec fn fixed_dirs() -> Seq<Seq<u8>> {
    seq![
        bytes_of("/run/current-system/sw/share/icons"@),
        bytes_of("/run/current-system/sw/share/pixmaps"@),
        bytes_of("/usr/share/icons"@),
        bytes_of("/usr/share/pixmaps"@),
        bytes_of("/usr/local/share/icons"@),
        bytes_of("/usr/local/share/pixmaps"@),
    ]
}

/// The directories that are searched, before those of single packages.
pub open spec fn standard_dirs(
    xdg_data_home: Option<Seq<u8>>,
    home: Option<Seq<u8>>,
    xdg_data_dirs: Option<Seq<char>>,
) -> Seq<Seq<u8>> {
    data_home_dirs(xdg_data_home, home) + home_dirs(home) + (match xdg_data_dirs {
        Some(dirs) => data_dirs(split(dirs, ':')),
        None => Seq::empty(),
    }) + fixed_dirs()
}

/// The directories that are searched, given `XDG_DATA_HOME`, `HOME` and `XDG_DATA_DIRS`.
pub fn standard_search_dirs(
    xdg_data_home: Option<FilePath>,
    home: Option<FilePath>,
    xdg_data_dirs: Option<String>,
) -> (r: Vec<FilePath>)
    ensures
        views(r@) == standard_dirs(
            opt_path_view(xdg_data_home),
            opt_path_view(home),
            opt_view(xdg_data_dirs),
        ),
{
    let mut dirs: Vec<FilePath> = Vec::new();
    if let Some(dir) = &xdg_data_home {
        dirs.push(dir.join_str("icons"));
    } else if let Some(home) = &home {
        dirs.push(home.join_str(".local/share/icons"));
    }
    let ghost mut done = data_home_dirs(opt_path_view(xdg_data_home), opt_path_view(home));
    assert(views(dirs@) =~= done);
    if let Some(home) = &home {
        dirs.push(home.join_str(".icons"));
    }
    proof {
        done = done + home_dirs(opt_path_view(home));
    }
    assert(views(dirs@) =~= done);
    if let Some(xdg) = &xdg_data_dirs {
        let chars = chars_of(xdg.as_str());
        let pieces = split_at_char(chars.as_slice(), ':');
        let ghost all = split(xdg@, ':');
        let mut i: usize = 0;
        assert(done + data_dirs(all.take(0)) =~= done);
        while i < pieces.len()
            invariant
                i <= pieces@.len(),
                pieces@.len() == all.len(),
                forall|k: int| 0 <= k < pieces@.len() ==> (#[trigger] pieces@[k])@ == all[k],
                views(dirs@) == done + data_dirs(all.take(i as int)),
            decreases pieces.len() - i,
        {
            let ghost before = views(dirs@);
            let ghost found = data_dirs(all.take(i as int));
            assert(all.take(i + 1).drop_last() =~= all.take(i as int));
            assert(all.take(i + 1).last() == pieces@[i as int]@);
            if pieces[i].len() > 0 {
                let dir = FilePath::new(string_of(pieces[i].as_slice()).as_str());
                let icons = dir.join_str("icons");
                let pixmaps = dir.join_str("pixmaps");
                dirs.push(icons);
                dirs.push(pixmaps);
                assert(views(dirs@) =~= before.push(icons@).push(pixmaps@));
                assert(views(dirs@) =~= done + found.push(icons@).push(pixmaps@));
            }
            i += 1;
        }
        assert(all.take(i as int) =~= all);
        proof {
            done = done + data_dirs(all);
        }
    } else {
        assert(done + Seq::<Seq<u8>>::empty() =~= done);
    }
    dirs.push(FilePath::new("/run/current-system/sw/share/icons"));
    dirs.push(FilePath::new("/run/current-system/sw/share/pixmaps"));
    dirs.push(FilePath::new("/usr/share/icons"));
    dirs.push(FilePath::new("/usr/share/pixmaps"));
    dirs.push(FilePath::new("/usr/local/share/icons"));
    dirs.push(FilePath::new("/usr/local/share/pixmaps"));
    assert(views(dirs@) =~= done + fixed_dirs());
    dirs
}

/// A directory, as a key.
pub struct DirKey {
    pub parts: Vec<Vec<u8>>,
}

impl View for DirKey {
    type V = Seq<Seq<u8>>;

    open spec fn view(&self) -> Seq<Seq<u8>> {
        byte_views(self.parts@)
    }
}

impl Rank for DirKey {
    open spec fn lt(a: Seq<Seq<u8>>, b: Seq<Seq<u8>>) -> bool {
        components_lt(a, b)
    }

    proof fn order_laws(a: Seq<Seq<u8>>, b: Seq<Seq<u8>>, c: Seq<Seq<u8>>) {
        lemma_components_laws(a, b, c);
    }

    fn before(&self, other: &Self) -> (r: bool) {
        components_before(&self.parts, &other.parts)
    }
}

pub open spec fn dir_keys(dirs: Seq<Seq<u8>>) -> Seq<Seq<Seq<u8>>> {
    Seq::new(dirs.len(), |i: int| components(dirs[i]))
}

/// The directories in path order.
pub open spec fn sorted_dirs(dirs: Seq<Seq<u8>>) -> Seq<Seq<u8>> {
    arranged(dirs, ranking::<DirKey>(dir_keys(dirs)))
}

/// The first of each run of equal directories.
pub open spec fn distinct_dirs(dirs: Seq<Seq<u8>>) -> Seq<Seq<u8>>
    decreases dirs.len(),
{
    if dirs.len() == 0 {
        Seq::empty()
    } else {
        let before = distinct_dirs(dirs.drop_last());
        if before.len() > 0 && same_path(before.last(), dirs.last()) {
            before
        } else {
            before.push(dirs.last())
        }
    }
}

/// The directories to search for icons: in path order, each once.
pub fn search_dirs(standard: Vec<FilePath>, extra_dirs: Vec<FilePath>) -> (r: Vec<FilePath>)
    ensures
        views(r@) == distinct_dirs(sorted_dirs(views(standard@) + views(extra_dirs@))),
{
    let mut dirs = standard;
    let mut extra_dirs = extra_dirs;
    let ghost all = views(dirs@) + views(extra_dirs@);
    dirs.append(&mut extra_dirs);
    assert(views(dirs@) =~= all);
    let mut keys: Vec<DirKey> = Vec::new();
    let mut i: usize = 0;
    while i < dirs.len()
        invariant
            i <= dirs@.len(),
            keys@.len() == i,
            forall|k: int| 0 <= k < i ==> (#[trigger] keys@[k])@ == components(dirs@[k]@),
        decreases dirs.len() - i,
    {
        keys.push(DirKey { parts: split_components(dirs[i].bytes.as_slice()) });
        i += 1;
    }
    let order = rank(&keys);
    assert(key_views(keys@) =~= dir_keys(all));
    let ghost source = dirs@;
    let sorted = arrange(dirs, &order);
    let ghost models = sorted_dirs(all);
    assert(views(sorted@) =~= models);
    let mut out: Vec<FilePath> = Vec::new();
    assert(models.take(0) =~= Seq::empty());
    assert(views(out@) =~= Seq::empty());
    for dir in iter: sorted
        invariant
            models == views(iter.seq()),
            views(out@) == distinct_dirs(models.take(iter.index() as int)),
    {
        let ghost i = iter.index() as int;
        assert(models.take(i + 1).drop_last() =~= models.take(i));
        assert(models.take(i + 1).last() == dir@);
        let ghost before = views(out@);
        assert(before.len() == out@.len());
        let n: usize = out.len();
        if n > 0 {
            assert(before.last() == out@[n - 1]@);
        }
        if !(n > 0 && out[n - 1].same(&dir)) {
            out.push(dir);
            assert(views(out@) =~= before.push(dir@));
        }
    }
    assert(models.take(models.len() as int) =~= models);
    out
}

proof fn lemma_distinct_dirs(dirs: Seq<Seq<u8>>)
    requires
        forall|i: int, j: int|
            0 <= i < j < dirs.len() ==> !components_lt(
                components(#[trigger] dirs[j]),
                components(#[trigger] dirs[i]),
            ),
    ensures
        dirs.len() > 0 ==> distinct_dirs(dirs).len() > 0 && same_path(
            distinct_dirs(dirs).last(),
            dirs.last(),
        ),
        forall|i: int, j: int|
            0 <= i < j < distinct_dirs(dirs).len() ==> components_lt(
                components(#[trigger] distinct_dirs(dirs)[i]),
                components(#[trigger] distinct_dirs(dirs)[j]),
            ),
    decreases dirs.len(),
{
    if dirs.len() > 0 {
        let init = dirs.drop_last();
        let before = distinct_dirs(init);
        let last = dirs.last();
        assert forall|i: int, j: int| 0 <= i < j < init.len() implies !components_lt(
            components(#[trigger] init[j]),
            components(#[trigger] init[i]),
        ) by {
            assert(init[i] == dirs[i] && init[j] == dirs[j]);
        }
        lemma_distinct_dirs(init);
        let all = distinct_dirs(dirs);
        if before.len() > 0 && !same_path(before.last(), last) {
            assert(init.last() == dirs[init.len() - 1]);
            assert(last == dirs[dirs.len() - 1]);
            lemma_components_laws(components(before.last()), components(last), components(last));
            assert(components_lt(components(before.last()), components(last)));
            assert forall|i: int, j: int| 0 <= i < j < all.len() implies components_lt(
                components(#[trigger] all[i]),
                components(#[trigger] all[j]),
            ) by {
                if j < before.len() {
                    assert(all[i] == before[i] && all[j] == before[j]);
                } else {
                    assert(all[i] == before[i] && all[j] == last);
                    let top = before[before.len() - 1];
                    if i < before.len() - 1 {
                        assert(components_lt(components(before[i]), components(top)));
                        lemma_components_laws(
                            components(before[i]),
                            components(last),
                            components(top),
                        );
                        lemma_components_laws(
                            components(before[i]),
                            components(top),
                            components(last),
                        );
                        lemma_components_laws(
                            components(last),
                            components(top),
                            components(before[i]),
                        );
                        lemma_components_laws(
                            components(top),
                            components(last),
                            components(before[i]),
                        );
                    }
                }
            }
        }
    }
}

/// The directories to search are in path order, and each is listed once.
pub proof fn law_search_dirs(dirs: Seq<Seq<u8>>, i: int, j: int)
    requires
        dirs.len() <= usize::MAX,
        0 <= i < j < distinct_dirs(sorted_dirs(dirs)).len(),
    ensures
        components_lt(
            components(distinct_dirs(sorted_dirs(dirs))[i]),
            components(distinct_dirs(sorted_dirs(dirs))[j]),
        ),
        !same_path(
            distinct_dirs(sorted_dirs(dirs))[i],
            distinct_dirs(sorted_dirs(dirs))[j],
        ),
{
    let keys = dir_keys(dirs);
    let order = ranking::<DirKey>(keys);
    let sorted = sorted_dirs(dirs);
    lemma_ranking_exists::<DirKey>(keys);
    assert forall|i: int, j: int| 0 <= i < j < sorted.len() implies !components_lt(
        components(#[trigger] sorted[j]),
        components(#[trigger] sorted[i]),
    ) by {
        assert(precedes::<DirKey>(keys, order[i] as int, order[j] as int));
        assert(sorted[i] == dirs[order[i] as int] && sorted[j] == dirs[order[j] as int]);
        lemma_components_laws(components(sorted[i]), components(sorted[j]), components(sorted[i]));
    }
    lemma_distinct_dirs(sorted);
    let a = components(distinct_dirs(sorted)[i]);
    let b = components(distinct_dirs(sorted)[j]);
    lemma_components_laws(a, b, a);
}

/// Whether the icons of a directory lie in it directly: whether it is named `pixmaps`.
pub fn is_flat_dir(dir: &FilePath) -> (r: bool)
    ensures
        r == (components(dir@).len() > 0 && components(dir@).last() == bytes_of("pixmaps"@)),
{
    let parts = split_components(dir.bytes.as_slice());
    let ghost all = byte_views(parts@);
    assert(all.len() == parts@.len());
    let n: usize = parts.len();
    if n == 0 {
        return false;
    }
    assert(all.last() == parts@[n - 1]@);
    bytes_eq(parts[n - 1].as_slice(), bytes_from("pixmaps").as_slice())
}

/// A theme, unless the list holds it already.
pub open spec fn with_theme(themes: Seq<Seq<char>>, theme: Seq<char>) -> Seq<Seq<char>> {
    if themes.contains(theme) {
        themes
    } else {
        themes.push(theme)
    }
}

/// The icon themes in order of preference: the user's own, then the usual ones.
pub open spec fn themes_after(own: Option<Seq<char>>) -> Seq<Seq<char>> {
    let first = match own {
        Some(theme) => seq![theme],
        None => Seq::empty(),
    };
    with_theme(
        with_theme(with_theme(with_theme(first, "Adwaita"@), "Papirus"@), "breeze"@),
        "hicolor"@,
    )
}

fn add_theme(themes: &mut Vec<String>, theme: &str)
    ensures
        strings_view(final(themes)@) == with_theme(strings_view(old(themes)@), theme@),
{
    let ghost before = strings_view(themes@);
    let mut i: usize = 0;
    while i < themes.len()
        invariant
            i <= themes@.len(),
            before == strings_view(themes@),
            forall|k: int| 0 <= k < i ==> (#[trigger] themes@[k])@ != theme@,
        decreases themes.len() - i,
    {
        if str_eq(themes[i].as_str(), theme) {
            assert(before[i as int] == theme@);
            return ;
        }
        i += 1;
    }
    assert(!before.contains(theme@)) by {
        assert forall|k: int| 0 <= k < before.len() implies before[k] != theme@ by {
            assert(before[k] == themes@[k]@);
        }
    }
    let chars = chars_of(theme);
    themes.push(string_of(chars.as_slice()));
    assert(strings_view(themes@) =~= before.push(theme@));
}

/// The icon themes in order of preference, given the user's own.
pub fn themes_with(own: Option<String>) -> (r: Vec<String>)
    ensures
        strings_view(r@) == themes_after(opt_view(own)),
{
    let mut themes: Vec<String> = Vec::new();
    let ghost first = match opt_view(own) {
        Some(theme) => seq![theme],
        None => Seq::empty(),
    };
    if let Some(theme) = own {
        themes.push(theme);
    }
    assert(strings_view(themes@) =~= first);
    add_theme(&mut themes, "Adwaita");
    add_theme(&mut themes, "Papirus");
    add_theme(&mut themes, "breeze");
    add_theme(&mut themes, "hicolor");
    themes
}

/// The icon themes in order of preference, given the bytes of `XDG_ICON_THEME`.
pub fn preferred_themes(xdg_icon_theme: Option<Vec<u8>>) -> (r: Vec<String>)
    ensures
        strings_view(r@) == themes_after(
            match xdg_icon_theme {
                Some(theme) => Some(lossy_utf8(theme@)),
                None => None,
            },
        ),
{
    match xdg_icon_theme {
        Some(theme) => themes_with(Some(from_utf8_lossy(theme.as_slice()))),
        None => themes_with(None),
    }
}

/// No theme is listed twice.
pub proof fn law_themes_differ(own: Option<Seq<char>>)
    ensures
        themes_after(own).no_duplicates(),
{
}

// ---------------------------------------------------------------------------
// The best file for a name
// ---------------------------------------------------------------------------

/// How good a size directory of a theme is: the closer to the size of an icon, the better.
pub open spec fn size_rank(name: Seq<char>) -> u32 {
    if name == "48x48"@ {
        10
    } else if name == "64x64"@ {
        9
    } else if name == "32x32"@ {
        8
    } else if name == "128x128"@ {
        7
    } else if name == "256x256"@ {
        6
    } else if name == "scalable"@ {
        5
    } else if name == "24x24"@ {
        4
    } else if name == "16x16"@ {
        3
    } else {
        2
    }
}

/// How good a size directory of a theme is.
pub fn size_priority(name: &str) -> (r: u32)
    ensures
        r == size_rank(name@),
{
    if str_eq(name, "48x48") {
        10
    } else if str_eq(name, "64x64") {
        9
    } else if str_eq(name, "32x32") {
        8
    } else if str_eq(name, "128x128") {
        7
    } else if str_eq(name, "256x256") {
        6
    } else if str_eq(name, "scalable") {
        5
    } else if str_eq(name, "24x24") {
        4
    } else if str_eq(name, "16x16") {
        3
    } else {
        2
    }
}

/// How good a file type is, given the extension in lower case.
pub open spec fn type_rank(ext: Seq<char>) -> Option<u32> {
    if ext == "png"@ {
        Some(30u32)
    } else if ext == "jpg"@ || ext == "jpeg"@ {
        Some(20u32)
    } else if ext == "svg"@ {
        Some(15u32)
    } else {
        None
    }
}

/// The name of the icon in a file, and how good its type is.
pub open spec fn stem_and_rank(path: Seq<u8>) -> Option<(Seq<char>, u32)> {
    match (file_stem(path), extension(path)) {
        (Some(stem), Some(ext)) => match (decoded(stem), decoded(ext)) {
            (Some(stem), Some(ext)) => match type_rank(ascii_lowered(ext)) {
                Some(rank) => Some((stem, rank)),
                None => None,
            },
            _ => None,
        },
        _ => None,
    }
}

/// The extension of a path in lower case.
fn lower_extension(path: &FilePath) -> (r: Option<Vec<char>>)
    ensures
        (match r {
            Some(ext) => Some(ext@),
            None => None,
        }) == lowered_extension(path@),
{
    let ext = match path.extension() {
        Some(ext) => ext,
        None => return None,
    };
    let ext = match from_utf8(ext) {
        Some(ext) => ext,
        None => return None,
    };
    let chars = chars_of(ext.as_str());
    let mut lowered: Vec<char> = Vec::new();
    let mut i: usize = 0;
    while i < chars.len()
        invariant
            i <= chars@.len(),
            lowered@ == ascii_lowered(chars@).take(i as int),
        decreases chars.len() - i,
    {
        lowered.push(to_ascii_lower(chars[i]));
        i += 1;
        assert(lowered@ =~= ascii_lowered(chars@).take(i as int));
    }
    assert(ascii_lowered(chars@).take(i as int) =~= ascii_lowered(chars@));
    Some(lowered)
}

/// The extension of a path in lower case, if it has one that is valid text.
pub open spec fn lowered_extension(path: Seq<u8>) -> Option<Seq<char>> {
    match extension(path) {
        Some(ext) => match decoded(ext) {
            Some(ext) => Some(ascii_lowered(ext)),
            None => None,
        },
        None => None,
    }
}

/// The name of the icon in a file, and how good its type is.
pub fn stem_and_ext_priority(path: &FilePath) -> (r: Option<(String, u32)>)
    ensures
        stem_and_rank(path@) == (match r {
            Some((stem, rank)) => Some((stem@, rank)),
            None => None,
        }),
{
    let stem = match path.file_stem() {
        Some(stem) => stem,
        None => return None,
    };
    let stem = match from_utf8(stem) {
        Some(stem) => stem,
        None => return None,
    };
    let ext = match lower_extension(path) {
        Some(ext) => ext,
        None => return None,
    };
    if chars_eq_str(ext.as_slice(), "png") {
        Some((stem, 30))
    } else if chars_eq_str(ext.as_slice(), "jpg") || chars_eq_str(ext.as_slice(), "jpeg") {
        Some((stem, 20))
    } else if chars_eq_str(ext.as_slice(), "svg") {
        Some((stem, 15))
    } else {
        None
    }
}

/// Where an icon file was found: in a theme, below a size directory with the given name, or
/// in a flat directory.
#[derive(Debug)]
pub enum Place {
    Themed(Vec<u8>),
    Pixmap,
}

/// The model of a [`Place`].
pub enum PlaceModel {
    Themed(Seq<u8>),
    Pixmap,
}

impl View for Place {
    type V = PlaceModel;

    open spec fn view(&self) -> PlaceModel {
        match self {
            Place::Themed(size) => PlaceModel::Themed(size@),
            Place::Pixmap => PlaceModel::Pixmap,
        }
    }
}

/// An icon file.
#[derive(Debug)]
pub struct IconFile {
    pub path: FilePath,
    pub place: Place,
}

/// The model of an [`IconFile`].
pub struct IconFileModel {
    pub path: Seq<u8>,
    pub place: PlaceModel,
}

impl View for IconFile {
    type V = IconFileModel;

    open spec fn view(&self) -> IconFileModel {
        IconFileModel { path: self.path@, place: self.place@ }
    }
}

/// How good a place is; nothing where the size directory has no valid name.
pub open spec fn place_rank(place: PlaceModel) -> Option<u32> {
    match place {
        PlaceModel::Themed(size) => match decoded(size) {
            Some(name) => Some((size_rank(name) * 100) as u32),
            None => None,
        },
        PlaceModel::Pixmap => Some(100u32),
    }
}

/// How much better a raster file is than an SVG file: so much that the best SVG file is below
/// every raster file.
pub const RASTER_BONUS: u32 = 2000;

/// How good a file is, and the name of the icon in it.
pub open spec fn candidate(file: IconFileModel) -> Option<(Seq<char>, u32)> {
    match (place_rank(file.place), stem_and_rank(file.path)) {
        (Some(place), Some((stem, rank))) => if names_svg(file.path) {
            Some((stem, (place + rank) as u32))
        } else {
            Some((stem, (RASTER_BONUS + place + rank) as u32))
        },
        _ => None,
    }
}

/// The file for a name, and how good it is.
#[derive(Debug)]
pub struct Best {
    pub prio: u32,
    pub path: FilePath,
}

/// The model of a [`Best`].
pub struct BestModel {
    pub prio: u32,
    pub path: Seq<u8>,
}

impl View for Best {
    type V = BestModel;

    open spec fn view(&self) -> BestModel {
        BestModel { prio: self.prio, path: self.path@ }
    }
}

/// For each name the best of the files with that name, the first of several equally good.
pub open spec fn best_files(files: Seq<IconFileModel>) -> Map<Seq<char>, BestModel>
    decreases files.len(),
{
    if files.len() == 0 {
        Map::empty()
    } else {
        let before = best_files(files.drop_last());
        match candidate(files.last()) {
            Some((stem, prio)) => if before.dom().contains(stem) && before[stem].prio >= prio {
                before
            } else {
                before.insert(stem, BestModel { prio, path: files.last().path })
            },
            None => before,
        }
    }
}

/// How good a file is, and the name of the icon in it.
fn rate(file: &IconFile) -> (r: Option<(String, u32)>)
    ensures
        candidate(file@) == (match r {
            Some((stem, prio)) => Some((stem@, prio)),
            None => None,
        }),
{
    let place: u32 = match &file.place {
        Place::Themed(size) => match from_utf8(slice_to_vec(size.as_slice())) {
            Some(name) => size_priority(name.as_str()) * 100,
            None => return None,
        },
        Place::Pixmap => 100,
    };
    match stem_and_ext_priority(&file.path) {
        Some((stem, rank)) => if is_svg(&file.path) {
            Some((stem, place + rank))
        } else {
            Some((stem, RASTER_BONUS + place + rank))
        },
        None => None,
    }
}

/// Which file holds the icon with a name.
pub struct Resolver {
    pub index: StringHashMap<Best>,
}

/// A name without the extension of an image file.
pub open spec fn bare_name(name: Seq<char>) -> Seq<char> {
    match rsplit_once(name, '.') {
        Some((stem, ext)) => if ext == "png"@ || ext == "PNG"@ || ext == "jpg"@ || ext == "JPG"@
            || ext == "jpeg"@ || ext == "svg"@ || ext == "xpm"@ {
            stem
        } else {
            name
        },
        None => name,
    }
}

/// A name without the extension of an image file.
pub fn strip_known_ext(name: &str) -> (r: String)
    ensures
        r@ == bare_name(name@),
{
    let chars = chars_of(name);
    if let Some(i) = index_of_last(chars.as_slice(), '.') {
        let n: usize = chars.len();
        let ext = slice_subrange(chars.as_slice(), i + 1, n);
        assert(ext@ =~= chars@.skip(i + 1));
        if chars_eq_str(ext, "png") || chars_eq_str(ext, "PNG") || chars_eq_str(ext, "jpg")
            || chars_eq_str(ext, "JPG") || chars_eq_str(ext, "jpeg") || chars_eq_str(ext, "svg")
            || chars_eq_str(ext, "xpm") {
            let stem = slice_subrange(chars.as_slice(), 0, i);
            assert(stem@ =~= chars@.take(i as int));
            return string_of(stem);
        }
    }
    string_of(chars.as_slice())
}

/// The file for a name: the name itself where it is an absolute path that exists, else the
/// best file with the name.
pub open spec fn resolved(
    index: Map<Seq<char>, Seq<u8>>,
    name: Seq<char>,
    exists: bool,
) -> Option<Seq<u8>> {
    if name.len() == 0 {
        None
    } else if name[0] == '/' && exists {
        Some(bytes_of(name))
    } else if index.dom().contains(bare_name(name)) {
        Some(index[bare_name(name)])
    } else {
        None
    }
}

/// The paths of the best files.
pub open spec fn best_paths(best: Map<Seq<char>, BestModel>) -> Map<Seq<char>, Seq<u8>> {
    Map::new(|name: Seq<char>| best.dom().contains(name), |name: Seq<char>| best[name].path)
}

impl View for Resolver {
    type V = Map<Seq<char>, Seq<u8>>;

    open spec fn view(&self) -> Map<Seq<char>, Seq<u8>> {
        Map::new(
            |name: Seq<char>| self.index@.dom().contains(name),
            |name: Seq<char>| self.index@[name].path@,
        )
    }
}

/// Whether a map of files is the given one.
spec fn holds(index: Map<Seq<char>, Best>, best: Map<Seq<char>, BestModel>) -> bool {
    &&& index.dom() == best.dom()
    &&& forall|name: Seq<char>|
        best.dom().contains(name) ==> (#[trigger] index[name])@ == best[name]
}

impl Resolver {
    /// The resolver for the icon files that were found, in the order in which they were.
    pub fn build(files: Vec<IconFile>) -> (r: Self)
        ensures
            r@ == best_paths(best_files(views(files@))),
    {
        let ghost source = views(files@);
        let mut index: StringHashMap<Best> = StringHashMap::new();
        assert(source.take(0) =~= Seq::empty());
        assert(index@.dom() =~= best_files(source.take(0)).dom());
        for file in iter: files
            invariant
                source == views(iter.seq()),
                holds(index@, best_files(source.take(iter.index() as int))),
        {
            let ghost i = iter.index() as int;
            let ghost before = best_files(source.take(i));
            assert(source.take(i + 1).drop_last() =~= source.take(i));
            assert(source.take(i + 1).last() == file@);
            if let Some((stem, prio)) = rate(&file) {
                let better = match index.get(stem.as_str()) {
                    Some(best) => best.prio < prio,
                    None => true,
                };
                if better {
                    let ghost after = before.insert(stem@, BestModel { prio, path: file@.path });
                    index.insert(stem, Best { prio, path: file.path });
                    assert(best_files(source.take(i + 1)) == after);
                    assert(index@.dom() =~= after.dom());
                }
            }
        }
        assert(source.take(source.len() as int) =~= source);
        let r = Resolver { index };
        assert(r@ =~= best_paths(best_files(source)));
        r
    }

    /// The file for a name. `exists` says whether there is a file with the name as its path.
    pub fn resolve(&self, name: &str, exists: bool) -> (r: Option<FilePath>)
        ensures
            opt_path_view(r) == resolved(self@, name@, exists),
    {
        let chars = chars_of(name);
        if chars.len() == 0 {
            return None;
        }
        if chars[0] == '/' && exists {
            return Some(FilePath::new(name));
        }
        let bare = strip_known_ext(name);
        match self.index.get(bare.as_str()) {
            Some(best) => Some(best.path.clone()),
            None => None,
        }
    }
}

/// Whether a file holds an icon with the name.
pub open spec fn has_name(file: IconFileModel, name: Seq<char>) -> bool {
    candidate(file) matches Some(c) && c.0 == name
}

/// How good a file is.
pub open spec fn rating(file: IconFileModel) -> int {
    match candidate(file) {
        Some(c) => c.1 as int,
        None => 0,
    }
}

/// Every file in a theme ranks above every file in a flat directory, but for SVG files, which
/// rank below all raster files.
pub proof fn law_pixmaps_rank_below(themed: IconFileModel, flat: IconFileModel)
    requires
        themed.place is Themed,
        flat.place is Pixmap,
        candidate(themed) is Some,
        candidate(flat) is Some,
        names_svg(themed.path) ==> names_svg(flat.path),
    ensures
        rating(flat) < rating(themed),
{
}

/// Whether the file at `i` has the name, none with the name is better, and none before it is
/// as good.
pub open spec fn is_first_best(files: Seq<IconFileModel>, name: Seq<char>, i: int) -> bool {
    &&& 0 <= i < files.len()
    &&& has_name(files[i], name)
    &&& forall|k: int|
        0 <= k < files.len() && #[trigger] has_name(files[k], name) ==> rating(files[k]) <= rating(
            files[i],
        ) && (k < i ==> rating(files[k]) < rating(files[i]))
}

proof fn lemma_best_file(files: Seq<IconFileModel>, name: Seq<char>) -> (best: int)
    ensures
        best_files(files).dom().contains(name) ==> is_first_best(files, name, best)
            && best_files(files)[name] == (BestModel {
            prio: rating(files[best]) as u32,
            path: files[best].path,
        }),
        !best_files(files).dom().contains(name) ==> forall|k: int|
            0 <= k < files.len() ==> !#[trigger] has_name(files[k], name),
    decreases files.len(),
{
    if files.len() == 0 {
        0
    } else {
        let init = files.drop_last();
        let last = files.len() - 1;
        let before = best_files(init);
        let i = lemma_best_file(init, name);
        assert forall|k: int| 0 <= k < init.len() implies #[trigger] files[k] == init[k] by {}
        let better = has_name(files[last], name) && !(before.dom().contains(name)
            && before[name].prio >= rating(files[last]));
        if better {
            assert forall|k: int| 0 <= k < files.len() && #[trigger] has_name(
                files[k],
                name,
            ) implies rating(files[k]) <= rating(files[last]) && (k < last ==> rating(files[k])
                < rating(files[last])) by {
                if k < last {
                    assert(has_name(init[k], name));
                }
            }
            last
        } else {
            if before.dom().contains(name) {
                assert(files[i] == init[i]);
                assert forall|k: int| 0 <= k < files.len() && #[trigger] has_name(
                    files[k],
                    name,
                ) implies rating(files[k]) <= rating(files[i]) && (k < i ==> rating(files[k])
                    < rating(files[i])) by {
                    if k < last {
                        assert(has_name(init[k], name));
                    }
                }
            } else {
                assert forall|k: int| 0 <= k < files.len() implies !#[trigger] has_name(
                    files[k],
                    name,
                ) by {
                    if k < last {
                        assert(!has_name(init[k], name));
                    }
                }
            }
            i
        }
    }
}

/// The file for a name is one of those with that name, no file with that name is better,
/// and none that came before it is as good. A name has no file only where no file has the
/// name.
pub proof fn law_best_file(files: Seq<IconFileModel>, name: Seq<char>)
    ensures
        best_files(files).dom().contains(name) ==> exists|i: int|
            #[trigger] is_first_best(files, name, i) && best_files(files)[name].path
                == files[i].path,
        !best_files(files).dom().contains(name) ==> forall|k: int|
            0 <= k < files.len() ==> !#[trigger] has_name(files[k], name),
{
    let best = lemma_best_file(files, name);
}

/// An SVG file is the one for a name only where no raster file has the name.
pub proof fn law_raster_files_come_first(files: Seq<IconFileModel>, name: Seq<char>, k: int)
    requires
        0 <= k < files.len(),
        has_name(files[k], name),
        !names_svg(files[k].path),
    ensures
        best_files(files).dom().contains(name),
        !names_svg(best_files(files)[name].path),
{
    let best = lemma_best_file(files, name);
    assert(has_name(files[best], name));
    assert(rating(files[k]) <= rating(files[best]));
}

/// Every directory is among those that are kept, and none is added.
proof fn lemma_distinct_covers(dirs: Seq<Seq<u8>>)
    ensures
        forall|key: Seq<Seq<u8>>|
            #[trigger] dir_keys(distinct_dirs(dirs)).contains(key) <==> dir_keys(dirs).contains(key),
    decreases dirs.len(),
{
    if dirs.len() > 0 {
        let init = dirs.drop_last();
        let before = distinct_dirs(init);
        let last = components(dirs.last());
        lemma_distinct_covers(init);
        assert(dir_keys(dirs) =~= dir_keys(init).push(last));
        if before.len() > 0 && same_path(before.last(), dirs.last()) {
            assert(dir_keys(before)[before.len() - 1] == last);
            assert(dir_keys(before).contains(last));
        } else {
            assert(dir_keys(distinct_dirs(dirs)) =~= dir_keys(before).push(last));
        }
        assert forall|key: Seq<Seq<u8>>|
            #[trigger] dir_keys(distinct_dirs(dirs)).contains(key) <==> dir_keys(dirs).contains(
                key,
            ) by {
            lemma_push_contains(dir_keys(init), last, key);
            lemma_push_contains(dir_keys(before), last, key);
        }
    } else {
        assert(distinct_dirs(dirs) =~= dirs);
    }
}

proof fn lemma_push_contains<T>(s: Seq<T>, x: T, y: T)
    ensures
        s.push(x).contains(y) <==> s.contains(y) || x == y,
{
    assert(s.push(x)[s.len() as int] == x);
    if s.contains(y) {
        let i = choose|i: int| 0 <= i < s.len() && s[i] == y;
        assert(s.push(x)[i] == y);
    }
}

/// Sorting keeps the directories.
proof fn lemma_sorted_covers(dirs: Seq<Seq<u8>>)
    requires
        dirs.len() <= usize::MAX,
    ensures
        forall|key: Seq<Seq<u8>>|
            #[trigger] dir_keys(sorted_dirs(dirs)).contains(key) <==> dir_keys(dirs).contains(key),
{
    let keys = dir_keys(dirs);
    let order = ranking::<DirKey>(keys);
    let sorted = sorted_dirs(dirs);
    lemma_ranking_exists::<DirKey>(keys);
    lemma_ranking_covers::<DirKey>(keys, order);
    assert forall|key: Seq<Seq<u8>>|
        #[trigger] dir_keys(sorted).contains(key) <==> keys.contains(key) by {
        if dir_keys(sorted).contains(key) {
            let i = choose|i: int| 0 <= i < sorted.len() && dir_keys(sorted)[i] == key;
            assert(keys[order[i] as int] == key);
        }
        if keys.contains(key) {
            let p = choose|p: int| 0 <= p < keys.len() && keys[p] == key;
            assert(order.contains(p as usize));
            let i = choose|i: int| 0 <= i < order.len() && order[i] == p as usize;
            assert(dir_keys(sorted)[i] == key);
        }
    }
}

/// Whether each of the keys comes before those behind it.
spec fn is_ascending(keys: Seq<Seq<Seq<u8>>>) -> bool {
    forall|i: int, j: int|
        0 <= i < j < keys.len() ==> components_lt(#[trigger] keys[i], #[trigger] keys[j])
}

/// Keys in order are fixed by which there are.
proof fn lemma_ascending_unique(a: Seq<Seq<Seq<u8>>>, b: Seq<Seq<Seq<u8>>>)
    requires
        is_ascending(a),
        is_ascending(b),
        forall|key: Seq<Seq<u8>>| #[trigger] a.contains(key) <==> b.contains(key),
    ensures
        a == b,
    decreases a.len(),
{
    if a.len() == 0 {
        if b.len() > 0 {
            assert(b.contains(b[0]));
            assert(a.contains(b[0]));
        }
        assert(a =~= b);
    } else {
        assert(a.contains(a.last()));
        let j = choose|j: int| 0 <= j < b.len() && b[j] == a.last();
        assert(b.contains(b.last()));
        assert(a.contains(b.last()));
        let i = choose|i: int| 0 <= i < a.len() && a[i] == b.last();
        lemma_components_laws(a.last(), b.last(), a.last());
        if a.last() != b.last() {
            assert(components_lt(a[i], a[a.len() - 1]));
            assert(components_lt(b[j], b[b.len() - 1]));
        }
        let x = a.drop_last();
        let y = b.drop_last();
        let last = a.last();
        assert(a =~= x.push(last));
        assert(b =~= y.push(last));
        assert forall|key: Seq<Seq<u8>>| #[trigger] x.contains(key) <==> y.contains(key) by {
            lemma_push_contains(x, last, key);
            lemma_push_contains(y, last, key);
            assert(a.contains(key) <==> b.contains(key));
            lemma_components_laws(last, last, last);
            if x.contains(key) && key == last {
                let k = choose|k: int| 0 <= k < x.len() && x[k] == key;
                assert(components_lt(a[k], a[a.len() - 1]));
            }
            if y.contains(key) && key == last {
                let k = choose|k: int| 0 <= k < y.len() && y[k] == key;
                assert(components_lt(b[k], b[b.len() - 1]));
            }
        }
        assert forall|i: int, j: int| 0 <= i < j < x.len() implies components_lt(
            #[trigger] x[i],
            #[trigger] x[j],
        ) by {
            assert(components_lt(a[i], a[j]));
        }
        assert forall|i: int, j: int| 0 <= i < j < y.len() implies components_lt(
            #[trigger] y[i],
            #[trigger] y[j],
        ) by {
            assert(components_lt(b[i], b[j]));
        }
        lemma_ascending_unique(x, y);
    }
}

/// Whether two lists hold the same directories, in whatever order and however often.
pub open spec fn same_dirs(a: Seq<Seq<u8>>, b: Seq<Seq<u8>>) -> bool {
    forall|key: Seq<Seq<u8>>| #[trigger] dir_keys(a).contains(key) <==> dir_keys(b).contains(key)
}

/// The order of the directories and repeats among them change nothing: the same directories
/// are searched, in the same order.
pub proof fn law_dir_order_is_free(a: Seq<Seq<u8>>, b: Seq<Seq<u8>>)
    requires
        a.len() <= usize::MAX,
        b.len() <= usize::MAX,
        same_dirs(a, b),
    ensures
        dir_keys(distinct_dirs(sorted_dirs(a))) == dir_keys(distinct_dirs(sorted_dirs(b))),
{
    let x = distinct_dirs(sorted_dirs(a));
    let y = distinct_dirs(sorted_dirs(b));
    lemma_sorted_covers(a);
    lemma_sorted_covers(b);
    lemma_distinct_covers(sorted_dirs(a));
    lemma_distinct_covers(sorted_dirs(b));
    assert forall|i: int, j: int| 0 <= i < j < x.len() implies components_lt(
        #[trigger] dir_keys(x)[i],
        #[trigger] dir_keys(x)[j],
    ) by {
        law_search_dirs(a, i, j);
    }
    assert forall|i: int, j: int| 0 <= i < j < y.len() implies components_lt(
        #[trigger] dir_keys(y)[i],
        #[trigger] dir_keys(y)[j],
    ) by {
        law_search_dirs(b, i, j);
    }
    assert forall|key: Seq<Seq<u8>>|
        #[trigger] dir_keys(x).contains(key) <==> dir_keys(y).contains(key) by {
        assert(dir_keys(sorted_dirs(a)).contains(key) <==> dir_keys(a).contains(key));
        assert(dir_keys(sorted_dirs(b)).contains(key) <==> dir_keys(b).contains(key));
        assert(dir_keys(a).contains(key) <==> dir_keys(b).contains(key));
    }
    lemma_ascending_unique(dir_keys(x), dir_keys(y));
}

/// Whether two lists hold the same files, however their paths are spelled.
pub open spec fn same_files(a: Seq<IconFileModel>, b: Seq<IconFileModel>) -> bool {
    &&& a.len() == b.len()
    &&& forall|i: int|
        0 <= i < a.len() ==> same_path((#[trigger] a[i]).path, b[i].path) && a[i].place
            == b[i].place
}

/// The files in a list of directories, given those in each.
pub open spec fn files_in(
    dirs: Seq<Seq<u8>>,
    listing: spec_fn(Seq<u8>) -> Seq<IconFileModel>,
) -> Seq<IconFileModel>
    decreases dirs.len(),
{
    if dirs.len() == 0 {
        Seq::empty()
    } else {
        files_in(dirs.drop_last(), listing) + listing(dirs.last())
    }
}

/// Whether two spellings of a directory list the same files.
pub open spec fn is_listing(listing: spec_fn(Seq<u8>) -> Seq<IconFileModel>) -> bool {
    forall|a: Seq<u8>, b: Seq<u8>|
        same_path(a, b) ==> same_files(#[trigger] listing(a), #[trigger] listing(b))
}

proof fn lemma_files_in(
    a: Seq<Seq<u8>>,
    b: Seq<Seq<u8>>,
    listing: spec_fn(Seq<u8>) -> Seq<IconFileModel>,
)
    requires
        is_listing(listing),
        dir_keys(a) == dir_keys(b),
    ensures
        same_files(files_in(a, listing), files_in(b, listing)),
    decreases a.len(),
{
    assert(a.len() == dir_keys(a).len());
    assert(b.len() == dir_keys(b).len());
    if a.len() > 0 {
        let n = a.len() - 1;
        assert(dir_keys(a.drop_last()) =~= dir_keys(a).drop_last());
        assert(dir_keys(b.drop_last()) =~= dir_keys(b).drop_last());
        lemma_files_in(a.drop_last(), b.drop_last(), listing);
        assert(dir_keys(a)[n] == dir_keys(b)[n]);
        assert(same_path(a.last(), b.last()));
        let x = files_in(a.drop_last(), listing);
        let y = files_in(b.drop_last(), listing);
        assert(same_files(listing(a.last()), listing(b.last())));
        let p = files_in(a, listing);
        let q = files_in(b, listing);
        assert forall|i: int| 0 <= i < p.len() implies same_path((#[trigger] p[i]).path, q[i].path)
            && p[i].place == q[i].place by {
            if i < x.len() {
                assert(p[i] == x[i] && q[i] == y[i]);
            } else {
                assert(p[i] == listing(a.last())[i - x.len()]);
                assert(q[i] == listing(b.last())[i - x.len()]);
            }
        }
    }
}

/// Whether two maps hold the same files for the same names, however their paths are spelled.
spec fn same_best(a: Map<Seq<char>, BestModel>, b: Map<Seq<char>, BestModel>) -> bool {
    &&& forall|name: Seq<char>| #[trigger] a.dom().contains(name) <==> b.dom().contains(name)
    &&& forall|name: Seq<char>|
        #[trigger] a.dom().contains(name) ==> a[name].prio == b[name].prio && same_path(
            a[name].path,
            b[name].path,
        )
}

proof fn lemma_same_best(a: Seq<IconFileModel>, b: Seq<IconFileModel>)
    requires
        same_files(a, b),
    ensures
        same_best(best_files(a), best_files(b)),
    decreases a.len(),
{
    if a.len() > 0 {
        let x = a.drop_last();
        let y = b.drop_last();
        assert forall|i: int| 0 <= i < x.len() implies same_path((#[trigger] x[i]).path, y[i].path)
            && x[i].place == y[i].place by {
            assert(same_path(a[i].path, b[i].path));
        }
        lemma_same_best(x, y);
        let n = a.len() - 1;
        assert(same_path(a[n].path, b[n].path));
        assert(file_name(a[n].path) == file_name(b[n].path));
        assert(stem_and_rank(a[n].path) == stem_and_rank(b[n].path));
        assert(candidate(a.last()) == candidate(b.last()));
        if let Some((stem, prio)) = candidate(a.last()) {
            assert(best_files(x).dom().contains(stem) <==> best_files(y).dom().contains(stem));
        }
    }
}

/// Whether two results are the same file, however its path is spelled.
pub open spec fn same_result(a: Option<Seq<u8>>, b: Option<Seq<u8>>) -> bool {
    match (a, b) {
        (Some(a), Some(b)) => same_path(a, b),
        (None, None) => true,
        _ => false,
    }
}

/// The order of the extra directories and repeats among them change no icon: every name leads
/// to the same file. `listing` gives the files in a directory.
pub proof fn law_extra_dirs_order_is_free(
    standard: Seq<Seq<u8>>,
    a: Seq<Seq<u8>>,
    b: Seq<Seq<u8>>,
    listing: spec_fn(Seq<u8>) -> Seq<IconFileModel>,
    name: Seq<char>,
    exists_as_path: bool,
)
    requires
        standard.len() + a.len() <= usize::MAX,
        standard.len() + b.len() <= usize::MAX,
        same_dirs(a, b),
        is_listing(listing),
    ensures
        ({
            let x = files_in(distinct_dirs(sorted_dirs(standard + a)), listing);
            let y = files_in(distinct_dirs(sorted_dirs(standard + b)), listing);
            same_result(
                resolved(best_paths(best_files(x)), name, exists_as_path),
                resolved(best_paths(best_files(y)), name, exists_as_path),
            )
        }),
{
    let p = standard + a;
    let q = standard + b;
    assert(dir_keys(p) =~= dir_keys(standard) + dir_keys(a));
    assert(dir_keys(q) =~= dir_keys(standard) + dir_keys(b));
    assert forall|key: Seq<Seq<u8>>| #[trigger] dir_keys(p).contains(key) <==> dir_keys(q).contains(
        key,
    ) by {
        lemma_concat_contains(dir_keys(standard), dir_keys(a), key);
        lemma_concat_contains(dir_keys(standard), dir_keys(b), key);
        assert(dir_keys(a).contains(key) <==> dir_keys(b).contains(key));
    }
    law_dir_order_is_free(p, q);
    let dirs = distinct_dirs(sorted_dirs(p));
    let others = distinct_dirs(sorted_dirs(q));
    lemma_files_in(dirs, others, listing);
    let x = files_in(dirs, listing);
    let y = files_in(others, listing);
    lemma_same_best(x, y);
    assert(best_files(x).dom().contains(bare_name(name)) <==> best_files(y).dom().contains(
        bare_name(name),
    ));
}

proof fn lemma_concat_contains<T>(a: Seq<T>, b: Seq<T>, x: T)
    ensures
        (a + b).contains(x) <==> a.contains(x) || b.contains(x),
{
    if a.contains(x) {
        let i = choose|i: int| 0 <= i < a.len() && a[i] == x;
        assert((a + b)[i] == x);
    }
    if b.contains(x) {
        let i = choose|i: int| 0 <= i < b.len() && b[i] == x;
        assert((a + b)[a.len() + i] == x);
    }
}

// ---------------------------------------------------------------------------
// Pixels
// ---------------------------------------------------------------------------

/// A colour value scaled by an alpha value.
pub open spec fn scaled(c: int, a: int) -> int {
    (c * a) / 255
}

/// The pixels, four bytes each, with red, green and blue scaled by alpha. Bytes after the
/// last whole pixel stay.
pub open spec fn premultiplied(rgba: Seq<u8>) -> Seq<u8> {
    Seq::new(
        rgba.len(),
        |i: int|
            if i % 4 == 3 || i >= 4 * (rgba.len() as int / 4) {
                rgba[i]
            } else {
                scaled(rgba[i] as int, rgba[4 * (i / 4) + 3] as int) as u8
            },
    )
}

proof fn lemma_scaled(c: u8, a: u8)
    ensures
        0 <= scaled(c as int, a as int) <= a,
        c as int * a as int <= 65025,
{
    assert(0 <= c * a <= 255 * a) by (nonlinear_arith)
        requires
            0 <= c <= 255,
            0 <= a,
    ;
}

fn scale(c: u8, a: u8) -> (r: u8)
    ensures
        r == scaled(c as int, a as int),
{
    proof {
        lemma_scaled(c, a);
    }
    ((c as u32 * a as u32) / 255) as u8
}

/// Scales red, green and blue of each pixel by its alpha.
pub fn premultiply(rgba: &mut Vec<u8>)
    ensures
        final(rgba)@ == premultiplied(old(rgba)@),
{
    let ghost source = rgba@;
    let n: usize = rgba.len();
    let mut p: usize = 0;
    while n - p >= 4
        invariant
            p <= n,
            p % 4 == 0,
            n == source.len(),
            rgba@.len() == n,
            forall|i: int| 0 <= i < p ==> #[trigger] rgba@[i] == premultiplied(source)[i],
            forall|i: int| p <= i < n ==> #[trigger] rgba@[i] == source[i],
        decreases n - p,
    {
        let a = rgba[p + 3];
        let ghost before = rgba@;
        assert(before[p as int] == source[p as int]);
        assert(before[p + 1] == source[p + 1]);
        assert(before[p + 2] == source[p + 2]);
        assert(before[p + 3] == source[p + 3]);
        let red = scale(rgba[p], a);
        let green = scale(rgba[p + 1], a);
        let blue = scale(rgba[p + 2], a);
        rgba.set(p, red);
        rgba.set(p + 1, green);
        rgba.set(p + 2, blue);
        assert forall|i: int| 0 <= i < p + 4 implies #[trigger] rgba@[i] == premultiplied(
            source,
        )[i] by {
            if i < p {
                assert(rgba@[i] == before[i]);
            } else {
                assert(4 * (i / 4) == p);
            }
        }
        p += 4;
    }
    assert forall|i: int| 0 <= i < n implies #[trigger] rgba@[i] == premultiplied(source)[i] by {
        if i >= p {
            assert(i >= 4 * (n as int / 4));
        }
    }
    assert(rgba@ =~= premultiplied(source));
}

/// Whether no colour value of a pixel exceeds its alpha.
pub open spec fn within_alpha(rgba: Seq<u8>) -> bool {
    forall|i: int| 0 <= i < 4 * (rgba.len() as int / 4) ==> #[trigger] rgba[i] <= rgba[4 * (i / 4) + 3]
}

/// After scaling, no colour value exceeds its alpha, and the alphas are what they were.
pub proof fn law_premultiplied(rgba: Seq<u8>)
    ensures
        within_alpha(premultiplied(rgba)),
        forall|i: int|
            0 <= i < rgba.len() && i % 4 == 3 ==> #[trigger] premultiplied(rgba)[i] == rgba[i],
{
    let out = premultiplied(rgba);
    assert forall|i: int| 0 <= i < 4 * (rgba.len() as int / 4) implies #[trigger] out[i] <= out[4 * (
    i / 4) + 3] by {
        let a = 4 * (i / 4) + 3;
        assert(a % 4 == 3);
        assert(out[a] == rgba[a]);
        lemma_scaled(rgba[i], rgba[a]);
    }
}

/// What decoding a file of the given type comes to: the width and height of its picture and
/// its pixels, four bytes each.
pub uninterp spec fn decoded_picture(ext: Seq<char>, bytes: Seq<u8>) -> Option<
    (u32, u32, Seq<u8>),
>;

/// The pixels of a PNG file whose picture has the size of an icon already.
pub open spec fn fitting_pixels(ext: Seq<char>, bytes: Seq<u8>, size: u32) -> Option<Seq<u8>> {
    match decoded_picture(ext, bytes) {
        Some((w, h, pixels)) => if ascii_lowered(ext) == "png"@ && w == size && h == size {
            Some(pixels)
        } else {
            None
        },
        None => None,
    }
}

/// Calls `image::ImageFormat::from_extension` for the type, `image::ImageReader::decode` on
/// the bytes, and on its result `image::DynamicImage::resize_exact` with the filter
/// `Lanczos3` and `to_rgba8`. The claim is that the type and the bytes decide whether this
/// succeeds, that a result holds four bytes for each pixel of the size asked for, and that a
/// PNG file that has this size keeps its pixels. The values of the bytes are left unsaid
/// where the size changes, since the filter's kernel is a sine in floating point, whose last
/// bits differ from machine to machine, and of JPEG files, which are decoded by instructions
/// that differ from machine to machine.
#[verifier::external_body]
fn decode_resized(ext: &str, bytes: &[u8], size: u32) -> (r: Option<Vec<u8>>)
    requires
        0 < size <= 4096,
    ensures
        r is Some <==> decoded_picture(ext@, bytes@) is Some,
        r matches Some(rgba) ==> rgba@.len() == 4 * size * size,
        r matches Some(rgba) ==> (fitting_pixels(ext@, bytes@, size) matches Some(pixels) ==> rgba@
            == pixels),
{
    let format = ImageFormat::from_extension(ext)?;
    let reader = ImageReader::with_format(std::io::Cursor::new(bytes), format);
    let decoded = reader.decode().ok()?;
    let resized = decoded.resize_exact(size, size, FilterType::Lanczos3);
    Some(resized.to_rgba8().into_raw())
}

/// Whether a path names an SVG file.
pub open spec fn names_svg(path: Seq<u8>) -> bool {
    lowered_extension(path) == Some("svg"@)
}

/// Whether a path names an SVG file.
pub fn is_svg(path: &FilePath) -> (r: bool)
    ensures
        r == names_svg(path@),
{
    match lower_extension(path) {
        Some(ext) => chars_eq_str(ext.as_slice(), "svg"),
        None => false,
    }
}

/// The extension of a path, if it has one that is valid text.
pub open spec fn text_extension(path: Seq<u8>) -> Option<Seq<char>> {
    match extension(path) {
        Some(ext) => decoded(ext),
        None => None,
    }
}

/// Whether the pixels in a file that is no SVG file can be had.
pub open spec fn raster_loads(path: Seq<u8>, bytes: Seq<u8>) -> bool {
    match text_extension(path) {
        Some(ext) => decoded_picture(ext, bytes) is Some,
        None => false,
    }
}

/// The pixels of an icon, with the colours scaled by alpha, come from a file: from those in
/// it, where it is a PNG file of the size of an icon.
pub open spec fn are_pixels_of(rgba: Seq<u8>, path: Seq<u8>, bytes: Seq<u8>) -> bool {
    &&& rgba.len() == 4 * ICON_SIZE * ICON_SIZE
    &&& exists|pixels: Seq<u8>| rgba == #[trigger] premultiplied(pixels)
    &&& text_extension(path) matches Some(ext) ==> (fitting_pixels(
        ext,
        bytes,
        ICON_SIZE,
    ) matches Some(pixels) ==> rgba == premultiplied(pixels))
}

/// The pixels of an icon file with their width and height. An SVG file gives what `svg`
/// holds: what drawing it came to. Any other gives its picture in the size of an icon, with
/// the colours scaled by alpha.
pub fn load_rgba(path: &FilePath, bytes: &Vec<u8>, svg: Option<Vec<u8>>) -> (r: Option<
    (Vec<u8>, u32, u32),
>)
    ensures
        names_svg(path@) ==> r == (match svg {
            Some(rgba) => Some((rgba, ICON_SIZE, ICON_SIZE)),
            None => None,
        }),
        !names_svg(path@) ==> (r is Some <==> raster_loads(path@, bytes@)),
        !names_svg(path@) && r is Some ==> {
            let (rgba, w, h) = r->0;
            &&& w == ICON_SIZE && h == ICON_SIZE
            &&& are_pixels_of(rgba@, path@, bytes@)
        },
{
    if is_svg(path) {
        return match svg {
            Some(rgba) => Some((rgba, ICON_SIZE, ICON_SIZE)),
            None => None,
        };
    }
    let ext = match path.extension() {
        Some(ext) => ext,
        None => return None,
    };
    let ext = match from_utf8(ext) {
        Some(ext) => ext,
        None => return None,
    };
    match decode_resized(ext.as_str(), bytes.as_slice(), ICON_SIZE) {
        Some(rgba) => {
            let mut rgba = rgba;
            premultiply(&mut rgba);
            Some((rgba, ICON_SIZE, ICON_SIZE))
        },
        None => None,
    }
}

/// How far a pixel lies beyond the straight part of an edge, in hundredths of a pixel.
pub open spec fn overhang(x: int) -> int {
    let from_centre = if 100 * x + 50 >= 2400 {
        100 * x + 50 - 2400
    } else {
        2400 - (100 * x + 50)
    };
    if from_centre > 1436 {
        from_centre - 1436
    } else {
        0
    }
}

/// Whether a pixel at a squared distance from the centre of a rounded corner, in hundredths
/// of a pixel, has at least the alpha `a`: whether `a` is at most 255 times the part of the
/// pixel within the corner, where `a * 100 <= 255 * (914 - distance)`.
pub open spec fn reaches(square: int, a: int) -> bool {
    a == 0 || 65025 * square <= (233070 - 100 * a) * (233070 - 100 * a)
}

/// The greatest alpha up to `a` that a pixel has.
pub open spec fn alpha_up_to(square: int, a: int) -> int
    decreases a,
{
    if a <= 0 || reaches(square, a) {
        a
    } else {
        alpha_up_to(square, a - 1)
    }
}

/// The alpha of a pixel of the default icon.
pub open spec fn default_alpha(x: int, y: int) -> int {
    alpha_up_to(overhang(x) * overhang(x) + overhang(y) * overhang(y), 255)
}

/// A byte of a pixel of the default icon: a slate square with rounded corners that gets
/// lighter downwards.
pub open spec fn default_byte(x: int, y: int, channel: int) -> int {
    let a = default_alpha(x, y);
    if channel == 0 {
        scaled(110 + y / 4, a)
    } else if channel == 1 {
        scaled(118 + 3 * y / 8, a)
    } else if channel == 2 {
        scaled(140 + 7 * y / 12, a)
    } else {
        a
    }
}

/// The pixels of the default icon.
pub open spec fn default_pixels() -> Seq<u8> {
    Seq::new(
        9216,
        |i: int| default_byte((i / 4) % 48, (i / 4) / 48, i % 4) as u8,
    )
}

fn overhang_of(x: u32) -> (r: u32)
    requires
        x < 48,
    ensures
        r == overhang(x as int),
        r <= 914,
{
    let at: u32 = 100 * x + 50;
    let from_centre: u32 = if at >= 2400 {
        at - 2400
    } else {
        2400 - at
    };
    if from_centre > 1436 {
        from_centre - 1436
    } else {
        0
    }
}

fn alpha_at(x: u32, y: u32) -> (r: u8)
    requires
        x < 48,
        y < 48,
    ensures
        r == default_alpha(x as int, y as int),
{
    let sx: u64 = overhang_of(x) as u64;
    let sy: u64 = overhang_of(y) as u64;
    assert(sx * sx <= 914 * 914 && sy * sy <= 914 * 914) by (nonlinear_arith)
        requires
            0 <= sx <= 914,
            0 <= sy <= 914,
    ;
    let square: u64 = sx * sx + sy * sy;
    let mut a: u64 = 255;
    while a > 0
        invariant
            a <= 255,
            square <= 2 * 914 * 914,
            default_alpha(x as int, y as int) == alpha_up_to(square as int, 255),
            alpha_up_to(square as int, 255) == alpha_up_to(square as int, a as int),
        decreases a,
    {
        let rest: u64 = 233070 - 100 * a;
        assert(rest * rest <= 233070 * 233070) by (nonlinear_arith)
            requires
                0 <= rest <= 233070,
        ;
        if 65025 * square <= rest * rest {
            return a as u8;
        }
        a -= 1;
    }
    0
}

/// The pixels of the icon for a row that has none.
pub fn default_rgba() -> (r: Vec<u8>)
    ensures
        r@ == default_pixels(),
{
    let mut out: Vec<u8> = Vec::new();
    let mut y: u32 = 0;
    while y < ICON_SIZE
        invariant
            y <= 48,
            out@ == default_pixels().take(192 * y),
        decreases 48 - y,
    {
        let mut x: u32 = 0;
        while x < ICON_SIZE
            invariant
                x <= 48,
                y < 48,
                out@ == default_pixels().take(192 * y + 4 * x),
            decreases 48 - x,
        {
            let a = alpha_at(x, y);
            let red: u8 = 110 + (y / 4) as u8;
            let green: u8 = 118 + (3 * y / 8) as u8;
            let blue: u8 = 140 + (7 * y / 12) as u8;
            let ghost at = 192 * y + 4 * x;
            out.push(scale(red, a));
            out.push(scale(green, a));
            out.push(scale(blue, a));
            out.push(a);
            assert(out@ =~= default_pixels().take(at + 4)) by {
                assert forall|c: int| 0 <= c < 4 implies #[trigger] out@[at + c] == default_pixels()[
                at + c] by {
                    let i = at + c;
                    assert(i / 4 == 48 * y + x);
                    assert(i % 4 == c);
                    assert((48 * y + x) % 48 == x);
                    assert((48 * y + x) / 48 == y as int);
                }
                assert forall|i: int| 0 <= i < at + 4 implies out@[i] == default_pixels().take(
                    at + 4,
                )[i] by {
                    if i >= at {
                        let c = i - at;
                        assert(out@[at + c] == default_pixels()[at + c]);
                    } else {
                        assert(default_pixels().take(at)[i] == default_pixels()[i]);
                    }
                }
            }
            x += 1;
        }
        y += 1;
    }
    assert(default_pixels().take(9216) =~= default_pixels());
    out
}

/// No colour value of the default icon exceeds its alpha.
pub proof fn law_default_icon_is_premultiplied()
    ensures
        within_alpha(default_pixels()),
{
    let out = default_pixels();
    assert forall|i: int| 0 <= i < 4 * (out.len() as int / 4) implies #[trigger] out[i] <= out[4 * (i
        / 4) + 3] by {
        let x = (i / 4) % 48;
        let y = (i / 4) / 48;
        let a = default_alpha(x, y);
        lemma_alpha_range(overhang(x) * overhang(x) + overhang(y) * overhang(y), 255);
        assert((4 * (i / 4) + 3) / 4 == i / 4);
        assert((4 * (i / 4) + 3) % 4 == 3);
        lemma_scaled((110 + y / 4) as u8, a as u8);
        lemma_scaled((118 + 3 * y / 8) as u8, a as u8);
        lemma_scaled((140 + 7 * y / 12) as u8, a as u8);
    }
}

proof fn lemma_alpha_range(square: int, a: int)
    requires
        0 <= a,
    ensures
        0 <= alpha_up_to(square, a) <= a,
    decreases a,
{
    if a > 0 && !reaches(square, a) {
        lemma_alpha_range(square, a - 1);
    }
}

// ---------------------------------------------------------------------------
// Laws of the directories and themes
// ---------------------------------------------------------------------------

/// The standard directories: the user's own in `XDG_DATA_HOME`, or in the usual place below
/// `HOME` where that is not set; then the old one below `HOME`; then those for each piece of
/// `XDG_DATA_DIRS`; then the fixed ones.
pub proof fn law_standard_dirs(
    data_home: Seq<u8>,
    home: Seq<u8>,
    dirs: Option<Seq<char>>,
)
    ensures
        ({
            let rest = dirs_behind_own(dirs);
            let icons = bytes_of("icons"@);
            let old = joined(home, bytes_of(".icons"@));
            &&& standard_dirs(Some(data_home), Some(home), dirs) == seq![
                joined(data_home, icons),
                old,
            ] + rest
            &&& standard_dirs(Some(data_home), None, dirs) == seq![joined(data_home, icons)] + rest
            &&& standard_dirs(None, Some(home), dirs) == seq![
                joined(home, bytes_of(".local/share/icons"@)),
                old,
            ] + rest
            &&& standard_dirs(None, None, dirs) == rest
        }),
{
    let rest = dirs_behind_own(dirs);
    let none = Seq::<Seq<u8>>::empty();
    let a = joined(data_home, bytes_of("icons"@));
    let b = joined(home, bytes_of(".icons"@));
    let c = joined(home, bytes_of(".local/share/icons"@));
    assert(standard_dirs(Some(data_home), Some(home), dirs) =~= seq![a, b] + rest);
    assert(standard_dirs(Some(data_home), None, dirs) =~= seq![a] + rest);
    assert(standard_dirs(None, Some(home), dirs) =~= seq![c, b] + rest);
    assert(standard_dirs(None, None, dirs) =~= rest);
}

/// The standard directories that are not the user's own.
pub open spec fn dirs_behind_own(dirs: Option<Seq<char>>) -> Seq<Seq<u8>> {
    let fixed = seq![
        bytes_of("/run/current-system/sw/share/icons"@),
        bytes_of("/run/current-system/sw/share/pixmaps"@),
        bytes_of("/usr/share/icons"@),
        bytes_of("/usr/share/pixmaps"@),
        bytes_of("/usr/local/share/icons"@),
        bytes_of("/usr/local/share/pixmaps"@),
    ];
    match dirs {
        Some(dirs) => data_dirs(split(dirs, ':')) + fixed,
        None => fixed,
    }
}

/// Each piece of `XDG_DATA_DIRS` gives its directories `icons` and `pixmaps`, in the order of
/// the pieces; an empty piece gives none.
pub proof fn law_data_dirs(a: Seq<Seq<char>>, b: Seq<Seq<char>>, piece: Seq<char>)
    ensures
        data_dirs(a + b) == data_dirs(a) + data_dirs(b),
        data_dirs(Seq::empty()) == Seq::<Seq<u8>>::empty(),
        piece.len() == 0 ==> data_dirs(seq![piece]).len() == 0,
        piece.len() > 0 ==> data_dirs(seq![piece]) == seq![
            joined(bytes_of(piece), bytes_of("icons"@)),
            joined(bytes_of(piece), bytes_of("pixmaps"@)),
        ],
    decreases b.len(),
{
    let none = Seq::<Seq<char>>::empty();
    assert(seq![piece].drop_last() =~= none);
    assert(data_dirs(none) =~= Seq::<Seq<u8>>::empty());
    if b.len() == 0 {
        assert(a + b =~= a);
        assert(data_dirs(a) + data_dirs(b) =~= data_dirs(a));
    } else {
        assert((a + b).drop_last() =~= a + b.drop_last());
        assert((a + b).last() == b.last());
        law_data_dirs(a, b.drop_last(), piece);
        assert(data_dirs(a + b) =~= data_dirs(a) + data_dirs(b));
    }
}

/// Every directory that is given is searched, and no other.
pub proof fn law_all_dirs_are_searched(dirs: Seq<Seq<u8>>, parts: Seq<Seq<u8>>)
    requires
        dirs.len() <= usize::MAX,
    ensures
        (exists|i: int|
            0 <= i < distinct_dirs(sorted_dirs(dirs)).len() && components(
                #[trigger] distinct_dirs(sorted_dirs(dirs))[i],
            ) == parts) <==> (exists|k: int|
            0 <= k < dirs.len() && components(#[trigger] dirs[k]) == parts),
{
    let found = distinct_dirs(sorted_dirs(dirs));
    lemma_sorted_covers(dirs);
    lemma_distinct_covers(sorted_dirs(dirs));
    assert(dir_keys(found).contains(parts) <==> dir_keys(sorted_dirs(dirs)).contains(parts));
    assert(dir_keys(sorted_dirs(dirs)).contains(parts) <==> dir_keys(dirs).contains(parts));
    if exists|i: int| 0 <= i < found.len() && components(#[trigger] found[i]) == parts {
        let i = choose|i: int| 0 <= i < found.len() && components(#[trigger] found[i]) == parts;
        assert(dir_keys(found)[i] == parts);
        let k = choose|k: int| 0 <= k < dirs.len() && dir_keys(dirs)[k] == parts;
        assert(components(dirs[k]) == parts);
    }
    if exists|k: int| 0 <= k < dirs.len() && components(#[trigger] dirs[k]) == parts {
        let k = choose|k: int| 0 <= k < dirs.len() && components(#[trigger] dirs[k]) == parts;
        assert(dir_keys(dirs)[k] == parts);
        let i = choose|i: int| 0 <= i < found.len() && dir_keys(found)[i] == parts;
        assert(components(found[i]) == parts);
    }
}

/// The user's own theme is preferred to all others; the usual ones follow, always in the same
/// order, without the user's own where it is one of them.
pub proof fn law_themes(own: Seq<char>)
    ensures
        themes_after(None) == seq!["Adwaita"@, "Papirus"@, "breeze"@, "hicolor"@],
        own == "Adwaita"@ ==> themes_after(Some(own)) == themes_after(None),
        own == "Papirus"@ ==> themes_after(Some(own)) == seq![
            own,
            "Adwaita"@,
            "breeze"@,
            "hicolor"@,
        ],
        own == "breeze"@ ==> themes_after(Some(own)) == seq![
            own,
            "Adwaita"@,
            "Papirus"@,
            "hicolor"@,
        ],
        own == "hicolor"@ ==> themes_after(Some(own)) == seq![
            own,
            "Adwaita"@,
            "Papirus"@,
            "breeze"@,
        ],
        !themes_after(None).contains(own) ==> themes_after(Some(own)) == seq![own] + themes_after(
            None,
        ),
{
    let a = "Adwaita"@;
    let p = "Papirus"@;
    let b = "breeze"@;
    let h = "hicolor"@;
    reveal_strlit("Adwaita");
    reveal_strlit("Papirus");
    reveal_strlit("breeze");
    reveal_strlit("hicolor");
    assert(a[0] != p[0] && a[0] != b[0] && a[0] != h[0] && p[0] != b[0] && p[0] != h[0] && b[0]
        != h[0]);
    let none = Seq::<Seq<char>>::empty();
    lemma_four_themes(none, a, p, b, h);
    lemma_four_themes(seq![own], a, p, b, h);
    let usual = themes_after(None);
    assert(usual =~= seq![a, p, b, h]);
    assert(usual[0] == a && usual[1] == p && usual[2] == b && usual[3] == h);
    assert(seq![own][0] == own);
    if own == a {
        assert(themes_after(Some(own)) =~= usual);
    } else if own == p {
        assert(themes_after(Some(own)) =~= seq![own, a, b, h]);
    } else if own == b {
        assert(themes_after(Some(own)) =~= seq![own, a, p, h]);
    } else if own == h {
        assert(themes_after(Some(own)) =~= seq![own, a, p, b]);
    } else {
        assert(themes_after(Some(own)) =~= seq![own] + usual);
    }
}

/// Adding four names, none of which is another, to a list of at most one.
proof fn lemma_four_themes(
    first: Seq<Seq<char>>,
    a: Seq<char>,
    b: Seq<char>,
    c: Seq<char>,
    d: Seq<char>,
)
    requires
        first.len() <= 1,
        a != b && a != c && a != d && b != c && b != d && c != d,
    ensures
        with_theme(with_theme(with_theme(with_theme(first, a), b), c), d) == first + (if first.len()
            == 0 || (first[0] != a && first[0] != b && first[0] != c && first[0] != d) {
            seq![a, b, c, d]
        } else if first[0] == a {
            seq![b, c, d]
        } else if first[0] == b {
            seq![a, c, d]
        } else if first[0] == c {
            seq![a, b, d]
        } else {
            seq![a, b, c]
        }),
{
    let one = with_theme(first, a);
    let two = with_theme(one, b);
    let three = with_theme(two, c);
    let four = with_theme(three, d);
    lemma_push_contains(first, a, b);
    lemma_push_contains(first, a, c);
    lemma_push_contains(first, a, d);
    lemma_push_contains(one, b, c);
    lemma_push_contains(one, b, d);
    lemma_push_contains(two, c, d);
    if first.len() == 1 {
        assert(first.contains(first[0]));
        assert(forall|x: Seq<char>| first.contains(x) ==> x == first[0]);
    }
    assert(four =~= first + (if first.len() == 0 || (first[0] != a && first[0] != b && first[0] != c
        && first[0] != d) {
        seq![a, b, c, d]
    } else if first[0] == a {
        seq![b, c, d]
    } else if first[0] == b {
        seq![a, c, d]
    } else if first[0] == c {
        seq![a, b, d]
    } else {
        seq![a, b, c]
    }));
}

// ---------------------------------------------------------------------------
// Laws of the ratings
// ---------------------------------------------------------------------------

/// The size directories that are known, the best one first.
pub open spec fn is_known_size(name: Seq<char>, place: int) -> bool {
    ||| place == 0 && name == "48x48"@
    ||| place == 1 && name == "64x64"@
    ||| place == 2 && name == "32x32"@
    ||| place == 3 && name == "128x128"@
    ||| place == 4 && name == "256x256"@
    ||| place == 5 && name == "scalable"@
    ||| place == 6 && name == "24x24"@
    ||| place == 7 && name == "16x16"@
}

/// Of two known size directories the one nearer to the front is better, and each of them is
/// better than one that is not known; no two of the latter differ.
pub proof fn law_sizes(a: Seq<char>, b: Seq<char>, i: int, j: int)
    ensures
        is_known_size(a, i) && is_known_size(b, j) && i < j ==> size_rank(a) > size_rank(b),
        is_known_size(a, i) && !is_any_size(b) ==> size_rank(a) > size_rank(b),
        !is_any_size(a) && !is_any_size(b) ==> size_rank(a) == size_rank(b),
{
    lemma_sizes_differ();
    if is_known_size(a, i) && !is_any_size(b) {
        assert(!is_known_size(b, 0) && !is_known_size(b, 1) && !is_known_size(b, 2)
            && !is_known_size(b, 3));
        assert(!is_known_size(b, 4) && !is_known_size(b, 5) && !is_known_size(b, 6)
            && !is_known_size(b, 7));
    }
    if !is_any_size(a) && !is_any_size(b) {
        assert(!is_known_size(a, 0) && !is_known_size(a, 1) && !is_known_size(a, 2)
            && !is_known_size(a, 3));
        assert(!is_known_size(a, 4) && !is_known_size(a, 5) && !is_known_size(a, 6)
            && !is_known_size(a, 7));
        assert(!is_known_size(b, 0) && !is_known_size(b, 1) && !is_known_size(b, 2)
            && !is_known_size(b, 3));
        assert(!is_known_size(b, 4) && !is_known_size(b, 5) && !is_known_size(b, 6)
            && !is_known_size(b, 7));
    }
}

/// Whether a size directory is known.
pub open spec fn is_any_size(name: Seq<char>) -> bool {
    exists|place: int| #[trigger] is_known_size(name, place)
}

proof fn lemma_sizes_differ()
    ensures
        "48x48"@[0] == '4' && "48x48"@.len() == 5,
        "64x64"@[0] == '6' && "64x64"@.len() == 5,
        "32x32"@[0] == '3' && "32x32"@.len() == 5,
        "128x128"@[0] == '1' && "128x128"@.len() == 7,
        "256x256"@[0] == '2' && "256x256"@.len() == 7,
        "scalable"@[0] == 's' && "scalable"@.len() == 8,
        "24x24"@[0] == '2' && "24x24"@.len() == 5,
        "16x16"@[0] == '1' && "16x16"@.len() == 5,
{
    reveal_strlit("48x48");
    reveal_strlit("64x64");
    reveal_strlit("32x32");
    reveal_strlit("128x128");
    reveal_strlit("256x256");
    reveal_strlit("scalable");
    reveal_strlit("24x24");
    reveal_strlit("16x16");
}

/// A file holds an icon if and only if the name of its place is valid text and its own is, and
/// it ends in `.png`, `.jpg`, `.jpeg` or `.svg`, in capitals or not; the icon has the name in
/// front of that.
pub proof fn law_icon_files(file: IconFileModel, stem: Seq<u8>, ext: Seq<u8>)
    requires
        file_name(file.path) == Some(stem.push(DOT) + ext),
        stem.len() > 0,
        !ext.contains(DOT),
    ensures
        ({
            let lowered = ascii_lowered(decoded(ext)->0);
            let is_image = lowered == "png"@ || lowered == "jpg"@ || lowered == "jpeg"@ || lowered
                == "svg"@;
            let has_place = file.place is Pixmap || decoded(file.place->Themed_0) is Some;
            &&& candidate(file) is Some <==> has_place && decoded(stem) is Some && decoded(
                ext,
            ) is Some && is_image
            &&& candidate(file) is Some ==> has_name(file, decoded(stem)->0)
            &&& names_svg(file.path) <==> decoded(ext) is Some && lowered == "svg"@
        }),
{
    law_extension(file.path, stem, ext);
    lemma_types_differ();
}

proof fn lemma_types_differ()
    ensures
        "png"@ != "jpg"@,
        "png"@ != "jpeg"@,
        "png"@ != "svg"@,
        "jpg"@ != "svg"@,
        "jpeg"@ != "svg"@,
{
    reveal_strlit("png");
    reveal_strlit("jpg");
    reveal_strlit("jpeg");
    reveal_strlit("svg");
    assert("png"@[0] == 'p' && "jpg"@[0] == 'j' && "jpeg"@[0] == 'j' && "svg"@[0] == 's');
}

/// Which of two files is better. A raster file is better than an SVG file. Of two raster files,
/// and of two SVG files, the one in the better size directory is better whatever its type; one
/// in a flat directory is worse than one in a theme; and in places as good, a PNG file is better
/// than a JPEG file, and two files of one type are as good.
pub proof fn law_ratings(a: IconFileModel, b: IconFileModel)
    requires
        candidate(a) is Some,
        candidate(b) is Some,
    ensures
        !names_svg(a.path) && names_svg(b.path) ==> rating(a) > rating(b),
        names_svg(a.path) == names_svg(b.path) ==> {
            let in_themes = a.place is Themed && b.place is Themed;
            let x = size_rank(decoded(a.place->Themed_0)->0);
            let y = size_rank(decoded(b.place->Themed_0)->0);
            let alike = (in_themes && x == y) || (a.place is Pixmap && b.place is Pixmap);
            &&& in_themes && x > y ==> rating(a) > rating(b)
            &&& a.place is Themed && b.place is Pixmap ==> rating(a) > rating(b)
            &&& alike && lowered_extension(a.path) == Some("png"@) && lowered_extension(b.path)
                != Some("png"@) ==> rating(a) > rating(b)
            &&& alike && (lowered_extension(a.path) == Some("png"@) <==> lowered_extension(b.path)
                == Some("png"@)) ==> rating(a) == rating(b)
        },
{
    lemma_types_differ();
    lemma_sizes_differ();
}

/// An icon name loses its last extension where that is one of a picture, and nothing else.
pub proof fn law_bare_name(stem: Seq<char>, ext: Seq<char>)
    requires
        !ext.contains('.'),
    ensures
        ({
            let name = stem.push('.') + ext;
            let known = ext == "png"@ || ext == "PNG"@ || ext == "jpg"@ || ext == "JPG"@ || ext
                == "jpeg"@ || ext == "svg"@ || ext == "xpm"@;
            &&& known ==> bare_name(name) == stem
            &&& !known ==> bare_name(name) == name
            &&& bare_name(ext) == ext
        }),
{
    let name = stem.push('.') + ext;
    law_rsplit_once(ext, '.');
    law_rsplit_once(name, '.');
    assert(name[stem.len() as int] == '.');
    assert(name.contains('.'));
    let (a, b) = rsplit_once(name, '.')->0;
    if a.len() < stem.len() {
        assert(name[stem.len() as int] == b[stem.len() - a.len() - 1]);
        assert(b.contains('.'));
    } else if a.len() > stem.len() {
        assert(name[a.len() as int] == '.');
        assert(name[a.len() as int] == ext[a.len() - stem.len() - 1]);
        assert(ext.contains('.'));
    }
    assert(a =~= stem) by {
        assert forall|i: int| 0 <= i < a.len() implies a[i] == stem[i] by {
            assert(name[i] == a[i]);
            assert(name[i] == stem[i]);
        }
    }
    assert(b =~= ext) by {
        assert forall|i: int| 0 <= i < b.len() implies b[i] == ext[i] by {
            assert(name[a.len() + 1 + i] == b[i]);
            assert(name[stem.len() + 1 + i] == ext[i]);
        }
    }
}

/// A name that is an absolute path of a file that exists leads to that file; any other to the
/// best file under the name without its extension. The empty name leads nowhere.
pub proof fn law_resolved(index: Map<Seq<char>, Seq<u8>>, name: Seq<char>, exists_as_path: bool)
    ensures
        ({
            let r = resolved(index, name, exists_as_path);
            let is_path = name.len() > 0 && name[0] == '/' && exists_as_path;
            &&& name.len() == 0 ==> r is None
            &&& is_path ==> r == Some(bytes_of(name))
            &&& name.len() > 0 && !is_path && index.dom().contains(bare_name(name)) ==> r == Some(
                index[bare_name(name)],
            )
            &&& name.len() > 0 && !is_path && !index.dom().contains(bare_name(name)) ==> r is None
        }),
{
}

// ---------------------------------------------------------------------------
// Laws of the pixels
// ---------------------------------------------------------------------------

/// Red, green and blue of each whole pixel are multiplied by its alpha and divided by 255,
/// rounded down; alpha stays, and so do bytes behind the last whole pixel.
pub proof fn law_premultiplied_exactly(rgba: Seq<u8>, pixel: int, channel: int)
    requires
        0 <= pixel,
        0 <= channel < 4,
        4 * pixel + channel < rgba.len(),
    ensures
        ({
            let out = premultiplied(rgba);
            let i = 4 * pixel + channel;
            let product = rgba[i] as int * rgba[4 * pixel + 3] as int;
            &&& out.len() == rgba.len()
            &&& channel == 3 || 4 * pixel + 4 > rgba.len() ==> out[i] == rgba[i]
            &&& channel < 3 && 4 * pixel + 4 <= rgba.len() ==> 255 * out[i] <= product < 255 * out[i]
                + 255
        }),
{
    let i = 4 * pixel + channel;
    assert(i / 4 == pixel && i % 4 == channel);
    if channel < 3 && 4 * pixel + 4 <= rgba.len() {
        lemma_scaled(rgba[i], rgba[4 * pixel + 3]);
        assert(i < 4 * (rgba.len() as int / 4));
    }
}

/// The default icon has 48 rows of 48 pixels. It is the same from left and right and from above
/// and below in its outline, is opaque between its corners, which are 964 hundredths of a
/// pixel wide, and its alpha is the greatest that the part of the pixel within the rounded corner reaches.
pub proof fn law_default_outline(x: int, y: int)
    requires
        0 <= x < 48,
        0 <= y < 48,
    ensures
        default_pixels().len() == 48 * 48 * 4,
        default_pixels()[4 * (48 * y + x) + 3] == default_alpha(x, y),
        0 <= default_alpha(x, y) <= 255,
        default_alpha(47 - x, y) == default_alpha(x, y),
        default_alpha(x, 47 - y) == default_alpha(x, y),
        default_alpha(y, x) == default_alpha(x, y),
        10 <= x <= 37 && 10 <= y <= 37 ==> default_alpha(x, y) == 255,
        x <= 9 ==> overhang(x) == 100 * (9 - x) + 14,
        10 <= x <= 37 ==> overhang(x) == 0,
        ({
            let square = overhang(x) * overhang(x) + overhang(y) * overhang(y);
            let a = default_alpha(x, y);
            &&& a > 0 ==> 65025 * square <= (233070 - 100 * a) * (233070 - 100 * a)
            &&& a < 255 ==> 65025 * square > (233070 - 100 * (a + 1)) * (233070 - 100 * (a + 1))
        }),
{
    let square = overhang(x) * overhang(x) + overhang(y) * overhang(y);
    lemma_alpha_range(square, 255);
    lemma_greatest_alpha(square, 255);
    let i = 4 * (48 * y + x) + 3;
    assert(i / 4 == 48 * y + x);
    assert(i % 4 == 3);
    assert((48 * y + x) % 48 == x);
    assert((48 * y + x) / 48 == y);
    assert(overhang(47 - x) == overhang(x));
    assert(overhang(47 - y) == overhang(y));
    if 10 <= x <= 37 && 10 <= y <= 37 {
        assert(overhang(x) == 0 && overhang(y) == 0);
        assert(0int * 0int == 0);
        assert((233070 - 100 * 255) * (233070 - 100 * 255) >= 0) by (nonlinear_arith);
    }
}

proof fn lemma_greatest_alpha(square: int, a: int)
    requires
        0 <= a,
    ensures
        reaches(square, alpha_up_to(square, a)),
        alpha_up_to(square, a) < a ==> !reaches(square, alpha_up_to(square, a) + 1),
    decreases a,
{
    if a > 0 && !reaches(square, a) {
        lemma_greatest_alpha(square, a - 1);
    }
}

/// The colour of the default icon at a pixel is a grey with some blue, the same along each row
/// and lighter downwards, scaled by the pixel's alpha.
pub proof fn law_default_colours(x: int, y: int)
    requires
        0 <= x < 48,
        0 <= y < 48,
    ensures
        ({
            let i = 4 * (48 * y + x);
            let a = default_alpha(x, y);
            let out = default_pixels();
            &&& 255 * out[i] <= (110 + y / 4) * a < 255 * out[i] + 255
            &&& 255 * out[i + 1] <= (118 + 3 * y / 8) * a < 255 * out[i + 1] + 255
            &&& 255 * out[i + 2] <= (140 + 7 * y / 12) * a < 255 * out[i + 2] + 255
        }),
{
    let i = 4 * (48 * y + x);
    let a = default_alpha(x, y);
    lemma_alpha_range(overhang(x) * overhang(x) + overhang(y) * overhang(y), 255);
    assert forall|c: int| 0 <= c < 4 implies (i + c) / 4 == 48 * y + x && #[trigger] ((i + c) % 4)
        == c by {}
    assert((i + 0) % 4 == 0 && (i + 1) % 4 == 1 && (i + 2) % 4 == 2);
    assert((48 * y + x) % 48 == x);
    assert((48 * y + x) / 48 == y);
    lemma_scaled((110 + y / 4) as u8, a as u8);
    lemma_scaled((118 + 3 * y / 8) as u8, a as u8);
    lemma_scaled((140 + 7 * y / 12) as u8, a as u8);
}

/// The pixels of an icon that is no SVG file: 48 rows of 48, with no colour above its alpha; and
/// where the file is a PNG file of that size, its own, scaled by alpha. A file gives pixels if
/// and only if its extension is valid text and it can be decoded by that.
pub proof fn law_loaded_pixels(
    rgba: Seq<u8>,
    path: Seq<u8>,
    bytes: Seq<u8>,
    ext: Seq<char>,
    pixels: Seq<u8>,
)
    requires
        are_pixels_of(rgba, path, bytes),
    ensures
        rgba.len() == 48 * 48 * 4,
        within_alpha(rgba),
        extension(path) is Some && decoded(extension(path)->0) == Some(ext) && ascii_lowered(ext)
            == "png"@ && decoded_picture(ext, bytes) == Some((48u32, 48u32, pixels)) ==> rgba
            == premultiplied(pixels),
        extension(path) is Some && decoded(extension(path)->0) == Some(ext) ==> (raster_loads(
            path,
            bytes,
        ) <==> decoded_picture(ext, bytes) is Some),
        extension(path) is None || decoded(extension(path)->0) is None ==> !raster_loads(path, bytes),
{
    let source = choose|source: Seq<u8>| rgba == #[trigger] premultiplied(source);
    law_premultiplied(source);
}

} // verus!
