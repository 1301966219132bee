//! The directory of links through which the found files are shown in a file manager.

use vstd::hash_set::StringHashSet;
use vstd::prelude::*;
use vstd::slice::slice_subrange;

use crate::dedup::views;
use crate::filepath::{bytes_of, file_name, joined, opt_path_view, FilePath};
use crate::lists::{Action, ActionModel, Item, ListEntry};
use crate::matcher::Hit;
use crate::order::{char_codes, lemma_lex_laws, lex_lt};
use crate::text::{
    append, append_str, chars_of, decimal, decoded, digit, from_utf8, index_of_last,
    law_rsplit_once, rsplit_once, string_of, to_decimal,
};

verus! {

/// The program that shows a directory.
pub const FILE_MANAGER: &'static str = "dolphin";

/// The program that shows a directory where the first cannot be started.
pub const FALLBACK_MANAGER: &'static str = "xdg-open";

/// The directory of links, given `XDG_RUNTIME_DIR` and the system's directory for temporary
/// files.
pub fn staging_dir(xdg_runtime_dir: Option<FilePath>, temp_dir: FilePath) -> (r: FilePath)
    ensures
        r@ == joined(
            match opt_path_view(xdg_runtime_dir) {
                Some(dir) => dir,
                None => temp_dir@,
            },
            bytes_of("nixly_launcher-files"@),
        ),
{
    let base = match xdg_runtime_dir {
        Some(dir) => dir,
        None => temp_dir,
    };
    base.join_str("nixly_launcher-files")
}

// ---------------------------------------------------------------------------
// Names that differ
// ---------------------------------------------------------------------------

/// The parts of a name before and after the last dot, unless that dot begins the name.
pub open spec fn name_parts(name: Seq<char>) -> (Seq<char>, Option<Seq<char>>) {
    match rsplit_once(name, '.') {
        Some((stem, ext)) => if stem.len() > 0 {
            (stem, Some(ext))
        } else {
            (name, None)
        },
        None => (name, None),
    }
}

/// A name with a number before its extension.
pub open spec fn numbered(name: Seq<char>, n: nat) -> Seq<char> {
    let (stem, ext) = name_parts(name);
    let base = stem + " ("@ + decimal(n) + ")"@;
    match ext {
        Some(ext) => base + "."@ + ext,
        None => base,
    }
}

/// The least number from `n` on whose name is not taken.
pub open spec fn free_number(name: Seq<char>, taken: Set<Seq<char>>, n: nat) -> Option<nat>
    decreases u32::MAX - n,
{
    if n >= u32::MAX {
        None
    } else if !taken.contains(numbered(name, n)) {
        Some(n)
    } else {
        free_number(name, taken, n + 1)
    }
}

/// The name itself where it is not taken, else the first of `name (2)`, `name (3)` and so on
/// that is not.
pub open spec fn unique(name: Seq<char>, taken: Set<Seq<char>>) -> Seq<char> {
    if !taken.contains(name) {
        name
    } else {
        match free_number(name, taken, 2) {
            Some(n) => numbered(name, n),
            None => name,
        }
    }
}

fn number_name(name: &Vec<char>, n: u32) -> (r: String)
    ensures
        r@ == numbered(name@, n as nat),
{
    let len: usize = name.len();
    let mut out: Vec<char> = Vec::new();
    let digits = to_decimal(n as u64);
    match index_of_last(name.as_slice(), '.') {
        Some(dot) if dot > 0 => {
            let stem = slice_subrange(name.as_slice(), 0, dot);
            let ext = slice_subrange(name.as_slice(), dot + 1, len);
            assert(stem@ =~= name@.take(dot as int));
            assert(ext@ =~= name@.skip(dot + 1));
            append(&mut out, stem);
            append_str(&mut out, " (");
            append(&mut out, digits.as_slice());
            append_str(&mut out, ")");
            append_str(&mut out, ".");
            append(&mut out, ext);
            assert(out@ =~= numbered(name@, n as nat));
        },
        _ => {
            append(&mut out, name.as_slice());
            append_str(&mut out, " (");
            append(&mut out, digits.as_slice());
            append_str(&mut out, ")");
            assert(out@ =~= numbered(name@, n as nat));
        },
    }
    string_of(out.as_slice())
}

/// A name that is not taken, and takes it.
pub fn unique_name(name: &str, taken: &mut StringHashSet) -> (r: String)
    ensures
        r@ == unique(name@, old(taken)@),
        final(taken)@ == old(taken)@.insert(r@),
{
    let chars = chars_of(name);
    let ghost before = taken@;
    if !taken.contains(name) {
        taken.insert(string_of(chars.as_slice()));
        return string_of(chars.as_slice());
    }
    let mut n: u32 = 2;
    while n < u32::MAX
        invariant
            2 <= n,
            chars@ == name@,
            taken@ == before,
            before == old(taken)@,
            before.contains(name@),
            free_number(name@, before, 2) == free_number(name@, before, n as nat),
        decreases u32::MAX - n,
    {
        let candidate = number_name(&chars, n);
        if !taken.contains(candidate.as_str()) {
            let copy = chars_of(candidate.as_str());
            taken.insert(string_of(copy.as_slice()));
            return candidate;
        }
        n += 1;
    }
    assert(before.insert(name@) =~= before);
    string_of(chars.as_slice())
}

/// A name that was given out is new, unless all the numbers are used up.
pub proof fn law_unique_name_is_new(name: Seq<char>, taken: Set<Seq<char>>)
    requires
        !taken.contains(name) || free_number(name, taken, 2) is Some,
    ensures
        !taken.contains(unique(name, taken)),
{
    if taken.contains(name) {
        lemma_free_number(name, taken, 2);
    }
}

proof fn lemma_free_number(name: Seq<char>, taken: Set<Seq<char>>, n: nat)
    requires
        free_number(name, taken, n) is Some,
    ensures
        !taken.contains(numbered(name, free_number(name, taken, n)->0)),
    decreases u32::MAX - n,
{
    if n < u32::MAX && taken.contains(numbered(name, n)) {
        lemma_free_number(name, taken, n + 1);
        assert(free_number(name, taken, n) == free_number(name, taken, n + 1));
    }
}

// ---------------------------------------------------------------------------
// Links
// ---------------------------------------------------------------------------

/// A link: its name, and the path it leads to.
#[derive(Debug)]
pub struct Link {
    pub name: String,
    pub target: FilePath,
}

/// The model of a [`Link`].
pub struct LinkModel {
    pub name: Seq<char>,
    pub target: Seq<u8>,
}

impl View for Link {
    type V = LinkModel;

    open spec fn view(&self) -> LinkModel {
        LinkModel { name: self.name@, target: self.target@ }
    }
}

/// The digits of a number with zeros before them, `width` characters in all.
pub open spec fn padded(n: nat, width: nat) -> Seq<char> {
    if decimal(n).len() >= width {
        decimal(n)
    } else {
        Seq::new((width - decimal(n).len()) as nat, |i: int| '0') + decimal(n)
    }
}

/// The number of digits before the names, for so many results: enough for the last one, and
/// two at least.
pub open spec fn pad_width(total: nat) -> nat {
    if decimal(total).len() > 2 {
        decimal(total).len()
    } else {
        2
    }
}

/// The name of a file with its place among the results before it.
pub open spec fn ranked_name(rank: nat, width: nat, name: Seq<char>) -> Seq<char> {
    padded(rank + 1, width) + " - "@ + name
}

/// The file name of the result at a place of the list, if that is a file with a valid name.
pub open spec fn result_name(list: Seq<Item>, hit: Hit) -> Option<(Seq<char>, Seq<u8>)> {
    if hit.idx < list.len() {
        match list[hit.idx as int].action {
            ActionModel::Open(path) => match file_name(path) {
                Some(name) => match decoded(name) {
                    Some(name) => Some((name, path)),
                    None => None,
                },
                None => None,
            },
            ActionModel::Exec(_) => None,
        }
    } else {
        None
    }
}

/// The names that a list of links takes.
pub open spec fn link_names(links: Seq<LinkModel>) -> Set<Seq<char>> {
    Set::new(|name: Seq<char>| exists|i: int| 0 <= i < links.len() && (#[trigger] links[i]).name == name)
}

/// The links to the first `n` results.
pub open spec fn links_upto(list: Seq<Item>, hits: Seq<Hit>, n: nat) -> Seq<LinkModel>
    decreases n,
{
    if n == 0 {
        Seq::empty()
    } else {
        let before = links_upto(list, hits, (n - 1) as nat);
        match result_name(list, hits[n - 1]) {
            Some((name, target)) => {
                let wanted = ranked_name((n - 1) as nat, pad_width(hits.len()), name);
                before.push(LinkModel { name: unique(wanted, link_names(before)), target })
            },
            None => before,
        }
    }
}

/// The links to the results of a search.
pub open spec fn links(list: Seq<Item>, hits: Seq<Hit>) -> Seq<LinkModel> {
    links_upto(list, hits, hits.len())
}

fn pad(n: u64, width: usize) -> (r: Vec<char>)
    ensures
        r@ == padded(n as nat, width as nat),
{
    let digits = to_decimal(n);
    let mut out: Vec<char> = Vec::new();
    if digits.len() < width {
        let zeros: usize = width - digits.len();
        let mut i: usize = 0;
        while i < zeros
            invariant
                i <= zeros,
                out@ == Seq::new(i as nat, |k: int| '0'),
            decreases zeros - i,
        {
            out.push('0');
            i += 1;
            assert(out@ =~= Seq::new(i as nat, |k: int| '0'));
        }
    }
    append(&mut out, digits.as_slice());
    assert(out@ =~= padded(n as nat, width as nat));
    out
}

/// The links to the results of a search, in order. The place of each result stands before
/// its name, so that a listing by name shows them in this order.
pub fn stage_links(list: &Vec<ListEntry>, hits: &Vec<Hit>) -> (r: Vec<Link>)
    ensures
        views(r@) == links(views(list@), hits@),
{
    let ghost items = views(list@);
    let digits: usize = to_decimal(hits.len() as u64).len();
    let width: usize = if digits > 2 {
        digits
    } else {
        2
    };
    let mut taken = StringHashSet::new();
    let mut out: Vec<Link> = Vec::new();
    let mut rank: usize = 0;
    assert(views(out@) =~= Seq::empty());
    assert(taken@ =~= link_names(views(out@)));
    while rank < hits.len()
        invariant
            rank <= hits@.len(),
            items == views(list@),
            width == pad_width(hits@.len()),
            views(out@) == links_upto(items, hits@, rank as nat),
            taken@ == link_names(views(out@)),
        decreases hits.len() - rank,
    {
        let hit = hits[rank];
        let ghost before = views(out@);
        if hit.idx < list.len() {
            assert(items[hit.idx as int] == list@[hit.idx as int]@);
            if let Action::Open(path) = &list[hit.idx].action {
                if let Some(name) = path.file_name() {
                    if let Some(name) = from_utf8(name) {
                        let mut wanted = pad(rank as u64 + 1, width);
                        append_str(&mut wanted, " - ");
                        append_str(&mut wanted, name.as_str());
                        assert(wanted@ =~= ranked_name(rank as nat, width as nat, name@));
                        let wanted = string_of(wanted.as_slice());
                        let name = unique_name(wanted.as_str(), &mut taken);
                        let link = Link { name, target: path.clone() };
                        out.push(link);
                        assert(views(out@) =~= before.push(link@));
                        proof {
                            lemma_link_names(before, link@);
                        }
                    }
                }
            }
        }
        rank += 1;
    }
    out
}

proof fn lemma_link_names(links: Seq<LinkModel>, link: LinkModel)
    ensures
        link_names(links.push(link)) == link_names(links).insert(link.name),
{
    let more = links.push(link);
    assert forall|name: Seq<char>| link_names(more).contains(name) == link_names(links).insert(
        link.name,
    ).contains(name) by {
        if link_names(links).contains(name) {
            let i = choose|i: int| 0 <= i < links.len() && (#[trigger] links[i]).name == name;
            assert(more[i].name == name);
        }
        if name == link.name {
            assert(more[links.len() as int].name == name);
        }
        if link_names(more).contains(name) && name != link.name {
            let i = choose|i: int| 0 <= i < more.len() && (#[trigger] more[i]).name == name;
            assert(links[i].name == name);
        }
    }
    assert(link_names(more) =~= link_names(links).insert(link.name));
}

/// The last `width` digits of a number.
spec fn last_digits(n: nat, width: nat) -> Seq<char>
    decreases width,
{
    if width == 0 {
        Seq::empty()
    } else {
        last_digits(n / 10, (width - 1) as nat).push(digit((n % 10) as int))
    }
}

proof fn lemma_padded(n: nat, width: nat)
    requires
        decimal(n).len() <= width,
    ensures
        padded(n, width) == last_digits(n, width),
        padded(n, width).len() == width,
    decreases width,
{
    let short = (width - 1) as nat;
    if n < 10 {
        if width > 1 {
            lemma_padded(0, short);
            assert(last_digits(n, width) == last_digits(0, short).push(digit(n as int)));
            assert(padded(n, width) =~= padded(0, short).push(digit(n as int)));
        } else {
            assert(last_digits(n / 10, 0) =~= Seq::empty());
            assert(padded(n, width) =~= last_digits(n, width));
        }
    } else {
        lemma_padded(n / 10, short);
        assert(padded(n, width) =~= padded(n / 10, short).push(digit((n % 10) as int)));
    }
}

proof fn lemma_decimal_grows(a: nat, b: nat)
    requires
        a <= b,
    ensures
        decimal(a).len() <= decimal(b).len(),
    decreases b,
{
    if b >= 10 {
        if a >= 10 {
            lemma_decimal_grows(a / 10, b / 10);
        }
    }
}

/// Of two lists of one length, what follows does not matter once one is less.
proof fn lemma_lex_extend(x: Seq<int>, y: Seq<int>, s: Seq<int>, t: Seq<int>)
    requires
        x.len() == y.len(),
        lex_lt(x, y),
    ensures
        lex_lt(x + s, y + t),
    decreases x.len(),
{
    let xs = x + s;
    let yt = y + t;
    assert(xs[0] == x[0] && yt[0] == y[0]);
    if x[0] == y[0] {
        assert(xs.skip(1) =~= x.skip(1) + s);
        assert(yt.skip(1) =~= y.skip(1) + t);
        lemma_lex_extend(x.skip(1), y.skip(1), s, t);
    }
}

/// A common beginning does not matter.
proof fn lemma_lex_common(p: Seq<int>, s: Seq<int>, t: Seq<int>)
    requires
        lex_lt(s, t),
    ensures
        lex_lt(p + s, p + t),
    decreases p.len(),
{
    if p.len() == 0 {
        assert(p + s =~= s);
        assert(p + t =~= t);
    } else {
        assert((p + s)[0] == p[0] && (p + t)[0] == p[0]);
        assert((p + s).skip(1) =~= p.skip(1) + s);
        assert((p + t).skip(1) =~= p.skip(1) + t);
        lemma_lex_common(p.skip(1), s, t);
    }
}

proof fn lemma_digits_ordered(a: nat, b: nat, width: nat)
    requires
        a < b,
        decimal(b).len() <= width,
    ensures
        lex_lt(char_codes(last_digits(a, width)), char_codes(last_digits(b, width))),
        last_digits(a, width).len() == width,
        last_digits(b, width).len() == width,
    decreases width,
{
    let short = (width - 1) as nat;
    let xa = last_digits(a / 10, short);
    let xb = last_digits(b / 10, short);
    let da = digit((a % 10) as int);
    let db = digit((b % 10) as int);
    lemma_last_digits_len(a / 10, short);
    lemma_last_digits_len(b / 10, short);
    let sa = seq![da as int];
    let sb = seq![db as int];
    assert(char_codes(xa.push(da)) =~= char_codes(xa) + sa);
    assert(char_codes(xb.push(db)) =~= char_codes(xb) + sb);
    if a / 10 < b / 10 {
        lemma_digits_ordered(a / 10, b / 10, short);
        lemma_lex_extend(char_codes(xa), char_codes(xb), sa, sb);
    } else {
        assert(a / 10 == b / 10);
        assert(sa[0] < sb[0]);
        assert(lex_lt(sa, sb));
        lemma_lex_common(char_codes(xa), sa, sb);
    }
}

proof fn lemma_last_digits_len(n: nat, width: nat)
    ensures
        last_digits(n, width).len() == width,
    decreases width,
{
    if width > 0 {
        lemma_last_digits_len(n / 10, (width - 1) as nat);
    }
}

proof fn lemma_ranked_names(a: nat, b: nat, total: nat, x: Seq<char>, y: Seq<char>)
    requires
        a < b < total,
    ensures
        lex_lt(
            char_codes(ranked_name(a, pad_width(total), x)),
            char_codes(ranked_name(b, pad_width(total), y)),
        ),
{
    let width = pad_width(total);
    lemma_decimal_grows(a + 1, total);
    lemma_decimal_grows(b + 1, total);
    lemma_padded(a + 1, width);
    lemma_padded(b + 1, width);
    lemma_digits_ordered(a + 1, b + 1, width);
    let pa = padded(a + 1, width);
    let pb = padded(b + 1, width);
    let sa = " - "@ + x;
    let sb = " - "@ + y;
    assert(ranked_name(a, width, x) =~= pa + sa);
    assert(ranked_name(b, width, y) =~= pb + sb);
    assert(char_codes(pa + sa) =~= char_codes(pa) + char_codes(sa));
    assert(char_codes(pb + sb) =~= char_codes(pb) + char_codes(sb));
    lemma_lex_extend(char_codes(pa), char_codes(pb), char_codes(sa), char_codes(sb));
}

/// Whether a name comes before the names of all results from a place on.
spec fn comes_before(name: Seq<char>, from: nat, total: nat) -> bool {
    forall|r: nat, x: Seq<char>|
        from <= r < total ==> lex_lt(
            char_codes(name),
            char_codes(#[trigger] ranked_name(r, pad_width(total), x)),
        )
}

/// Whether the names of the links are in alphabetical order, each once.
pub open spec fn names_ascend(links: Seq<LinkModel>) -> bool {
    forall|i: int, j: int|
        0 <= i < j < links.len() ==> lex_lt(
            char_codes((#[trigger] links[i]).name),
            char_codes((#[trigger] links[j]).name),
        )
}

proof fn lemma_links(list: Seq<Item>, hits: Seq<Hit>, n: nat)
    requires
        n <= hits.len(),
    ensures
        names_ascend(links_upto(list, hits, n)),
        forall|i: int|
            0 <= i < links_upto(list, hits, n).len() ==> comes_before(
                (#[trigger] links_upto(list, hits, n)[i]).name,
                n,
                hits.len(),
            ),
    decreases n,
{
    if n > 0 {
        let last = (n - 1) as nat;
        let before = links_upto(list, hits, last);
        let all = links_upto(list, hits, n);
        let total = hits.len();
        lemma_links(list, hits, last);
        match result_name(list, hits[n - 1]) {
            Some((name, target)) => {
                let wanted = ranked_name(last, pad_width(total), name);
                assert forall|i: int| 0 <= i < before.len() implies lex_lt(
                    char_codes((#[trigger] before[i]).name),
                    char_codes(wanted),
                ) by {
                    assert(comes_before(before[i].name, last, total));
                }
                assert(!link_names(before).contains(wanted)) by {
                    if link_names(before).contains(wanted) {
                        let i = choose|i: int|
                            0 <= i < before.len() && (#[trigger] before[i]).name == wanted;
                        lemma_lex_laws(
                            char_codes(wanted),
                            char_codes(wanted),
                            char_codes(wanted),
                        );
                    }
                }
                assert(all == before.push(LinkModel { name: wanted, target }));
                assert(comes_before(wanted, n, total)) by {
                    assert forall|r: nat, x: Seq<char>| n <= r < total implies lex_lt(
                        char_codes(wanted),
                        char_codes(#[trigger] ranked_name(r, pad_width(total), x)),
                    ) by {
                        lemma_ranked_names(last, r, total, name, x);
                    }
                }
                assert forall|i: int| 0 <= i < all.len() implies comes_before(
                    (#[trigger] all[i]).name,
                    n,
                    total,
                ) by {
                    if i < before.len() {
                        assert(all[i] == before[i]);
                        assert(comes_before(before[i].name, last, total));
                    }
                }
                assert forall|i: int, j: int| 0 <= i < j < all.len() implies lex_lt(
                    char_codes((#[trigger] all[i]).name),
                    char_codes((#[trigger] all[j]).name),
                ) by {
                    assert(all[i] == before[i]);
                    if j < before.len() {
                        assert(all[j] == before[j]);
                    }
                }
            },
            None => {
                assert(all == before);
                assert forall|i: int| 0 <= i < all.len() implies comes_before(
                    (#[trigger] all[i]).name,
                    n,
                    total,
                ) by {
                    assert(all[i] == before[i]);
                    assert(comes_before(before[i].name, last, total));
                }
            },
        }
    }
}

/// A listing of the links by name shows them in the order of the results, and no two have
/// one name.
pub proof fn law_links_sort_as_shown(list: Seq<Item>, hits: Seq<Hit>)
    ensures
        names_ascend(links(list, hits)),
        forall|i: int, j: int|
            0 <= i < j < links(list, hits).len() ==> (#[trigger] links(list, hits)[i]).name != (
            #[trigger] links(list, hits)[j]).name,
{
    lemma_links(list, hits, hits.len());
    let all = links(list, hits);
    assert forall|i: int, j: int| 0 <= i < j < all.len() implies (#[trigger] all[i]).name != (
    #[trigger] all[j]).name by {
        let a = char_codes(all[i].name);
        lemma_lex_laws(a, a, a);
    }
}

/// Whether a link is that to a result: it leads to the file of the result, and its name is the
/// place of the result, counted from 1, with zeros in front up to the given width, a dash and
/// the name of the file.
pub open spec fn is_link_to(
    link: LinkModel,
    list: Seq<Item>,
    hit: Hit,
    place: nat,
    width: nat,
) -> bool {
    let path = link.target;
    &&& hit.idx < list.len()
    &&& list[hit.idx as int].action == ActionModel::Open(path)
    &&& file_name(path) is Some
    &&& decoded(file_name(path)->0) is Some
    &&& exists|zeros: nat| #[trigger]
        is_named(link.name, zeros, place, width, decoded(file_name(path)->0)->0)
}

/// Whether a name is so many zeros, the digits of a place, a dash and a name.
pub open spec fn is_named(
    link: Seq<char>,
    zeros: nat,
    place: nat,
    width: nat,
    name: Seq<char>,
) -> bool {
    &&& link == Seq::new(zeros, |i: int| '0') + decimal(place) + " - "@ + name
    &&& zeros + decimal(place).len() == width
}

/// Whether a result is a file whose name is valid text.
pub open spec fn has_valid_name(list: Seq<Item>, hit: Hit) -> bool {
    &&& hit.idx < list.len()
    &&& list[hit.idx as int].action matches ActionModel::Open(path) && file_name(path) matches Some(
        name,
    ) && vstd::utf8::valid_utf8(name)
}

/// There is one link to each result that is a file with a valid name, in the order of the
/// results, under its place and its name; as many digits stand in front of all names as the
/// number of the results has, and two at least. `at` tells which result each link is to.
pub proof fn law_links(list: Seq<Item>, hits: Seq<Hit>) -> (at: Seq<int>)
    ensures
        at.len() == links(list, hits).len(),
        forall|i: int|
            0 <= i < at.len() ==> 0 <= #[trigger] at[i] < hits.len() && is_link_to(
                links(list, hits)[i],
                list,
                hits[at[i]],
                (at[i] + 1) as nat,
                if decimal(hits.len()).len() < 2 {
                    2
                } else {
                    decimal(hits.len()).len()
                },
            ),
        forall|i: int, j: int| 0 <= i < j < at.len() ==> #[trigger] at[i] < #[trigger] at[j],
        forall|k: int|
            0 <= k < hits.len() && has_valid_name(list, #[trigger] hits[k]) ==> at.contains(k),
{
    lemma_links_upto(list, hits, hits.len())
}

proof fn lemma_links_upto(list: Seq<Item>, hits: Seq<Hit>, n: nat) -> (at: Seq<int>)
    requires
        n <= hits.len(),
    ensures
        at.len() == links_upto(list, hits, n).len(),
        forall|i: int|
            0 <= i < at.len() ==> 0 <= #[trigger] at[i] < n && is_link_to(
                links_upto(list, hits, n)[i],
                list,
                hits[at[i]],
                (at[i] + 1) as nat,
                pad_width(hits.len()),
            ),
        forall|i: int, j: int| 0 <= i < j < at.len() ==> #[trigger] at[i] < #[trigger] at[j],
        forall|k: int|
            0 <= k < n && has_valid_name(list, #[trigger] hits[k]) ==> at.contains(k),
    decreases n,
{
    if n == 0 {
        Seq::empty()
    } else {
        let last = (n - 1) as nat;
        let before = lemma_links_upto(list, hits, last);
        let links = links_upto(list, hits, last);
        let all = links_upto(list, hits, n);
        let at = if result_name(list, hits[n - 1]) is Some {
            before.push(n - 1)
        } else {
            before
        };
        if result_name(list, hits[n - 1]) is Some {
            lemma_new_link(list, hits, n);
        }
        assert forall|i: int| 0 <= i < at.len() implies 0 <= #[trigger] at[i] < n && is_link_to(
            all[i],
            list,
            hits[at[i]],
            (at[i] + 1) as nat,
            pad_width(hits.len()),
        ) by {
            if i < before.len() {
                assert(at[i] == before[i]);
                assert(all[i] == links[i]);
            }
        }
        assert forall|k: int|
            0 <= k < n && has_valid_name(list, #[trigger] hits[k]) implies at.contains(k) by {
            if k < last {
                assert(before.contains(k));
                let i = choose|i: int| 0 <= i < before.len() && before[i] == k;
                assert(at[i] == k);
            } else {
                assert(at[before.len() as int] == k);
            }
        }
        at
    }
}

proof fn lemma_new_link(list: Seq<Item>, hits: Seq<Hit>, n: nat)
    requires
        0 < n <= hits.len(),
        result_name(list, hits[n - 1]) is Some,
    ensures
        ({
            let before = links_upto(list, hits, (n - 1) as nat);
            let all = links_upto(list, hits, n);
            &&& all.len() == before.len() + 1
            &&& forall|i: int| 0 <= i < before.len() ==> #[trigger] all[i] == before[i]
            &&& is_link_to(all.last(), list, hits[n - 1], n, pad_width(hits.len()))
        }),
{
    let last = (n - 1) as nat;
    let before = links_upto(list, hits, last);
    let all = links_upto(list, hits, n);
    let total = hits.len();
    let (name, target) = result_name(list, hits[n - 1])->0;
    let width = pad_width(total);
    let wanted = ranked_name(last, width, name);
    lemma_links(list, hits, last);
    assert(!link_names(before).contains(wanted)) by {
        if link_names(before).contains(wanted) {
            let i = choose|i: int| 0 <= i < before.len() && (#[trigger] before[i]).name == wanted;
            assert(comes_before(before[i].name, last, total));
            lemma_lex_laws(char_codes(wanted), char_codes(wanted), char_codes(wanted));
        }
    }
    assert(all == before.push(LinkModel { name: wanted, target }));
    lemma_decimal_grows(n, total);
    let zeros = (width - decimal(n).len()) as nat;
    assert(padded(n, width) =~= Seq::new(zeros, |i: int| '0') + decimal(n));
    assert(is_named(wanted, zeros, n, width, name));
    let link = LinkModel { name: wanted, target };
    assert(all.last() == link);
    assert(list[hits[n - 1].idx as int].action == ActionModel::Open(target));
    assert(decoded(file_name(target)->0) == Some(name));
    assert(hits[n - 1].idx < list.len());
    assert(is_named(link.name, zeros, n, width, decoded(file_name(link.target)->0)->0));
    assert(is_link_to(link, list, hits[n - 1], n, width));
}

/// A name that is not taken stays as it is; one that is gets the least number from 2 on with
/// which it is not taken.
pub proof fn law_unique_name(name: Seq<char>, taken: Set<Seq<char>>)
    ensures
        !taken.contains(name) ==> unique(name, taken) == name,
        taken.contains(name) ==> (unique(name, taken) == name && all_taken(
            name,
            taken,
            u32::MAX as nat,
        )) || exists|n: nat|
            2 <= n < u32::MAX && #[trigger] all_taken(name, taken, n) && !taken.contains(
                numbered(name, n),
            ) && unique(name, taken) == numbered(name, n),
{
    if taken.contains(name) {
        lemma_least_number(name, taken, 2);
    }
}

/// Whether a name is taken with every number from 2 up to another.
pub open spec fn all_taken(name: Seq<char>, taken: Set<Seq<char>>, end: nat) -> bool {
    forall|k: nat| 2 <= k < end ==> taken.contains(#[trigger] numbered(name, k))
}

proof fn lemma_least_number(name: Seq<char>, taken: Set<Seq<char>>, from: nat)
    requires
        2 <= from <= u32::MAX,
        all_taken(name, taken, from),
    ensures
        match free_number(name, taken, from) {
            Some(n) => 2 <= n < u32::MAX && all_taken(name, taken, n) && !taken.contains(
                numbered(name, n),
            ),
            None => all_taken(name, taken, u32::MAX as nat),
        },
    decreases u32::MAX - from,
{
    if from < u32::MAX && taken.contains(numbered(name, from)) {
        assert(all_taken(name, taken, from + 1));
        lemma_least_number(name, taken, from + 1);
        assert(free_number(name, taken, from) == free_number(name, taken, from + 1));
    }
}

/// The number stands in brackets before the last dot of a name; where there is no dot, or none
/// but at the start, it stands at the end.
pub proof fn law_numbered(stem: Seq<char>, ext: Seq<char>, n: nat)
    requires
        !ext.contains('.'),
    ensures
        stem.len() > 0 ==> numbered(stem.push('.') + ext, n) == stem + " ("@ + decimal(n) + ")."@
            + ext,
        numbered(seq!['.'] + ext, n) == seq!['.'] + ext + " ("@ + decimal(n) + ")"@,
        numbered(ext, n) == ext + " ("@ + decimal(n) + ")"@,
{
    reveal_strlit(")");
    reveal_strlit(").");
    reveal_strlit(".");
    let name = stem.push('.') + ext;
    law_rsplit_once(name, '.');
    lemma_rsplit(name, stem, ext);
    assert(stem + " ("@ + decimal(n) + ")"@ + "."@ + ext =~= stem + " ("@ + decimal(n) + ")."@ + ext);
    let none = Seq::<char>::empty();
    let dotted = seq!['.'] + ext;
    assert(none.push('.') + ext =~= dotted);
    lemma_rsplit(dotted, none, ext);
    law_rsplit_once(ext, '.');
}

proof fn lemma_rsplit(name: Seq<char>, stem: Seq<char>, ext: Seq<char>)
    requires
        name == stem.push('.') + ext,
        !ext.contains('.'),
    ensures
        rsplit_once(name, '.') == Some((stem, ext)),
{
    law_rsplit_once(name, '.');
    assert(name[stem.len() as int] == '.');
    assert(name.contains('.'));
    let (a, b) = rsplit_once(name, '.')->0;
    assert(name == a.push('.') + b);
    if a.len() < stem.len() {
        assert(name[stem.len() as int] == b[stem.len() - a.len() - 1]);
        assert(b.contains('.'));
    } else if a.len() > stem.len() {
        assert(name[a.len() as int] == '.');
        assert(name[a.len() as int] == ext[a.len() - stem.len() - 1]);
        assert(ext.contains('.'));
    }
    assert(a =~= stem) by {
        assert forall|i: int| 0 <= i < a.len() implies a[i] == stem[i] by {
            assert(name[i] == a[i]);
            assert(name[i] == stem[i]);
        }
    }
    assert(b =~= ext) by {
        assert forall|i: int| 0 <= i < b.len() implies b[i] == ext[i] by {
            assert(name[a.len() + 1 + i] == b[i]);
            assert(name[stem.len() + 1 + i] == ext[i]);
        }
    }
}

} // verus!
