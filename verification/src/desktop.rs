//! Desktop entries: where they are looked for, and what is read from them.

use vstd::prelude::*;
use vstd::slice::slice_subrange;

use crate::dedup::{
    first_indices, has_first, keep_first, keep_firsts, law_first_indices, views, Same,
};
use crate::filepath::{
    byte_views, bytes_eq, bytes_from, bytes_of, components, extension, joined, opt_path_view,
    same_path, split_components, FilePath,
};
use crate::text::{
    append_str, ascii_lowered, chars_eq, chars_eq_str, chars_of, eq_ignore_ascii_case,
    index_of_first, law_ascii_lowered, lowercase, opt_view, split, split_at_char, split_once, string_of,
    strings_view, to_lowercase, trim, trimmed,
};

verus! {

/// An application that can be started.
#[derive(Debug)]
pub struct Entry {
    pub name: String,
    pub command: Vec<String>,
    pub icon: Option<String>,
    pub path: FilePath,
}

/// The model of an [`Entry`].
#[verifier::ext_equal]
pub struct EntryModel {
    pub name: Seq<char>,
    pub command: Seq<Seq<char>>,
    pub icon: Option<Seq<char>>,
    pub path: Seq<u8>,
}

impl View for Entry {
    type V = EntryModel;

    open spec fn view(&self) -> EntryModel {
        EntryModel {
            name: self.name@,
            command: strings_view(self.command@),
            icon: opt_view(self.icon),
            path: self.path@,
        }
    }
}

/// The models of a list of entries.
pub open spec fn entries_view(entries: Seq<Entry>) -> Seq<EntryModel> {
    views(entries)
}

// ---------------------------------------------------------------------------
// Where entries are looked for
// ---------------------------------------------------------------------------

/// The directories that are searched whatever the environment holds.
pub open spec fn fixed_search_paths() -> Seq<Seq<u8>> {
    seq![
        bytes_of("/run/current-system/sw/share/applications"@),
        bytes_of("/var/lib/flatpak/exports/share/applications"@),
        bytes_of("/usr/share/applications"@),
        bytes_of("/usr/local/share/applications"@),
    ]
}

/// The directories below `HOME`.
pub open spec fn home_search_paths(home: Option<Seq<u8>>) -> Seq<Seq<u8>> {
    match home {
        Some(home) => seq![
            joined(home, bytes_of(".nix-profile/share/applications"@)),
            joined(home, bytes_of(".local/share/applications"@)),
        ],
        None => Seq::empty(),
    }
}

/// The directory of the user's own profile.
pub open spec fn user_search_paths(user: Option<Seq<char>>) -> Seq<Seq<u8>> {
    match user {
        Some(user) => seq![
            bytes_of("/etc/profiles/per-user/"@ + user + "/share/applications"@),
        ],
        None => Seq::empty(),
    }
}

/// One directory for each piece of `XDG_DATA_DIRS`.
pub open spec fn xdg_search_paths(xdg: Option<Seq<char>>) -> Seq<Seq<u8>> {
    match xdg {
        Some(xdg) => Seq::new(
            split(xdg, ':').len(),
            |i: int| joined(bytes_of(split(xdg, ':')[i]), bytes_of("applications"@)),
        ),
        None => Seq::empty(),
    }
}

pub open spec fn all_search_paths(
    home: Option<Seq<u8>>,
    user: Option<Seq<char>>,
    xdg: Option<Seq<char>>,
) -> Seq<Seq<u8>> {
    fixed_search_paths() + home_search_paths(home) + user_search_paths(user) + xdg_search_paths(xdg)
}

/// The directories to search for desktop entries, given `HOME`, `USER` and `XDG_DATA_DIRS`.
pub fn search_paths(home: Option<FilePath>, user: Option<String>, xdg: Option<String>) -> (r: Vec<
    FilePath,
>)
    ensures
        views(r@) == all_search_paths(opt_path_view(home), opt_view(user), opt_view(xdg)),
{
    let mut paths: Vec<FilePath> = Vec::new();
    paths.push(FilePath::new("/run/current-system/sw/share/applications"));
    paths.push(FilePath::new("/var/lib/flatpak/exports/share/applications"));
    paths.push(FilePath::new("/usr/share/applications"));
    paths.push(FilePath::new("/usr/local/share/applications"));
    let ghost mut done = fixed_search_paths();
    assert(views(paths@) =~= done);
    if let Some(home) = &home {
        paths.push(home.join_str(".nix-profile/share/applications"));
        paths.push(home.join_str(".local/share/applications"));
    }
    proof {
        done = done + home_search_paths(opt_path_view(home));
    }
    assert(views(paths@) =~= done);
    if let Some(user) = &user {
        let mut name: Vec<char> = Vec::new();
        append_str(&mut name, "/etc/profiles/per-user/");
        append_str(&mut name, user.as_str());
        append_str(&mut name, "/share/applications");
        assert(name@ =~= "/etc/profiles/per-user/"@ + user@ + "/share/applications"@);
        paths.push(FilePath::new(string_of(name.as_slice()).as_str()));
    }
    proof {
        done = done + user_search_paths(opt_view(user));
    }
    assert(views(paths@) =~= done);
    if let Some(xdg) = &xdg {
        let dirs = chars_of(xdg.as_str());
        let pieces = split_at_char(dirs.as_slice(), ':');
        let mut i: usize = 0;
        while i < pieces.len()
            invariant
                i <= pieces@.len(),
                pieces@.len() == split(xdg@, ':').len(),
                forall|k: int|
                    0 <= k < pieces@.len() ==> (#[trigger] pieces@[k])@ == split(xdg@, ':')[k],
                views(paths@) == done + xdg_search_paths(Some(xdg@)).take(i as int),
            decreases pieces.len() - i,
        {
            let dir = FilePath::new(string_of(pieces[i].as_slice()).as_str());
            let ghost before = views(paths@);
            paths.push(dir.join_str("applications"));
            let ghost more = xdg_search_paths(Some(xdg@));
            assert(pieces@[i as int]@ == split(xdg@, ':')[i as int]);
            assert(views(paths@) =~= before.push(more[i as int]));
            assert(more.take(i + 1) =~= more.take(i as int).push(more[i as int]));
            i += 1;
        }
        assert(xdg_search_paths(Some(xdg@)).take(i as int) =~= xdg_search_paths(Some(xdg@)));
    }
    assert(views(paths@) =~= done + xdg_search_paths(opt_view(xdg)));
    paths
}

// ---------------------------------------------------------------------------
// Command lines
// ---------------------------------------------------------------------------

pub open spec fn is_blank(c: char) -> bool {
    c == ' ' || c == '\t'
}

/// A word, unless it is empty.
pub open spec fn word(cur: Seq<char>) -> Seq<Seq<char>> {
    if cur.len() == 0 {
        Seq::empty()
    } else {
        seq![cur]
    }
}

/// The words of the rest of a command line, with `cur` read of the current word. A double
/// quote begins or ends a quoted part; outside one, blanks part words and a `%` takes the
/// character after it away.
pub open spec fn words_from(raw: Seq<char>, cur: Seq<char>, quoted: bool) -> Seq<Seq<char>>
    decreases raw.len(),
{
    if raw.len() == 0 {
        word(cur)
    } else if raw[0] == '"' {
        words_from(raw.skip(1), cur, !quoted)
    } else if is_blank(raw[0]) && !quoted {
        word(cur) + words_from(raw.skip(1), Seq::empty(), quoted)
    } else if raw[0] == '%' && !quoted {
        if raw.len() == 1 {
            word(cur)
        } else {
            words_from(raw.skip(2), cur, quoted)
        }
    } else {
        words_from(raw.skip(1), cur.push(raw[0]), quoted)
    }
}

/// The words of a command line.
pub open spec fn exec_words(raw: Seq<char>) -> Seq<Seq<char>> {
    words_from(raw, Seq::empty(), false)
}

/// The words of a command line, field codes such as `%f` dropped.
pub fn split_exec(raw: &str) -> (r: Vec<String>)
    ensures
        strings_view(r@) == exec_words(raw@),
{
    let chars = chars_of(raw);
    let mut out: Vec<String> = Vec::new();
    let mut cur: Vec<char> = Vec::new();
    let mut in_quote: bool = false;
    let mut i: usize = 0;
    assert(chars@.skip(0) =~= chars@);
    assert(strings_view(out@) + exec_words(raw@) =~= exec_words(raw@));
    assert(cur@ =~= Seq::empty());
    while i < chars.len()
        invariant
            i <= chars@.len(),
            chars@ == raw@,
            exec_words(raw@) == strings_view(out@) + words_from(
                chars@.skip(i as int),
                cur@,
                in_quote,
            ),
        decreases chars.len() - i,
    {
        let c = chars[i];
        let ghost rest = chars@.skip(i as int);
        let ghost done = strings_view(out@);
        assert(rest[0] == c);
        assert(rest.skip(1) =~= chars@.skip(i + 1));
        if c == '"' {
            in_quote = !in_quote;
        } else if (c == ' ' || c == '\t') && !in_quote {
            if cur.len() > 0 {
                out.push(string_of(cur.as_slice()));
            }
            assert(strings_view(out@) =~= done + word(cur@));
            assert(done + (word(cur@) + words_from(rest.skip(1), Seq::empty(), false)) =~= done
                + word(cur@) + words_from(rest.skip(1), Seq::empty(), false));
            cur = Vec::new();
            assert(cur@ =~= Seq::empty());
        } else if c == '%' && !in_quote {
            if i + 1 < chars.len() {
                assert(rest.skip(2) =~= chars@.skip(i + 2));
                i += 1;
            } else {
                assert(rest.skip(1).len() == 0);
            }
        } else {
            cur.push(c);
        }
        i += 1;
    }
    let ghost done = strings_view(out@);
    if cur.len() > 0 {
        out.push(string_of(cur.as_slice()));
    }
    assert(strings_view(out@) =~= done + word(cur@));
    out
}

/// A word that is not empty and holds no double quote.
pub open spec fn is_plain(w: Seq<char>) -> bool {
    w.len() > 0 && !w.contains('"')
}

/// No word of a command line is empty, and none holds a double quote.
pub proof fn law_exec_words_are_plain(raw: Seq<char>)
    ensures
        forall|i: int| 0 <= i < exec_words(raw).len() ==> is_plain(#[trigger] exec_words(raw)[i]),
{
    lemma_words_plain(raw, Seq::empty(), false);
}

proof fn lemma_words_plain(raw: Seq<char>, cur: Seq<char>, quoted: bool)
    requires
        !cur.contains('"'),
    ensures
        forall|i: int|
            0 <= i < words_from(raw, cur, quoted).len() ==> is_plain(
                #[trigger] words_from(raw, cur, quoted)[i],
            ),
    decreases raw.len(),
{
    let words = words_from(raw, cur, quoted);
    assert(forall|i: int| 0 <= i < word(cur).len() ==> is_plain(#[trigger] word(cur)[i]));
    if raw.len() == 0 {
    } else if raw[0] == '"' {
        lemma_words_plain(raw.skip(1), cur, !quoted);
        assert(words == words_from(raw.skip(1), cur, !quoted));
    } else if is_blank(raw[0]) && !quoted {
        let later = words_from(raw.skip(1), Seq::empty(), quoted);
        lemma_words_plain(raw.skip(1), Seq::empty(), quoted);
        assert forall|i: int| 0 <= i < words.len() implies is_plain(#[trigger] words[i]) by {
            if i >= word(cur).len() {
                assert(words[i] == later[i - word(cur).len()]);
            }
        }
    } else if raw[0] == '%' && !quoted {
        if raw.len() > 1 {
            lemma_words_plain(raw.skip(2), cur, quoted);
            assert(words == words_from(raw.skip(2), cur, quoted));
        }
    } else {
        assert(!cur.push(raw[0]).contains('"'));
        lemma_words_plain(raw.skip(1), cur.push(raw[0]), quoted);
        assert(words == words_from(raw.skip(1), cur.push(raw[0]), quoted));
    }
}

/// A word that holds no blank and no `%`.
pub open spec fn is_unbroken(w: Seq<char>) -> bool {
    forall|k: int| 0 <= k < w.len() ==> !is_blank(#[trigger] w[k]) && w[k] != '%'
}

/// Where a command line has no double quote, its words hold no blank and no `%`.
pub proof fn law_unquoted_words(raw: Seq<char>)
    requires
        !raw.contains('"'),
    ensures
        forall|i: int|
            0 <= i < exec_words(raw).len() ==> is_unbroken(#[trigger] exec_words(raw)[i]),
{
    lemma_unquoted(raw, Seq::empty());
}

proof fn lemma_unquoted(raw: Seq<char>, cur: Seq<char>)
    requires
        !raw.contains('"'),
        is_unbroken(cur),
    ensures
        forall|i: int|
            0 <= i < words_from(raw, cur, false).len() ==> is_unbroken(
                #[trigger] words_from(raw, cur, false)[i],
            ),
    decreases raw.len(),
{
    assert(forall|i: int| 0 <= i < word(cur).len() ==> is_unbroken(#[trigger] word(cur)[i]));
    if raw.len() > 0 {
        let words = words_from(raw, cur, false);
        assert(raw.contains(raw[0]));
        lemma_skip_contains(raw, 1);
        if is_blank(raw[0]) {
            let later = words_from(raw.skip(1), Seq::empty(), false);
            lemma_unquoted(raw.skip(1), Seq::empty());
            assert forall|i: int| 0 <= i < words.len() implies is_unbroken(#[trigger] words[i]) by {
                if i >= word(cur).len() {
                    assert(words[i] == later[i - word(cur).len()]);
                }
            }
        } else if raw[0] == '%' {
            if raw.len() > 1 {
                lemma_skip_contains(raw, 2);
                lemma_unquoted(raw.skip(2), cur);
                assert(words == words_from(raw.skip(2), cur, false));
            }
        } else {
            lemma_unquoted(raw.skip(1), cur.push(raw[0]));
            assert(words == words_from(raw.skip(1), cur.push(raw[0]), false));
        }
    }
}

proof fn lemma_skip_contains(s: Seq<char>, n: int)
    requires
        0 <= n <= s.len(),
        !s.contains('"'),
    ensures
        !s.skip(n).contains('"'),
{
    assert forall|k: int| 0 <= k < s.skip(n).len() implies s.skip(n)[k] != '"' by {
        assert(s.contains(s[k + n]));
    }
}

/// Whether no character of a text means anything but itself in a command line.
pub open spec fn is_ordinary(w: Seq<char>) -> bool {
    forall|k: int| 0 <= k < w.len() ==> !is_blank(#[trigger] w[k]) && w[k] != '%' && w[k] != '"'
}

/// Ordinary characters join the word that is being read.
proof fn lemma_ordinary(w: Seq<char>, rest: Seq<char>, cur: Seq<char>)
    requires
        is_ordinary(w),
    ensures
        words_from(w + rest, cur, false) == words_from(rest, cur + w, false),
    decreases w.len(),
{
    if w.len() == 0 {
        assert(w + rest =~= rest);
        assert(cur + w =~= cur);
    } else {
        let tail = w.skip(1);
        assert forall|k: int| 0 <= k < tail.len() implies !is_blank(#[trigger] tail[k]) && tail[k]
            != '%' && tail[k] != '"' by {
            assert(tail[k] == w[k + 1]);
        }
        assert((w + rest)[0] == w[0]);
        assert((w + rest).skip(1) =~= tail + rest);
        lemma_ordinary(tail, rest, cur.push(w[0]));
        assert(cur.push(w[0]) + tail =~= cur + w);
    }
}

/// Within quotes every character but the quote joins the word that is being read.
proof fn lemma_quoted(w: Seq<char>, rest: Seq<char>, cur: Seq<char>)
    requires
        !w.contains('"'),
    ensures
        words_from(w + rest, cur, true) == words_from(rest, cur + w, true),
    decreases w.len(),
{
    if w.len() == 0 {
        assert(w + rest =~= rest);
        assert(cur + w =~= cur);
    } else {
        let tail = w.skip(1);
        assert(w.contains(w[0]));
        assert(!tail.contains('"')) by {
            if tail.contains('"') {
                let k = choose|k: int| 0 <= k < tail.len() && tail[k] == '"';
                assert(w[k + 1] == '"');
            }
        }
        assert((w + rest)[0] == w[0]);
        assert((w + rest).skip(1) =~= tail + rest);
        lemma_quoted(tail, rest, cur.push(w[0]));
        assert(cur.push(w[0]) + tail =~= cur + w);
    }
}

/// Quotes keep what is between them together with what is next to them, blanks and `%`
/// included, and are no part of the word. What follows a blank behind it are further words.
pub proof fn law_quotes_keep_a_word(
    a: Seq<char>,
    b: Seq<char>,
    c: Seq<char>,
    blank: char,
    rest: Seq<char>,
)
    requires
        is_ordinary(a),
        !b.contains('"'),
        is_ordinary(c),
        is_blank(blank),
        a.len() + b.len() + c.len() > 0,
    ensures
        exec_words(a.push('"') + b.push('"') + c) == seq![a + b + c],
        exec_words(a.push('"') + b.push('"') + c.push(blank) + rest) == seq![a + b + c]
            + exec_words(rest),
{
    let none = Seq::<char>::empty();
    let w = a + b + c;
    let tail = c.push(blank) + rest;
    lemma_quotes(a, b, c, none);
    assert(a.push('"') + b.push('"') + c =~= a.push('"') + b.push('"') + (c + none));
    lemma_quotes(a, b, c, seq![blank] + rest);
    assert(a.push('"') + b.push('"') + c.push(blank) + rest =~= a.push('"') + b.push('"') + (c + (
    seq![blank] + rest)));
    assert((seq![blank] + rest).skip(1) =~= rest);
}

proof fn lemma_quotes(a: Seq<char>, b: Seq<char>, c: Seq<char>, rest: Seq<char>)
    requires
        is_ordinary(a),
        !b.contains('"'),
        is_ordinary(c),
    ensures
        exec_words(a.push('"') + b.push('"') + (c + rest)) == words_from(rest, a + b + c, false),
{
    let none = Seq::<char>::empty();
    let whole = a.push('"') + b.push('"') + (c + rest);
    let after_a = seq!['"'] + (b + (seq!['"'] + (c + rest)));
    assert(whole =~= a + after_a);
    lemma_ordinary(a, after_a, none);
    assert(none + a =~= a);
    assert(after_a.skip(1) =~= b + (seq!['"'] + (c + rest)));
    lemma_quoted(b, seq!['"'] + (c + rest), a);
    assert((seq!['"'] + (c + rest)).skip(1) =~= c + rest);
    lemma_ordinary(c, rest, a + b);
}

/// A field code, a `%` and the character behind it, leaves nothing in the word that it is in,
/// whatever that character is; nor does a `%` at the end.
pub proof fn law_field_codes_vanish(a: Seq<char>, code: char, rest: Seq<char>)
    requires
        is_ordinary(a),
    ensures
        exec_words(a.push('%').push(code) + rest) == exec_words(a + rest),
        exec_words(a.push('%')) == exec_words(a),
{
    let none = Seq::<char>::empty();
    let tail = seq!['%', code] + rest;
    assert(a.push('%').push(code) + rest =~= a + tail);
    lemma_ordinary(a, tail, none);
    assert(none + a =~= a);
    assert(tail.skip(2) =~= rest);
    lemma_ordinary(a, rest, none);
    assert(a.push('%') =~= a + seq!['%']);
    lemma_ordinary(a, seq!['%'], none);
    lemma_ordinary(a, none, none);
    assert(a + none =~= a);
}

/// A blank outside quotes parts words, and blanks make no word of their own.
pub proof fn law_blanks_part_words(a: Seq<char>, blank: char, rest: Seq<char>)
    requires
        is_ordinary(a),
        is_blank(blank),
    ensures
        a.len() > 0 ==> exec_words(a) == seq![a],
        a.len() > 0 ==> exec_words(a.push(blank) + rest) == seq![a] + exec_words(rest),
        exec_words(seq![blank] + rest) == exec_words(rest),
        exec_words(Seq::empty()) == Seq::<Seq<char>>::empty(),
{
    let none = Seq::<char>::empty();
    assert(none + a =~= a);
    lemma_ordinary(a, none, none);
    assert(a + none =~= a);
    let tail = seq![blank] + rest;
    assert(a.push(blank) + rest =~= a + tail);
    lemma_ordinary(a, tail, none);
    assert(tail.skip(1) =~= rest);
    assert(Seq::<Seq<char>>::empty() + exec_words(rest) =~= exec_words(rest));
}

/// Blanks are the space and the tabulator.
pub proof fn law_blanks(c: char)
    ensures
        is_blank(c) <==> c as u32 == 32 || c as u32 == 9,
{
}

// ---------------------------------------------------------------------------
// One desktop entry
// ---------------------------------------------------------------------------

/// What has been read of a desktop entry.
#[verifier::ext_equal]
pub struct Fields {
    pub in_section: bool,
    pub name: Option<Seq<char>>,
    pub command: Option<Seq<char>>,
    pub icon: Option<Seq<char>>,
    pub no_display: bool,
    pub hidden: bool,
}

/// Nothing read yet.
pub open spec fn no_fields() -> Fields {
    Fields {
        in_section: false,
        name: None,
        command: None,
        icon: None,
        no_display: false,
        hidden: false,
    }
}

/// The name in a line of the form `[name]`.
pub open spec fn section_name(line: Seq<char>) -> Option<Seq<char>> {
    if line.len() >= 2 && line[0] == '[' && line.last() == ']' {
        Some(line.subrange(1, line.len() - 1))
    } else {
        None
    }
}

/// Whether a value says `true`, in any case.
pub open spec fn says_true(value: Seq<char>) -> bool {
    ascii_lowered(value) == ascii_lowered("true"@)
}

/// What a `key=value` line of the entry's section sets.
pub open spec fn with_field(f: Fields, key: Seq<char>, value: Seq<char>) -> Fields {
    if key == "Name"@ {
        Fields { name: Some(value), ..f }
    } else if key == "Exec"@ {
        Fields { command: Some(value), ..f }
    } else if key == "Icon"@ {
        Fields { icon: Some(value), ..f }
    } else if key == "NoDisplay"@ {
        Fields { no_display: says_true(value), ..f }
    } else if key == "Hidden"@ {
        Fields { hidden: says_true(value), ..f }
    } else {
        f
    }
}

/// What is known after a line. Blank lines and comments say nothing; a `[section]` line
/// begins a section; a `key=value` line counts within `[Desktop Entry]` alone.
pub open spec fn after_line(f: Fields, raw: Seq<char>) -> Fields {
    let line = trimmed(raw);
    if line.len() == 0 || line[0] == '#' {
        f
    } else {
        match section_name(line) {
            Some(name) => Fields { in_section: name == "Desktop Entry"@, ..f },
            None => if !f.in_section {
                f
            } else {
                match split_once(line, '=') {
                    Some((key, value)) => with_field(f, trimmed(key), trimmed(value)),
                    None => f,
                }
            },
        }
    }
}

/// What is known after a list of lines.
pub open spec fn after_lines(lines: Seq<Seq<char>>) -> Fields
    decreases lines.len(),
{
    if lines.len() == 0 {
        no_fields()
    } else {
        after_line(after_lines(lines.drop_last()), lines.last())
    }
}

/// The entry that the fields make: one that is not hidden, and has a name and a command.
pub open spec fn entry_of(f: Fields, path: Seq<u8>) -> Option<EntryModel> {
    if f.no_display || f.hidden {
        None
    } else {
        match (f.name, f.command) {
            (Some(name), Some(command)) => Some(
                EntryModel { name, command: exec_words(command), icon: f.icon, path },
            ),
            _ => None,
        }
    }
}

/// The entry that a file holds.
pub open spec fn parsed(text: Seq<char>, path: Seq<u8>) -> Option<EntryModel> {
    entry_of(after_lines(split(text, '\n')), path)
}

/// The executable form of [`Fields`].
struct RawFields {
    in_section: bool,
    name: Option<String>,
    command: Option<String>,
    icon: Option<String>,
    no_display: bool,
    hidden: bool,
}

impl RawFields {
    spec fn model(&self) -> Fields {
        Fields {
            in_section: self.in_section,
            name: opt_view(self.name),
            command: opt_view(self.command),
            icon: opt_view(self.icon),
            no_display: self.no_display,
            hidden: self.hidden,
        }
    }

    fn read_line(&mut self, raw: &[char])
        ensures
            final(self).model() == after_line(old(self).model(), raw@),
    {
        let line = trim(raw);
        if line.len() == 0 || line[0] == '#' {
            return ;
        }
        let n: usize = line.len();
        if n >= 2 && line[0] == '[' && line[n - 1] == ']' {
            let name = slice_subrange(line, 1, n - 1);
            assert(section_name(line@) == Some(name@));
            self.in_section = chars_eq_str(name, "Desktop Entry");
            return ;
        }
        if !self.in_section {
            return ;
        }
        if let Some(i) = index_of_first(line, '=') {
            let key = trim(slice_subrange(line, 0, i));
            let value = trim(slice_subrange(line, i + 1, n));
            assert(line@.take(i as int) =~= line@.subrange(0, i as int));
            assert(line@.skip(i + 1) =~= line@.subrange(i + 1, n as int));
            self.set(key, value);
        }
    }

    fn set(&mut self, key: &[char], value: &[char])
        ensures
            final(self).model() == with_field(old(self).model(), key@, value@),
    {
        if chars_eq_str(key, "Name") {
            self.name = Some(string_of(value));
        } else if chars_eq_str(key, "Exec") {
            self.command = Some(string_of(value));
        } else if chars_eq_str(key, "Icon") {
            self.icon = Some(string_of(value));
        } else if chars_eq_str(key, "NoDisplay") {
            self.no_display = is_true(value);
        } else if chars_eq_str(key, "Hidden") {
            self.hidden = is_true(value);
        }
    }
}

fn is_true(value: &[char]) -> (r: bool)
    ensures
        r == says_true(value@),
{
    let word = chars_of("true");
    eq_ignore_ascii_case(value, word.as_slice())
}

/// The entry in a file with the given text.
pub fn parse(text: &str, path: &FilePath) -> (r: Option<Entry>)
    ensures
        parsed(text@, path@) == (match r {
            Some(e) => Some(e@),
            None => None,
        }),
{
    let chars = chars_of(text);
    let lines = split_at_char(chars.as_slice(), '\n');
    let ghost all = split(text@, '\n');
    let mut fields = RawFields {
        in_section: false,
        name: None,
        command: None,
        icon: None,
        no_display: false,
        hidden: false,
    };
    let mut i: usize = 0;
    while i < lines.len()
        invariant
            i <= lines@.len(),
            lines@.len() == all.len(),
            forall|k: int| 0 <= k < lines@.len() ==> (#[trigger] lines@[k])@ == all[k],
            fields.model() == after_lines(all.take(i as int)),
        decreases lines.len() - i,
    {
        assert(all.take(i + 1).drop_last() =~= all.take(i as int));
        fields.read_line(lines[i].as_slice());
        i += 1;
    }
    assert(all.take(i as int) =~= all);
    if fields.no_display || fields.hidden {
        return None;
    }
    match (fields.name, fields.command) {
        (Some(name), Some(command)) => {
            let command = split_exec(command.as_str());
            Some(Entry { name, command, icon: fields.icon, path: path.clone() })
        },
        _ => None,
    }
}

/// Only the section `[Desktop Entry]` counts: outside it, no line that does not begin a
/// section changes what is known.
pub proof fn law_other_sections_are_ignored(f: Fields, raw: Seq<char>)
    requires
        !f.in_section,
        section_name(trimmed(raw)) is None,
    ensures
        after_line(f, raw) == f,
{
}

/// Whether a line is `[name]`, white space aside.
pub open spec fn is_header(line: Seq<char>, name: Seq<char>) -> bool {
    trimmed(line) == seq!['['] + name + seq![']']
}

/// Whether a line begins a section.
pub open spec fn begins_section(line: Seq<char>) -> bool {
    exists|name: Seq<char>| #[trigger] is_header(line, name)
}

/// Whether the last line before the one at `i` that begins a section is `[Desktop Entry]`.
pub open spec fn is_within_entry(lines: Seq<Seq<char>>, i: int) -> bool {
    exists|h: int|
        0 <= h < i && is_header(#[trigger] lines[h], "Desktop Entry"@) && forall|k: int|
            h < k < i ==> !begins_section(#[trigger] lines[k])
}

/// Whether a line is `key=value` in the section `[Desktop Entry]`, white space aside, and no
/// comment.
pub open spec fn sets(
    lines: Seq<Seq<char>>,
    i: int,
    key: Seq<char>,
    value: Seq<char>,
) -> bool {
    &&& is_within_entry(lines, i)
    &&& !begins_section(lines[i])
    &&& trimmed(lines[i]).len() > 0
    &&& trimmed(lines[i])[0] != '#'
    &&& split_once(trimmed(lines[i]), '=') matches Some(parts) && trimmed(parts.0) == key
        && trimmed(parts.1) == value
}

/// Whether a line sets a key.
pub open spec fn sets_key(lines: Seq<Seq<char>>, i: int, key: Seq<char>) -> bool {
    exists|value: Seq<char>| #[trigger] sets(lines, i, key, value)
}

/// Whether the last line that sets a key sets it to the value, or none sets it and there is
/// none.
pub open spec fn is_last_value(
    lines: Seq<Seq<char>>,
    key: Seq<char>,
    value: Option<Seq<char>>,
) -> bool {
    match value {
        Some(value) => exists|i: int|
            0 <= i < lines.len() && #[trigger] sets(lines, i, key, value) && forall|k: int|
                i < k < lines.len() ==> !#[trigger] sets_key(lines, k, key),
        None => forall|k: int| 0 <= k < lines.len() ==> !#[trigger] sets_key(lines, k, key),
    }
}

/// Whether a value is the word `true`, each letter small or capital.
pub open spec fn is_yes(value: Seq<char>) -> bool {
    &&& value.len() == 4
    &&& value[0] == 't' || value[0] == 'T'
    &&& value[1] == 'r' || value[1] == 'R'
    &&& value[2] == 'u' || value[2] == 'U'
    &&& value[3] == 'e' || value[3] == 'E'
}

/// Whether the last value of a key is `true`.
pub open spec fn is_switched_on(lines: Seq<Seq<char>>, key: Seq<char>) -> bool {
    exists|value: Seq<char>| #[trigger] is_last_value(lines, key, Some(value)) && is_yes(value)
}

proof fn lemma_says_true(value: Seq<char>)
    ensures
        says_true(value) == is_yes(value),
{
    reveal_strlit("true");
    law_ascii_lowered(value, "true"@);
    if is_yes(value) {
        assert forall|i: int| 0 <= i < value.len() implies ((#[trigger] value[i]) == "true"@[i] || (
        'A' <= value[i] <= 'Z' && "true"@[i] as u32 == value[i] as u32 + 32) || ('A' <= "true"@[i]
            <= 'Z' && value[i] as u32 == "true"@[i] as u32 + 32)) by {
            if i == 0 {
            } else if i == 1 {
            } else if i == 2 {
            } else {
            }
        }
    }
    if says_true(value) {
        assert(value.len() == 4);
        assert(value[0] == value[0] && value[1] == value[1] && value[2] == value[2] && value[3]
            == value[3]);
    }
}

proof fn lemma_header(line: Seq<char>)
    ensures
        section_name(trimmed(line)) is Some <==> begins_section(line),
        forall|name: Seq<char>|
            #[trigger] is_header(line, name) <==> section_name(trimmed(line)) == Some(name),
{
    let t = trimmed(line);
    assert forall|name: Seq<char>|
        #[trigger] is_header(line, name) <==> section_name(t) == Some(name) by {
        if is_header(line, name) {
            assert(t.subrange(1, t.len() - 1) =~= name);
        }
        if section_name(t) == Some(name) {
            assert(t =~= seq!['['] + name + seq![']']);
        }
    }
    if let Some(name) = section_name(t) {
        assert(is_header(line, name));
    }
}

proof fn lemma_sets_front(lines: Seq<Seq<char>>, i: int)
    requires
        0 <= i < lines.len() - 1,
    ensures
        is_within_entry(lines, i) == is_within_entry(lines.drop_last(), i),
        forall|key: Seq<char>, value: Seq<char>|
            #[trigger] sets(lines, i, key, value) == sets(lines.drop_last(), i, key, value),
        forall|key: Seq<char>|
            #[trigger] sets_key(lines, i, key) == sets_key(lines.drop_last(), i, key),
{
    let init = lines.drop_last();
    assert(forall|k: int| 0 <= k < init.len() ==> lines[k] == init[k]);
    lemma_within(lines, init, i);
    assert forall|key: Seq<char>, value: Seq<char>|
        #[trigger] sets(lines, i, key, value) == sets(init, i, key, value) by {
        assert(lines[i] == init[i]);
    }
    assert forall|key: Seq<char>| #[trigger] sets_key(lines, i, key) == sets_key(init, i, key) by {
        if sets_key(lines, i, key) {
            let v = choose|v: Seq<char>| #[trigger] sets(lines, i, key, v);
            assert(sets(init, i, key, v));
        }
        if sets_key(init, i, key) {
            let v = choose|v: Seq<char>| #[trigger] sets(init, i, key, v);
            assert(sets(lines, i, key, v));
        }
    }
}

/// Only the lines before one decide on its section.
proof fn lemma_within(a: Seq<Seq<char>>, b: Seq<Seq<char>>, i: int)
    requires
        forall|k: int| 0 <= k < i ==> a[k] == b[k],
    ensures
        is_within_entry(a, i) == is_within_entry(b, i),
{
    if is_within_entry(a, i) {
        let h = choose|h: int|
            0 <= h < i && is_header(#[trigger] a[h], "Desktop Entry"@) && forall|k: int|
                h < k < i ==> !begins_section(#[trigger] a[k]);
        assert(a[h] == b[h]);
        assert forall|k: int| h < k < i implies !begins_section(#[trigger] b[k]) by {
            assert(a[k] == b[k]);
        }
    }
    if is_within_entry(b, i) {
        let h = choose|h: int|
            0 <= h < i && is_header(#[trigger] b[h], "Desktop Entry"@) && forall|k: int|
                h < k < i ==> !begins_section(#[trigger] b[k]);
        assert(a[h] == b[h]);
        assert forall|k: int| h < k < i implies !begins_section(#[trigger] a[k]) by {
            assert(a[k] == b[k]);
        }
    }
}

proof fn lemma_within_next(lines: Seq<Seq<char>>, i: int)
    requires
        0 <= i < lines.len(),
    ensures
        is_header(lines[i], "Desktop Entry"@) ==> is_within_entry(lines, i + 1),
        begins_section(lines[i]) && !is_header(lines[i], "Desktop Entry"@) ==> !is_within_entry(
            lines,
            i + 1,
        ),
        !begins_section(lines[i]) ==> is_within_entry(lines, i + 1) == is_within_entry(lines, i),
{
    if is_within_entry(lines, i + 1) {
        let h = choose|h: int|
            0 <= h < i + 1 && is_header(#[trigger] lines[h], "Desktop Entry"@) && forall|k: int|
                h < k < i + 1 ==> !begins_section(#[trigger] lines[k]);
        assert(begins_section(lines[h]));
        if h < i {
            assert(!begins_section(lines[i]));
        }
    }
    if is_within_entry(lines, i) && !begins_section(lines[i]) {
        let h = choose|h: int|
            0 <= h < i && is_header(#[trigger] lines[h], "Desktop Entry"@) && forall|k: int|
                h < k < i ==> !begins_section(#[trigger] lines[k]);
        assert(is_header(lines[h], "Desktop Entry"@));
    }
}

/// A further line changes the last value of a key only where it sets the key.
proof fn lemma_last_value(
    lines: Seq<Seq<char>>,
    key: Seq<char>,
    before: Option<Seq<char>>,
    after: Option<Seq<char>>,
)
    requires
        lines.len() > 0,
        is_last_value(lines.drop_last(), key, before),
        sets_key(lines, lines.len() - 1, key) ==> (after matches Some(v) && sets(
            lines,
            lines.len() - 1,
            key,
            v,
        )),
        !sets_key(lines, lines.len() - 1, key) ==> after == before,
    ensures
        is_last_value(lines, key, after),
{
    let init = lines.drop_last();
    let last = lines.len() - 1;
    assert forall|k: int| 0 <= k < last implies sets_key(lines, k, key) == #[trigger] sets_key(
        init,
        k,
        key,
    ) by {
        lemma_sets_front(lines, k);
    }
    if !sets_key(lines, last, key) {
        if let Some(v) = before {
            let i = choose|i: int|
                0 <= i < init.len() && #[trigger] sets(init, i, key, v) && forall|k: int|
                    i < k < init.len() ==> !#[trigger] sets_key(init, k, key);
            lemma_sets_front(lines, i);
            assert(sets(lines, i, key, v));
            assert forall|k: int| i < k < lines.len() implies !#[trigger] sets_key(lines, k, key) by {
                if k < last {
                    assert(!sets_key(init, k, key));
                }
            }
        } else {
            assert forall|k: int| 0 <= k < lines.len() implies !#[trigger] sets_key(lines, k, key) by {
                if k < last {
                    assert(!sets_key(init, k, key));
                }
            }
        }
    }
}

/// Whether the fields are what the lines say.
spec fn are_fields_of(f: Fields, lines: Seq<Seq<char>>) -> bool {
    &&& f.in_section == is_within_entry(lines, lines.len() as int)
    &&& is_last_value(lines, "Name"@, f.name)
    &&& is_last_value(lines, "Exec"@, f.command)
    &&& is_last_value(lines, "Icon"@, f.icon)
    &&& exists|v: Option<Seq<char>>| is_flag(lines, "NoDisplay"@, f.no_display, v)
    &&& exists|v: Option<Seq<char>>| is_flag(lines, "Hidden"@, f.hidden, v)
}

spec fn is_flag(
    lines: Seq<Seq<char>>,
    key: Seq<char>,
    flag: bool,
    value: Option<Seq<char>>,
) -> bool {
    is_last_value(lines, key, value) && flag == (value matches Some(v) && is_yes(v))
}

/// What the last line sets, if it sets anything.
proof fn lemma_last_line(lines: Seq<Seq<char>>, f: Fields) -> (set: Option<
    (Seq<char>, Seq<char>),
>)
    requires
        lines.len() > 0,
        f.in_section == is_within_entry(lines, lines.len() - 1),
    ensures
        after_line(f, lines.last()).in_section == is_within_entry(lines, lines.len() as int),
        set matches Some((key, value)) ==> after_line(f, lines.last()) == with_field(f, key, value)
            && sets(lines, lines.len() - 1, key, value),
        set is None ==> after_line(f, lines.last()) == (Fields {
            in_section: after_line(f, lines.last()).in_section,
            ..f
        }),
        forall|key: Seq<char>|
            #[trigger] sets_key(lines, lines.len() - 1, key) <==> set is Some && (set->0).0 == key,
        forall|key: Seq<char>, value: Seq<char>|
            #[trigger] sets(lines, lines.len() - 1, key, value) ==> set == Some((key, value)),
{
    let last = lines.len() - 1;
    let line = trimmed(lines[last]);
    lemma_header(lines[last]);
    lemma_within_next(lines, last);
    let set = if is_within_entry(lines, last) && !begins_section(lines[last]) && line.len() > 0
        && line[0] != '#' {
        match split_once(line, '=') {
            Some(parts) => Some((trimmed(parts.0), trimmed(parts.1))),
            None => None,
        }
    } else {
        None
    };
    if let Some((key, value)) = set {
        assert(sets(lines, last, key, value));
    }
    assert forall|key: Seq<char>|
        #[trigger] sets_key(lines, last, key) <==> set is Some && (set->0).0 == key by {
        if sets_key(lines, last, key) {
            let v = choose|v: Seq<char>| #[trigger] sets(lines, last, key, v);
        }
    }
    set
}

proof fn lemma_keys_differ()
    ensures
        "Name"@ != "Exec"@,
        "Name"@ != "Icon"@,
        "Name"@ != "NoDisplay"@,
        "Name"@ != "Hidden"@,
        "Exec"@ != "Icon"@,
        "Exec"@ != "NoDisplay"@,
        "Exec"@ != "Hidden"@,
        "Icon"@ != "NoDisplay"@,
        "Icon"@ != "Hidden"@,
        "NoDisplay"@ != "Hidden"@,
{
    reveal_strlit("Name");
    reveal_strlit("Exec");
    reveal_strlit("Icon");
    reveal_strlit("NoDisplay");
    reveal_strlit("Hidden");
    assert("Name"@[0] == 'N' && "Exec"@[0] == 'E' && "Icon"@[0] == 'I');
    assert("Hidden"@[0] == 'H' && "NoDisplay"@[0] == 'N');
    assert("Name"@.len() == 4 && "NoDisplay"@.len() == 9);
}

proof fn lemma_fields(lines: Seq<Seq<char>>)
    ensures
        are_fields_of(after_lines(lines), lines),
    decreases lines.len(),
{
    if lines.len() == 0 {
        assert(is_flag(lines, "NoDisplay"@, after_lines(lines).no_display, None));
        assert(is_flag(lines, "Hidden"@, after_lines(lines).hidden, None));
        assert(after_lines(lines).in_section == is_within_entry(lines, 0));
    } else {
        let init = lines.drop_last();
        let last = lines.len() - 1;
        lemma_fields(init);
        lemma_keys_differ();
        let f = after_lines(init);
        let g = after_lines(lines);
        lemma_within(lines, init, last);
        let set = lemma_last_line(lines, f);
        let nd = choose|v: Option<Seq<char>>| is_flag(init, "NoDisplay"@, f.no_display, v);
        let hd = choose|v: Option<Seq<char>>| is_flag(init, "Hidden"@, f.hidden, v);
        let nd2 = if set is Some && (set->0).0 == "NoDisplay"@ {
            Some((set->0).1)
        } else {
            nd
        };
        let hd2 = if set is Some && (set->0).0 == "Hidden"@ {
            Some((set->0).1)
        } else {
            hd
        };
        if let Some((key, value)) = set {
            lemma_says_true(value);
        }
        lemma_last_value(lines, "Name"@, f.name, g.name);
        lemma_last_value(lines, "Exec"@, f.command, g.command);
        lemma_last_value(lines, "Icon"@, f.icon, g.icon);
        lemma_last_value(lines, "NoDisplay"@, nd, nd2);
        lemma_last_value(lines, "Hidden"@, hd, hd2);
        assert(is_flag(lines, "NoDisplay"@, g.no_display, nd2));
        assert(is_flag(lines, "Hidden"@, g.hidden, hd2));
    }
}

proof fn lemma_last_value_unique(
    lines: Seq<Seq<char>>,
    key: Seq<char>,
    a: Option<Seq<char>>,
    b: Option<Seq<char>>,
)
    requires
        is_last_value(lines, key, a),
        is_last_value(lines, key, b),
    ensures
        a == b,
{
    if let Some(x) = a {
        let i = choose|i: int|
            0 <= i < lines.len() && #[trigger] sets(lines, i, key, x) && forall|k: int|
                i < k < lines.len() ==> !#[trigger] sets_key(lines, k, key);
        assert(sets_key(lines, i, key));
        if let Some(y) = b {
            let j = choose|j: int|
                0 <= j < lines.len() && #[trigger] sets(lines, j, key, y) && forall|k: int|
                    j < k < lines.len() ==> !#[trigger] sets_key(lines, k, key);
            assert(sets_key(lines, j, key));
            assert(i == j);
        }
    } else if let Some(y) = b {
        let j = choose|j: int|
            0 <= j < lines.len() && #[trigger] sets(lines, j, key, y) && forall|k: int|
                j < k < lines.len() ==> !#[trigger] sets_key(lines, k, key);
        assert(sets_key(lines, j, key));
    }
}

/// Whether an entry is what the lines of a file say: each field is the last value of its key
/// in the section `[Desktop Entry]`, and neither `NoDisplay` nor `Hidden` is `true`.
pub open spec fn is_entry_of(e: EntryModel, lines: Seq<Seq<char>>, path: Seq<u8>) -> bool {
    &&& is_last_value(lines, "Name"@, Some(e.name))
    &&& exists|command: Seq<char>|
        #[trigger] is_last_value(lines, "Exec"@, Some(command)) && e.command == exec_words(command)
    &&& is_last_value(lines, "Icon"@, e.icon)
    &&& e.path == path
    &&& !is_switched_on(lines, "NoDisplay"@)
    &&& !is_switched_on(lines, "Hidden"@)
}

/// A file holds an entry if and only if its lines say one; the entry is the one they say.
pub proof fn law_parsed_entry(text: Seq<char>, path: Seq<u8>, e: EntryModel)
    ensures
        parsed(text, path) == Some(e) <==> is_entry_of(e, split(text, '\n'), path),
{
    let lines = split(text, '\n');
    let f = after_lines(lines);
    lemma_fields(lines);
    lemma_switch(lines, "NoDisplay"@, f.no_display);
    lemma_switch(lines, "Hidden"@, f.hidden);
    if parsed(text, path) == Some(e) {
        assert(is_last_value(lines, "Exec"@, Some(f.command->0)));
    }
    if is_entry_of(e, lines, path) {
        let command = choose|command: Seq<char>|
            #[trigger] is_last_value(lines, "Exec"@, Some(command)) && e.command == exec_words(
                command,
            );
        lemma_last_value_unique(lines, "Name"@, f.name, Some(e.name));
        lemma_last_value_unique(lines, "Exec"@, f.command, Some(command));
        lemma_last_value_unique(lines, "Icon"@, f.icon, e.icon);
    }
}

proof fn lemma_switch(lines: Seq<Seq<char>>, key: Seq<char>, flag: bool)
    requires
        exists|v: Option<Seq<char>>| is_flag(lines, key, flag, v),
    ensures
        flag == is_switched_on(lines, key),
{
    let v = choose|v: Option<Seq<char>>| is_flag(lines, key, flag, v);
    if is_switched_on(lines, key) {
        let value = choose|value: Seq<char>|
            #[trigger] is_last_value(lines, key, Some(value)) && is_yes(value);
        lemma_last_value_unique(lines, key, v, Some(value));
    }
}

/// Within `[Desktop Entry]`, a line with any other key than the five changes nothing, such as
/// one with the name in another language.
pub proof fn law_other_keys_are_ignored(f: Fields, raw: Seq<char>)
    requires
        !begins_section(raw),
        split_once(trimmed(raw), '=') matches Some(parts) && {
            let key = trimmed(parts.0);
            key != "Name"@ && key != "Exec"@ && key != "Icon"@ && key != "NoDisplay"@ && key
                != "Hidden"@
        },
    ensures
        after_line(f, raw) == f,
{
    lemma_header(raw);
}

// ---------------------------------------------------------------------------
// All desktop entries
// ---------------------------------------------------------------------------

/// A file in one of the search directories: its path, the path with all symbolic links
/// followed, and its text if it could be read.
#[derive(Debug)]
pub struct DesktopFile {
    pub path: FilePath,
    pub canonical: FilePath,
    pub text: Option<String>,
}

/// The model of a [`DesktopFile`].
pub struct DesktopFileModel {
    pub path: Seq<u8>,
    pub canonical: Seq<u8>,
    pub text: Option<Seq<char>>,
}

impl View for DesktopFile {
    type V = DesktopFileModel;

    open spec fn view(&self) -> DesktopFileModel {
        DesktopFileModel {
            path: self.path@,
            canonical: self.canonical@,
            text: opt_view(self.text),
        }
    }
}

/// Whether a file name says that the file holds a desktop entry.
pub open spec fn names_entry(path: Seq<u8>) -> bool {
    extension(path) == Some(bytes_of("desktop"@))
}

/// Whether a file name says that the file holds a desktop entry.
pub fn is_desktop_file(path: &FilePath) -> (r: bool)
    ensures
        r == names_entry(path@),
{
    match path.extension() {
        Some(ext) => bytes_eq(ext.as_slice(), bytes_from("desktop").as_slice()),
        None => false,
    }
}

/// The files that hold a desktop entry.
pub open spec fn entry_files(files: Seq<DesktopFileModel>) -> Seq<DesktopFileModel>
    decreases files.len(),
{
    if files.len() == 0 {
        Seq::empty()
    } else {
        let before = entry_files(files.drop_last());
        if names_entry(files.last().path) {
            before.push(files.last())
        } else {
            before
        }
    }
}

/// What tells one file from another: the components of its real path.
pub open spec fn file_keys(files: Seq<DesktopFileModel>) -> Seq<Seq<Seq<u8>>> {
    Seq::new(files.len(), |i: int| components(files[i].canonical))
}

/// The entries in those files that could be read and hold one.
pub open spec fn parsed_files(files: Seq<DesktopFileModel>) -> Seq<EntryModel>
    decreases files.len(),
{
    if files.len() == 0 {
        Seq::empty()
    } else {
        let before = parsed_files(files.drop_last());
        match files.last().text {
            Some(text) => match parsed(text, files.last().path) {
                Some(entry) => before.push(entry),
                None => before,
            },
            None => before,
        }
    }
}

/// The first word of a command, empty where there is none.
pub open spec fn program_of(command: Seq<Seq<char>>) -> Seq<char> {
    if command.len() == 0 {
        Seq::empty()
    } else {
        command[0]
    }
}

/// What tells one application from another: its name in lower case, and its program.
pub open spec fn entry_keys(entries: Seq<EntryModel>, lowered: Seq<Seq<char>>) -> Seq<
    (Seq<char>, Seq<char>),
> {
    Seq::new(entries.len(), |i: int| (lowered[i], program_of(entries[i].command)))
}

/// The names of the entries in lower case.
pub open spec fn lowered_names(entries: Seq<EntryModel>) -> Seq<Seq<char>> {
    Seq::new(entries.len(), |i: int| lowercase(entries[i].name))
}

/// The entries in a list of files; of several paths to one file the first counts.
pub open spec fn found_entries(files: Seq<DesktopFileModel>) -> Seq<EntryModel> {
    let named = entry_files(files);
    parsed_files(keep_first(named, file_keys(named)))
}

/// The entries in a list of files; of several with one name and program the first counts.
pub open spec fn indexed(files: Seq<DesktopFileModel>) -> Seq<EntryModel> {
    let entries = found_entries(files);
    keep_first(entries, entry_keys(entries, lowered_names(entries)))
}

/// Whether two entries describe one application: the same name in lower case and the same
/// program.
pub open spec fn same_application(a: EntryModel, b: EntryModel) -> bool {
    lowercase(a.name) == lowercase(b.name) && program_of(a.command) == program_of(b.command)
}

/// The components of a path, as a key.
pub struct ComponentsKey {
    pub parts: Vec<Vec<u8>>,
}

impl View for ComponentsKey {
    type V = Seq<Seq<u8>>;

    open spec fn view(&self) -> Seq<Seq<u8>> {
        byte_views(self.parts@)
    }
}

impl ComponentsKey {
    pub fn new(path: &FilePath) -> (r: Self)
        ensures
            r@ == components(path@),
    {
        ComponentsKey { parts: split_components(path.bytes.as_slice()) }
    }
}

impl Same for ComponentsKey {
    fn same(&self, other: &Self) -> (r: bool) {
        if self.parts.len() != other.parts.len() {
            assert(self@.len() != other@.len());
            return false;
        }
        let mut i: usize = 0;
        while i < self.parts.len()
            invariant
                i <= self.parts@.len(),
                self.parts@.len() == other.parts@.len(),
                forall|k: int| 0 <= k < i ==> self@[k] == other@[k],
            decreases self.parts.len() - i,
        {
            assert(self@[i as int] == self.parts@[i as int]@);
            assert(other@[i as int] == other.parts@[i as int]@);
            if !bytes_eq(self.parts[i].as_slice(), other.parts[i].as_slice()) {
                return false;
            }
            i += 1;
        }
        assert(self@ =~= other@);
        true
    }
}

/// A name in lower case and a program, as a key.
struct EntryKey {
    name: Vec<char>,
    program: Vec<char>,
}

impl View for EntryKey {
    type V = (Seq<char>, Seq<char>);

    closed spec fn view(&self) -> (Seq<char>, Seq<char>) {
        (self.name@, self.program@)
    }
}

impl Same for EntryKey {
    fn same(&self, other: &Self) -> (r: bool) {
        chars_eq(self.name.as_slice(), other.name.as_slice()) && chars_eq(
            self.program.as_slice(),
            other.program.as_slice(),
        )
    }
}

/// The entries without the later ones of those with one name, as `lowered` has it in lower
/// case, and one program.
pub fn merge_entries(entries: Vec<Entry>, lowered: &Vec<String>) -> (r: Vec<Entry>)
    requires
        entries@.len() == lowered@.len(),
    ensures
        entries_view(r@) == keep_first(
            entries_view(entries@),
            entry_keys(entries_view(entries@), strings_view(lowered@)),
        ),
{
    let ghost models = entries_view(entries@);
    let ghost names = strings_view(lowered@);
    let mut keys: Vec<EntryKey> = Vec::new();
    let mut i: usize = 0;
    while i < entries.len()
        invariant
            i <= entries@.len(),
            entries@.len() == lowered@.len(),
            models == entries_view(entries@),
            names == strings_view(lowered@),
            views(keys@) == entry_keys(models, names).take(i as int),
        decreases entries.len() - i,
    {
        let name = chars_of(lowered[i].as_str());
        let program = if entries[i].command.len() == 0 {
            Vec::new()
        } else {
            chars_of(entries[i].command[0].as_str())
        };
        assert(program@ =~= program_of(models[i as int].command));
        let ghost before = views(keys@);
        keys.push(EntryKey { name, program });
        assert(views(keys@) =~= before.push((name@, program@)));
        assert(entry_keys(models, names).take(i + 1) =~= before.push(
            entry_keys(models, names)[i as int],
        ));
        i += 1;
    }
    assert(entry_keys(models, names).take(i as int) =~= entry_keys(models, names));
    let ghost source = entries@;
    assert(views(keys@).len() == keys@.len());
    let r = keep_firsts(entries, &keys);
    proof {
        law_first_indices(views(keys@));
        assert(entries_view(r@) =~= keep_first(models, views(keys@)));
    }
    r
}

/// The entries in a list of files.
pub fn index(files: Vec<DesktopFile>) -> (r: Vec<Entry>)
    ensures
        entries_view(r@) == indexed(views(files@)),
{
    let ghost source = views(files@);
    let mut named: Vec<DesktopFile> = Vec::new();
    let mut keys: Vec<ComponentsKey> = Vec::new();
    assert(source.take(0) =~= Seq::empty());
    assert(views(named@) =~= Seq::empty());
    assert(views(keys@) =~= file_keys(views(named@)));
    for file in iter: files
        invariant
            source == views(iter.seq()),
            views(named@) == entry_files(source.take(iter.index() as int)),
            views(keys@) == file_keys(views(named@)),
    {
        let ghost i = iter.index() as int;
        assert(source.take(i + 1).drop_last() =~= source.take(i));
        assert(source.take(i + 1).last() == file@);
        if is_desktop_file(&file.path) {
            let ghost before = views(named@);
            let ghost keys_before = views(keys@);
            let key = ComponentsKey::new(&file.canonical);
            keys.push(key);
            named.push(file);
            assert(views(named@) =~= before.push(file@));
            assert(views(keys@) =~= keys_before.push(components(file@.canonical)));
            assert(views(keys@) =~= file_keys(views(named@)));
        }
    }
    assert(source.take(source.len() as int) =~= source);
    let ghost all = views(named@);
    let ghost all_named = named@;
    assert(views(keys@).len() == keys@.len());
    assert(file_keys(all).len() == all.len());
    let kept = keep_firsts(named, &keys);
    let ghost kept_models = keep_first(all, file_keys(all));
    proof {
        law_first_indices(views(keys@));
        assert(views(kept@) =~= kept_models);
    }
    let mut entries: Vec<Entry> = Vec::new();
    let mut lowered: Vec<String> = Vec::new();
    let mut i: usize = 0;
    assert(kept_models.take(0) =~= Seq::empty());
    assert(entries_view(entries@) =~= Seq::empty());
    assert(strings_view(lowered@) =~= lowered_names(entries_view(entries@)));
    while i < kept.len()
        invariant
            i <= kept@.len(),
            views(kept@) == kept_models,
            entries_view(entries@) == parsed_files(kept_models.take(i as int)),
            strings_view(lowered@) == lowered_names(entries_view(entries@)),
        decreases kept.len() - i,
    {
        assert(kept_models.take(i + 1).drop_last() =~= kept_models.take(i as int));
        assert(kept_models.take(i + 1).last() == kept@[i as int]@);
        if let Some(text) = &kept[i].text {
            if let Some(entry) = parse(text.as_str(), &kept[i].path) {
                let ghost before = entries_view(entries@);
                let ghost lowered_before = strings_view(lowered@);
                lowered.push(to_lowercase(entry.name.as_str()));
                entries.push(entry);
                assert(entries_view(entries@) =~= before.push(entry@));
                assert(strings_view(lowered@) =~= lowered_before.push(lowercase(entry@.name)));
                assert(strings_view(lowered@) =~= lowered_names(entries_view(entries@)));
            }
        }
        i += 1;
    }
    assert(kept_models.take(i as int) =~= kept_models);
    assert(strings_view(lowered@).len() == lowered@.len());
    assert(lowered_names(entries_view(entries@)).len() == entries@.len());
    merge_entries(entries, &lowered)
}

/// No two entries of an index describe one application.
pub proof fn law_index_has_no_doubles(files: Seq<DesktopFileModel>, i: int, j: int)
    requires
        0 <= i < j < indexed(files).len(),
    ensures
        !same_application(indexed(files)[i], indexed(files)[j]),
{
    let entries = found_entries(files);
    let keys = entry_keys(entries, lowered_names(entries));
    law_first_indices(keys);
    let p = first_indices(keys)[i];
    let q = first_indices(keys)[j];
    assert(keys[p] != keys[q]);
}

/// Every application that was found is in the index.
pub proof fn law_index_loses_no_application(files: Seq<DesktopFileModel>, p: int)
    requires
        0 <= p < found_entries(files).len(),
    ensures
        exists|i: int|
            0 <= i < indexed(files).len() && same_application(
                #[trigger] indexed(files)[i],
                found_entries(files)[p],
            ),
{
    let entries = found_entries(files);
    let keys = entry_keys(entries, lowered_names(entries));
    law_first_indices(keys);
    assert(has_first(keys, p));
    let i = choose|i: int|
        0 <= i < first_indices(keys).len() && #[trigger] first_indices(keys)[i] <= p
            && keys[first_indices(keys)[i]] == keys[p];
    assert(same_application(indexed(files)[i], entries[p]));
}

/// Whether a file gives an entry: it is named like one, could be read and holds one, and no
/// earlier file that is named like one is the same file.
pub open spec fn gives(files: Seq<DesktopFileModel>, k: int, e: EntryModel) -> bool {
    &&& 0 <= k < files.len()
    &&& extension(files[k].path) == Some(bytes_of("desktop"@))
    &&& files[k].text matches Some(text) && parsed(text, files[k].path) == Some(e)
    &&& forall|l: int|
        0 <= l < k && extension((#[trigger] files[l]).path) == Some(bytes_of("desktop"@))
            ==> !same_path(files[l].canonical, files[k].canonical)
}

proof fn lemma_entry_files(files: Seq<DesktopFileModel>) -> (at: Seq<int>)
    ensures
        at.len() == entry_files(files).len(),
        forall|i: int|
            0 <= i < at.len() ==> 0 <= #[trigger] at[i] < files.len() && entry_files(files)[i]
                == files[at[i]] && names_entry(files[at[i]].path),
        forall|i: int, j: int| 0 <= i < j < at.len() ==> #[trigger] at[i] < #[trigger] at[j],
        forall|k: int| 0 <= k < files.len() && names_entry((#[trigger] files[k]).path) ==> at.contains(k),
    decreases files.len(),
{
    if files.len() == 0 {
        Seq::empty()
    } else {
        let init = files.drop_last();
        let before = lemma_entry_files(init);
        let last = files.len() - 1;
        assert(forall|k: int| 0 <= k < init.len() ==> init[k] == files[k]);
        let at = if names_entry(files.last().path) {
            before.push(last)
        } else {
            before
        };
        assert forall|k: int| 0 <= k < files.len() && names_entry((#[trigger] files[k]).path) implies at.contains(
        k) by {
            if k < last {
                assert(init[k] == files[k]);
                assert(before.contains(k));
                let i = choose|i: int| 0 <= i < before.len() && before[i] == k;
                assert(at[i] == k);
            } else {
                assert(at[before.len() as int] == k);
            }
        }
        at
    }
}

proof fn lemma_parsed_files(files: Seq<DesktopFileModel>) -> (at: Seq<int>)
    ensures
        at.len() == parsed_files(files).len(),
        forall|i: int|
            0 <= i < at.len() ==> 0 <= #[trigger] at[i] < files.len() && files[at[i]].text is Some
                && parsed(files[at[i]].text->0, files[at[i]].path) == Some(parsed_files(files)[i]),
        forall|i: int, j: int| 0 <= i < j < at.len() ==> #[trigger] at[i] < #[trigger] at[j],
        forall|k: int|
            0 <= k < files.len() && (#[trigger] files[k]).text is Some && parsed(
                files[k].text->0,
                files[k].path,
            ) is Some ==> at.contains(k),
    decreases files.len(),
{
    if files.len() == 0 {
        Seq::empty()
    } else {
        let init = files.drop_last();
        let before = lemma_parsed_files(init);
        let last = files.len() - 1;
        assert(forall|k: int| 0 <= k < init.len() ==> init[k] == files[k]);
        let at = if files.last().text is Some && parsed(
            files.last().text->0,
            files.last().path,
        ) is Some {
            before.push(last)
        } else {
            before
        };
        assert forall|k: int|
            0 <= k < files.len() && (#[trigger] files[k]).text is Some && parsed(
                files[k].text->0,
                files[k].path,
            ) is Some implies at.contains(k) by {
            if k < last {
                assert(init[k] == files[k]);
                assert(before.contains(k));
                let i = choose|i: int| 0 <= i < before.len() && before[i] == k;
                assert(at[i] == k);
            } else {
                assert(at[before.len() as int] == k);
            }
        }
        at
    }
}

/// The entries that are found are those that the files give, in the order of the files.
/// `at` tells which file each entry is from.
pub proof fn law_found_entries(files: Seq<DesktopFileModel>) -> (at: Seq<int>)
    ensures
        at.len() == found_entries(files).len(),
        forall|i: int| 0 <= i < at.len() ==> gives(files, #[trigger] at[i], found_entries(files)[i]),
        forall|i: int, j: int| 0 <= i < j < at.len() ==> #[trigger] at[i] < #[trigger] at[j],
        forall|k: int, e: EntryModel| #[trigger] gives(files, k, e) ==> at.contains(k),
{
    let named = entry_files(files);
    let keys = file_keys(named);
    let kept = keep_first(named, keys);
    let first = first_indices(keys);
    let a = lemma_entry_files(files);
    let b = lemma_parsed_files(kept);
    law_first_indices(keys);
    let at = Seq::new(b.len(), |i: int| a[first[b[i]]]);
    assert forall|i: int| 0 <= i < at.len() implies gives(
        files,
        #[trigger] at[i],
        found_entries(files)[i],
    ) by {
        let p = first[b[i]];
        let k = a[p];
        assert(kept[b[i]] == named[p]);
        assert(named[p] == files[k]);
        assert forall|l: int|
            0 <= l < k && extension((#[trigger] files[l]).path) == Some(bytes_of("desktop"@)) implies !same_path(
        files[l].canonical, files[k].canonical) by {
            assert(names_entry(files[l].path));
            assert(a.contains(l));
            let q = choose|q: int| 0 <= q < a.len() && a[q] == l;
            assert(named[q] == files[l]);
            if q >= p {
                if q > p {
                    assert(a[p] < a[q]);
                }
            } else if keys[q] == keys[p] {
                assert(has_first(keys, q));
                let m = choose|m: int|
                    0 <= m < first.len() && #[trigger] first[m] <= q && keys[first[m]] == keys[q];
                if m < b[i] {
                    assert(keys[first[m]] != keys[first[b[i]]]);
                } else if m > b[i] {
                    assert(first[b[i]] < first[m]);
                }
            }
        }
    }
    assert forall|i: int, j: int| 0 <= i < j < at.len() implies #[trigger] at[i] < #[trigger] at[j] by {
        assert(b[i] < b[j]);
        assert(first[b[i]] < first[b[j]]);
        assert(a[first[b[i]]] < a[first[b[j]]]);
    }
    assert forall|k: int, e: EntryModel| #[trigger] gives(files, k, e) implies at.contains(k) by {
        assert(names_entry(files[k].path));
        assert(a.contains(k));
        let p = choose|p: int| 0 <= p < a.len() && a[p] == k;
        assert(has_first(keys, p));
        let m = choose|m: int|
            0 <= m < first.len() && #[trigger] first[m] <= p && keys[first[m]] == keys[p];
        assert(named[first[m]] == files[a[first[m]]]);
        assert(named[p] == files[k]);
        if first[m] < p {
            assert(a[first[m]] < a[p]);
            assert(extension(files[a[first[m]]].path) == Some(bytes_of("desktop"@)));
            assert(same_path(files[a[first[m]]].canonical, files[k].canonical));
        }
        assert(first[m] == p);
        assert(kept[m] == files[k]);
        assert(b.contains(m));
        let i = choose|i: int| 0 <= i < b.len() && b[i] == m;
        assert(at[i] == k);
    }
    at
}

/// The index holds the entries that were found, in their order, without those that describe an
/// application that an earlier one describes. `at` tells which of those found each entry is.
pub proof fn law_indexed(files: Seq<DesktopFileModel>) -> (at: Seq<int>)
    ensures
        at.len() == indexed(files).len(),
        forall|i: int|
            0 <= i < at.len() ==> 0 <= #[trigger] at[i] < found_entries(files).len()
                && indexed(files)[i] == found_entries(files)[at[i]],
        forall|i: int, j: int| 0 <= i < j < at.len() ==> #[trigger] at[i] < #[trigger] at[j],
        forall|p: int|
            0 <= p < found_entries(files).len() ==> (#[trigger] at.contains(p) <==> !is_double(
                found_entries(files),
                p,
            )),
{
    let entries = found_entries(files);
    let keys = entry_keys(entries, lowered_names(entries));
    let at = first_indices(keys);
    law_first_indices(keys);
    assert forall|p: int| 0 <= p < entries.len() implies (#[trigger] at.contains(p) <==> !is_double(
        entries,
        p,
    )) by {
        assert(has_first(keys, p));
        let m = choose|m: int| 0 <= m < at.len() && #[trigger] at[m] <= p && keys[at[m]] == keys[p];
        if at.contains(p) {
            let n = choose|n: int| 0 <= n < at.len() && at[n] == p;
            if is_double(entries, p) {
                let q = choose|q: int|
                    0 <= q < p && is_same_application(#[trigger] entries[q], entries[p]);
                lemma_same_application(entries[q], entries[p]);
                assert(keys[q] == keys[p]);
                assert(has_first(keys, q));
                let l = choose|l: int|
                    0 <= l < at.len() && #[trigger] at[l] <= q && keys[at[l]] == keys[q];
                if l < n {
                    assert(keys[at[l]] != keys[at[n]]);
                } else if l > n {
                    assert(at[n] < at[l]);
                }
            }
        } else {
            assert(at[m] != p);
            lemma_same_application(entries[at[m]], entries[p]);
            assert(is_same_application(entries[at[m]], entries[p]));
        }
    }
    at
}

/// Whether an earlier entry describes the same application.
pub open spec fn is_double(entries: Seq<EntryModel>, p: int) -> bool {
    exists|q: int| 0 <= q < p && is_same_application(#[trigger] entries[q], entries[p])
}

proof fn lemma_same_application(a: EntryModel, b: EntryModel)
    ensures
        is_same_application(a, b) <==> lowercase(a.name) == lowercase(b.name) && program_of(
            a.command,
        ) == program_of(b.command),
{
    if a.command.len() == 0 && b.command.len() > 0 && b.command[0].len() == 0 {
        assert(b.command[0] =~= Seq::empty());
    }
    if b.command.len() == 0 && a.command.len() > 0 && a.command[0].len() == 0 {
        assert(a.command[0] =~= Seq::empty());
    }
}

/// Whether two entries have the same name in lower case and start the same program: both
/// none, or the same first word.
pub open spec fn is_same_application(a: EntryModel, b: EntryModel) -> bool {
    &&& lowercase(a.name) == lowercase(b.name)
    &&& (a.command.len() == 0 && b.command.len() == 0) || (a.command.len() > 0 && b.command.len()
        > 0 && a.command[0] == b.command[0]) || (a.command.len() == 0 && b.command.len() > 0
        && b.command[0].len() == 0) || (b.command.len() == 0 && a.command.len() > 0
        && a.command[0].len() == 0)
}

/// Desktop entries are looked for in the directories of the system, those below `HOME`, the
/// one of the user's profile and, behind all these and in their order, one for each piece of
/// `XDG_DATA_DIRS`, empty pieces included.
pub proof fn law_search_paths(home: Option<Seq<u8>>, user: Option<Seq<char>>, xdg: Option<Seq<char>>)
    ensures
        ({
            let r = all_search_paths(home, user, xdg);
            let n = all_search_paths(home, user, None).len();
            &&& n == 4 + (if home is Some {
                2int
            } else {
                0
            }) + (if user is Some {
                1int
            } else {
                0
            })
            &&& r.take(n as int) == all_search_paths(home, user, None)
            &&& r[0] == bytes_of("/run/current-system/sw/share/applications"@)
            &&& r[1] == bytes_of("/var/lib/flatpak/exports/share/applications"@)
            &&& r[2] == bytes_of("/usr/share/applications"@)
            &&& r[3] == bytes_of("/usr/local/share/applications"@)
            &&& home matches Some(home) ==> r[4] == joined(
                home,
                bytes_of(".nix-profile/share/applications"@),
            ) && r[5] == joined(home, bytes_of(".local/share/applications"@))
            &&& user matches Some(user) ==> r[n - 1] == bytes_of(
                "/etc/profiles/per-user/"@ + user + "/share/applications"@,
            )
            &&& xdg is None ==> r.len() == n
            &&& xdg matches Some(xdg) ==> r.len() == n + split(xdg, ':').len() && forall|i: int|
                0 <= i < split(xdg, ':').len() ==> r[n + i] == joined(
                    bytes_of(#[trigger] split(xdg, ':')[i]),
                    bytes_of("applications"@),
                )
        }),
{
    let r = all_search_paths(home, user, xdg);
    let front = all_search_paths(home, user, None);
    let n = front.len() as int;
    assert(r.take(n) =~= front);
}

} // verus!
