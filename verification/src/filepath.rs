//! File paths as byte strings, read the way a Unix system reads them.

use vstd::prelude::*;
use vstd::slice::{slice_subrange, slice_to_vec};

use crate::order::{
    byte_codes, bytes_before, is_less_at, law_lexicographic, lemma_lex_laws, lemma_lex_total, lex_lt,
};
use crate::text::{from_utf8_lossy, lossy_utf8};

verus! {

/// The byte `/`.
pub const SEP: u8 = 47;

/// The byte `.`.
pub const DOT: u8 = 46;

/// A file path: the bytes that the system knows it by.
#[derive(Debug)]
pub struct FilePath {
    pub bytes: Vec<u8>,
}

impl View for FilePath {
    type V = Seq<u8>;

    open spec fn view(&self) -> Seq<u8> {
        self.bytes@
    }
}

/// The view of an optional path.
pub open spec fn opt_path_view(p: Option<FilePath>) -> Option<Seq<u8>> {
    match p {
        Some(p) => Some(p@),
        None => None,
    }
}

/// The bytes of a string.
pub open spec fn bytes_of(s: Seq<char>) -> Seq<u8> {
    vstd::utf8::encode_utf8(s)
}

// ---------------------------------------------------------------------------
// Components
// ---------------------------------------------------------------------------

/// The components of a path. A leading `/` is a component of its own; repeated separators
/// and `.` pieces count for nothing, but for a `.` at the very start.
pub open spec fn components(p: Seq<u8>) -> Seq<Seq<u8>>
    decreases p.len(),
{
    proof {
        p.index_of_last_ensures(SEP);
    }
    match p.index_of_last(SEP) {
        None => if p.len() == 0 {
            Seq::empty()
        } else {
            seq![p]
        },
        Some(i) => {
            let parents = if i == 0 {
                seq![seq![SEP]]
            } else {
                components(p.take(i))
            };
            let piece = p.skip(i + 1);
            if piece.len() == 0 || piece == seq![DOT] {
                parents
            } else {
                parents.push(piece)
            }
        },
    }
}

/// The components that are names, not `/`, `.` or `..`.
pub open spec fn is_name(component: Seq<u8>) -> bool {
    component != seq![SEP] && component != seq![DOT] && component != seq![DOT, DOT]
}

/// The last component, if it is a name.
pub open spec fn file_name(p: Seq<u8>) -> Option<Seq<u8>> {
    let c = components(p);
    if c.len() > 0 && is_name(c.last()) {
        Some(c.last())
    } else {
        None
    }
}

/// The file name without its extension.
pub open spec fn file_stem(p: Seq<u8>) -> Option<Seq<u8>> {
    match file_name(p) {
        None => None,
        Some(name) => match name.index_of_last(DOT) {
            Some(i) => if i == 0 {
                Some(name)
            } else {
                Some(name.take(i))
            },
            None => Some(name),
        },
    }
}

/// What follows the last dot of the file name, unless that dot begins the name.
pub open spec fn extension(p: Seq<u8>) -> Option<Seq<u8>> {
    match file_name(p) {
        None => None,
        Some(name) => match name.index_of_last(DOT) {
            Some(i) => if i == 0 {
                None
            } else {
                Some(name.skip(i + 1))
            },
            None => None,
        },
    }
}

/// The length of the shortest prefix of `p`, at least `from` long, with the components `c`.
pub open spec fn prefix_len(p: Seq<u8>, c: Seq<Seq<u8>>, from: int) -> Option<int>
    decreases p.len() + 1 - from,
{
    if from > p.len() {
        None
    } else if components(p.take(from)) == c {
        Some(from)
    } else {
        prefix_len(p, c, from + 1)
    }
}

/// The path of the directory that holds `p`: its shortest prefix with all components but
/// the last one. The root and the empty path have none.
pub open spec fn parent(p: Seq<u8>) -> Option<Seq<u8>> {
    let c = components(p);
    if c.len() == 0 || c.last() == seq![SEP] {
        None
    } else {
        match prefix_len(p, c.drop_last(), 0) {
            Some(k) => Some(p.take(k)),
            None => None,
        }
    }
}

/// `base` with `rel` behind it; an absolute `rel` replaces `base`.
pub open spec fn joined(base: Seq<u8>, rel: Seq<u8>) -> Seq<u8> {
    if rel.len() > 0 && rel[0] == SEP {
        rel
    } else if base.len() == 0 || base.last() == SEP {
        base + rel
    } else {
        base.push(SEP) + rel
    }
}

/// Whether two paths have the same components.
pub open spec fn same_path(a: Seq<u8>, b: Seq<u8>) -> bool {
    components(a) == components(b)
}

/// Whether `p` is `base` or lies below it.
pub open spec fn is_within(p: Seq<u8>, base: Seq<u8>) -> bool {
    components(base).is_prefix_of(components(p))
}

// ---------------------------------------------------------------------------
// Order
// ---------------------------------------------------------------------------

/// `/` comes before `.`, `.` before `..`, and `..` before every name.
pub open spec fn component_rank(c: Seq<u8>) -> int {
    if c == seq![SEP] {
        0
    } else if c == seq![DOT] {
        1
    } else if c == seq![DOT, DOT] {
        2
    } else {
        3
    }
}

pub open spec fn component_lt(a: Seq<u8>, b: Seq<u8>) -> bool {
    if component_rank(a) != component_rank(b) {
        component_rank(a) < component_rank(b)
    } else {
        component_rank(a) == 3 && lex_lt(byte_codes(a), byte_codes(b))
    }
}

/// Component by component, the shorter path first where one begins with the other.
pub open spec fn components_lt(a: Seq<Seq<u8>>, b: Seq<Seq<u8>>) -> bool
    decreases a.len(),
{
    if b.len() == 0 {
        false
    } else if a.len() == 0 {
        true
    } else if a[0] != b[0] {
        component_lt(a[0], b[0])
    } else {
        components_lt(a.skip(1), b.skip(1))
    }
}

proof fn lemma_byte_codes_injective(a: Seq<u8>, b: Seq<u8>)
    requires
        byte_codes(a) == byte_codes(b),
    ensures
        a == b,
{
    assert(a.len() == byte_codes(a).len());
    assert(b.len() == byte_codes(b).len());
    assert forall|i: int| 0 <= i < a.len() implies a[i] == b[i] by {
        assert(byte_codes(a)[i] == a[i] as int);
        assert(byte_codes(b)[i] == b[i] as int);
    }
    assert(a =~= b);
}

proof fn lemma_component_laws(a: Seq<u8>, b: Seq<u8>, c: Seq<u8>)
    ensures
        !(component_lt(a, b) && component_lt(b, a)),
        component_lt(a, c) ==> component_lt(a, b) || component_lt(b, c),
        !component_lt(a, b) && !component_lt(b, a) ==> a == b,
{
    lemma_lex_laws(byte_codes(a), byte_codes(b), byte_codes(c));
    if !component_lt(a, b) && !component_lt(b, a) && component_rank(a) == 3 {
        lemma_lex_total(byte_codes(a), byte_codes(b));
        lemma_byte_codes_injective(a, b);
    }
}

/// The order of component lists is asymmetric and negatively transitive, and lists neither
/// of which comes first are equal.
pub proof fn lemma_components_laws(a: Seq<Seq<u8>>, b: Seq<Seq<u8>>, c: Seq<Seq<u8>>)
    ensures
        !(components_lt(a, b) && components_lt(b, a)),
        components_lt(a, c) ==> components_lt(a, b) || components_lt(b, c),
        !components_lt(a, b) && !components_lt(b, a) ==> a == b,
    decreases a.len() + b.len() + c.len(),
{
    if a.len() > 0 && b.len() > 0 {
        let c1 = if c.len() > 0 {
            c.skip(1)
        } else {
            c
        };
        lemma_components_laws(a.skip(1), b.skip(1), c1);
        lemma_component_laws(a[0], b[0], c[0]);
        lemma_component_laws(b[0], a[0], a[0]);
        if c.len() > 0 {
            lemma_component_laws(a[0], c[0], b[0]);
            lemma_component_laws(b[0], c[0], a[0]);
        }
        if !components_lt(a, b) && !components_lt(b, a) {
            assert(a =~= seq![a[0]] + a.skip(1));
            assert(b =~= seq![b[0]] + b.skip(1));
        }
    } else if !components_lt(a, b) && !components_lt(b, a) {
        assert(a =~= b);
    }
}

// ---------------------------------------------------------------------------
// Executable forms
// ---------------------------------------------------------------------------

pub fn bytes_eq(a: &[u8], b: &[u8]) -> (r: bool)
    ensures
        r == (a@ == b@),
{
    if a.len() != b.len() {
        return false;
    }
    let mut i: usize = 0;
    while i < a.len()
        invariant
            i <= a.len(),
            a@.len() == b@.len(),
            forall|k: int| 0 <= k < i ==> a@[k] == b@[k],
        decreases a.len() - i,
    {
        if a[i] != b[i] {
            assert(a@[i as int] != b@[i as int]);
            return false;
        }
        i += 1;
    }
    assert(a@ =~= b@);
    true
}

/// The bytes of a string, as a vector.
pub fn bytes_from(s: &str) -> (r: Vec<u8>)
    ensures
        r@ == bytes_of(s@),
{
    slice_to_vec(s.as_bytes())
}

/// The last place where the byte `c` stands.
pub fn last_index_of(s: &[u8], c: u8) -> (r: Option<usize>)
    ensures
        r is Some <==> s@.index_of_last(c) is Some,
        r matches Some(i) ==> s@.index_of_last(c) == Some(i as int) && i < s@.len(),
{
    let mut i: usize = s.len();
    while i > 0
        invariant
            i <= s.len(),
            forall|k: int| i <= k < s@.len() ==> s@[k] != c,
        decreases i,
    {
        if s[i - 1] == c {
            proof {
                lemma_last_index(s@, c, i - 1);
            }
            return Some(i - 1);
        }
        i -= 1;
    }
    proof {
        lemma_no_index(s@, c);
    }
    None
}

proof fn lemma_last_index(s: Seq<u8>, c: u8, i: int)
    requires
        0 <= i < s.len(),
        s[i] == c,
        forall|k: int| i < k < s.len() ==> s[k] != c,
    ensures
        s.index_of_last(c) == Some(i),
{
    s.index_of_last_ensures(c);
    assert(s.contains(s[i]));
}

proof fn lemma_no_index(s: Seq<u8>, c: u8)
    requires
        forall|k: int| 0 <= k < s.len() ==> s[k] != c,
    ensures
        s.index_of_last(c) is None,
{
    s.index_of_last_ensures(c);
}

/// The views of a list of byte strings.
pub open spec fn byte_views(v: Seq<Vec<u8>>) -> Seq<Seq<u8>> {
    Seq::new(v.len(), |i: int| v[i]@)
}

/// The components of the directories before the piece that begins at `start`.
spec fn leading(p: Seq<u8>, start: int) -> Seq<Seq<u8>> {
    if start == 0 {
        Seq::empty()
    } else if start == 1 {
        seq![seq![SEP]]
    } else {
        components(p.take(start - 1))
    }
}

/// The components of `p`.
pub fn split_components(p: &[u8]) -> (r: Vec<Vec<u8>>)
    ensures
        byte_views(r@) == components(p@),
{
    let mut out: Vec<Vec<u8>> = Vec::new();
    let mut start: usize = 0;
    let mut i: usize = 0;
    assert(byte_views(out@) =~= leading(p@, 0));
    while i < p.len()
        invariant
            start <= i <= p.len(),
            start > 0 ==> p@[start - 1] == SEP,
            forall|k: int| start <= k < i ==> p@[k] != SEP,
            byte_views(out@) == leading(p@, start as int),
        decreases p.len() - i,
    {
        if p[i] == SEP {
            if i == 0 {
                let mut root: Vec<u8> = Vec::new();
                root.push(SEP);
                out.push(root);
                assert(byte_views(out@) =~= seq![seq![SEP]]) by {
                    assert(root@ =~= seq![SEP]);
                }
            } else {
                push_piece(p, start, i, &mut out);
            }
            start = i + 1;
        }
        i += 1;
    }
    assert(p@.take(i as int) =~= p@);
    push_piece(p, start, i, &mut out);
    out
}

/// Adds the piece of `p` from `start` to `end` to the components before it.
fn push_piece(p: &[u8], start: usize, end: usize, out: &mut Vec<Vec<u8>>)
    requires
        start <= end <= p@.len(),
        start > 0 ==> p@[start - 1] == SEP,
        forall|k: int| start <= k < end ==> p@[k] != SEP,
        byte_views(old(out)@) == leading(p@, start as int),
    ensures
        byte_views(final(out)@) == components(p@.take(end as int)),
{
    let piece = slice_subrange(p, start, end);
    let ghost prefix = p@.take(end as int);
    let ghost before = byte_views(out@);
    let ghost old_out = out@;
    proof {
        if start == 0 {
            lemma_no_index(prefix, SEP);
            assert(piece@ =~= prefix);
        } else {
            lemma_last_index(prefix, SEP, start - 1);
            assert(prefix.take(start - 1) =~= p@.take(start - 1));
            assert(prefix.skip(start as int) =~= piece@);
        }
    }
    if piece.len() == 0 || (start > 0 && piece.len() == 1 && piece[0] == DOT) {
        assert(piece@.len() == 1 ==> piece@ =~= seq![DOT]);
        return ;
    }
    assert(start > 0 ==> piece@ != seq![DOT]) by {
        assert(seq![DOT][0] == DOT);
    }
    out.push(slice_to_vec(piece));
    assert(byte_views(out@) =~= before.push(piece@));
    assert(start == 0 ==> before.push(piece@) =~= seq![prefix]);
}

/// Whether two lists of components are equal.
fn components_eq(a: &Vec<Vec<u8>>, b: &Vec<Vec<u8>>, len: usize) -> (r: bool)
    requires
        len <= a@.len(),
    ensures
        r == (byte_views(a@).take(len as int) == byte_views(b@)),
{
    if len != b.len() {
        return false;
    }
    let mut i: usize = 0;
    while i < len
        invariant
            i <= len,
            len == b@.len(),
            len <= a@.len(),
            forall|k: int| 0 <= k < i ==> a@[k]@ == b@[k]@,
        decreases len - i,
    {
        if !bytes_eq(a[i].as_slice(), b[i].as_slice()) {
            assert(byte_views(a@).take(len as int)[i as int] != byte_views(b@)[i as int]);
            return false;
        }
        i += 1;
    }
    assert(byte_views(a@).take(len as int) =~= byte_views(b@));
    true
}

impl Clone for FilePath {
    fn clone(&self) -> (r: Self)
        ensures
            r@ == self@,
    {
        FilePath { bytes: slice_to_vec(self.bytes.as_slice()) }
    }
}

impl FilePath {
    /// The path that a string names.
    pub fn new(s: &str) -> (r: Self)
        ensures
            r@ == bytes_of(s@),
    {
        FilePath { bytes: bytes_from(s) }
    }

    /// This path with `rel` behind it.
    pub fn join(&self, rel: &FilePath) -> (r: Self)
        ensures
            r@ == joined(self@, rel@),
    {
        if rel.bytes.len() > 0 && rel.bytes[0] == SEP {
            return rel.clone();
        }
        let mut bytes = slice_to_vec(self.bytes.as_slice());
        if bytes.len() > 0 && bytes[bytes.len() - 1] != SEP {
            bytes.push(SEP);
        }
        bytes.extend_from_slice(rel.bytes.as_slice());
        assert(bytes@ =~= joined(self@, rel@));
        FilePath { bytes }
    }

    /// This path with the name `rel` behind it.
    pub fn join_str(&self, rel: &str) -> (r: Self)
        ensures
            r@ == joined(self@, bytes_of(rel@)),
    {
        self.join(&FilePath::new(rel))
    }

    /// The number of components.
    pub fn component_count(&self) -> (r: usize)
        ensures
            r == components(self@).len(),
    {
        let c = split_components(self.bytes.as_slice());
        assert(byte_views(c@).len() == c@.len());
        c.len()
    }

    /// Whether this path is `base` or lies below it.
    pub fn starts_with(&self, base: &FilePath) -> (r: bool)
        ensures
            r == is_within(self@, base@),
    {
        let a = split_components(self.bytes.as_slice());
        let b = split_components(base.bytes.as_slice());
        assert(byte_views(a@).len() == a@.len());
        assert(byte_views(b@).len() == b@.len());
        if b.len() > a.len() {
            return false;
        }
        let r = components_eq(&a, &b, b.len());
        assert(components(self@).take(b@.len() as int) =~= components(self@).subrange(
            0,
            b@.len() as int,
        ));
        r
    }

    /// Whether both paths have the same components.
    pub fn same(&self, other: &FilePath) -> (r: bool)
        ensures
            r == same_path(self@, other@),
    {
        let a = split_components(self.bytes.as_slice());
        let b = split_components(other.bytes.as_slice());
        assert(byte_views(a@).take(a@.len() as int) =~= byte_views(a@));
        components_eq(&a, &b, a.len())
    }

    /// The last component, if it is a name.
    pub fn file_name(&self) -> (r: Option<Vec<u8>>)
        ensures
            file_name(self@) == (match r {
                Some(n) => Some(n@),
                None => None,
            }),
    {
        let mut c = split_components(self.bytes.as_slice());
        assert(byte_views(c@).len() == c@.len());
        let ghost all = c@;
        match c.pop() {
            Some(last) => {
                assert(components(self@).last() == last@) by {
                    assert(byte_views(all)[all.len() - 1] == all[all.len() - 1]@);
                }
                if is_name_bytes(last.as_slice()) {
                    Some(last)
                } else {
                    None
                }
            },
            None => None,
        }
    }

    /// The file name without its extension.
    pub fn file_stem(&self) -> (r: Option<Vec<u8>>)
        ensures
            file_stem(self@) == (match r {
                Some(n) => Some(n@),
                None => None,
            }),
    {
        match self.file_name() {
            Some(name) => match last_index_of(name.as_slice(), DOT) {
                Some(i) if i > 0 => {
                    let stem = slice_to_vec(slice_subrange(name.as_slice(), 0, i));
                    assert(stem@ =~= name@.take(i as int));
                    Some(stem)
                },
                _ => Some(name),
            },
            None => None,
        }
    }

    /// What follows the last dot of the file name.
    pub fn extension(&self) -> (r: Option<Vec<u8>>)
        ensures
            extension(self@) == (match r {
                Some(n) => Some(n@),
                None => None,
            }),
    {
        match self.file_name() {
            Some(name) => match last_index_of(name.as_slice(), DOT) {
                Some(i) if i > 0 => {
                    let n: usize = name.len();
                    let ext = slice_to_vec(slice_subrange(name.as_slice(), i + 1, n));
                    assert(ext@ =~= name@.skip(i + 1));
                    Some(ext)
                },
                _ => None,
            },
            None => None,
        }
    }

    /// The path of the directory that holds this one.
    pub fn parent(&self) -> (r: Option<FilePath>)
        ensures
            opt_path_view(r) == parent(self@),
    {
        let c = split_components(self.bytes.as_slice());
        let ghost views = byte_views(c@);
        assert(views.len() == c@.len());
        if c.len() == 0 {
            return None;
        }
        let last = c.len() - 1;
        assert(views.last() == c@[last as int]@);
        if c[last].len() == 1 && c[last][0] == SEP {
            assert(c@[last as int]@ =~= seq![SEP]);
            return None;
        }
        assert(views.last() != seq![SEP]) by {
            assert(seq![SEP][0] == SEP);
        }
        assert(views.take(last as int) =~= views.drop_last());
        let n: usize = self.bytes.len();
        let mut k: usize = 0;
        loop
            invariant
                k <= n,
                n == self.bytes@.len(),
                views == byte_views(c@),
                last == c@.len() - 1,
                views.take(last as int) == views.drop_last(),
                views == components(self@),
                views.len() > 0,
                views.last() != seq![SEP],
                prefix_len(self@, views.drop_last(), 0) == prefix_len(
                    self@,
                    views.drop_last(),
                    k as int,
                ),
            decreases n - k,
        {
            let prefix = slice_subrange(self.bytes.as_slice(), 0, k);
            assert(prefix@ =~= self@.take(k as int));
            let d = split_components(prefix);
            if components_eq(&c, &d, last) {
                let bytes = slice_to_vec(prefix);
                assert(parent(self@) == Some(self@.take(k as int)));
                return Some(FilePath { bytes });
            }
            if k == n {
                assert(prefix_len(self@, views.drop_last(), n + 1) is None);
                return None;
            }
            k += 1;
        }
    }

    /// The path as text, invalid parts replaced.
    pub fn to_string_lossy(&self) -> (r: String)
        ensures
            r@ == lossy_utf8(self@),
    {
        from_utf8_lossy(self.bytes.as_slice())
    }
}

/// Whether a component is a name.
fn is_name_bytes(c: &[u8]) -> (r: bool)
    ensures
        r == is_name(c@),
{
    let root: [u8; 1] = [SEP];
    let cur: [u8; 1] = [DOT];
    let up: [u8; 2] = [DOT, DOT];
    assert(root@ =~= seq![SEP]);
    assert(cur@ =~= seq![DOT]);
    assert(up@ =~= seq![DOT, DOT]);
    !bytes_eq(c, root.as_slice()) && !bytes_eq(c, cur.as_slice()) && !bytes_eq(c, up.as_slice())
}

fn component_rank_of(c: &[u8]) -> (r: u8)
    ensures
        r == component_rank(c@),
{
    let root: [u8; 1] = [SEP];
    let cur: [u8; 1] = [DOT];
    let up: [u8; 2] = [DOT, DOT];
    assert(root@ =~= seq![SEP]);
    assert(cur@ =~= seq![DOT]);
    assert(up@ =~= seq![DOT, DOT]);
    if bytes_eq(c, root.as_slice()) {
        0
    } else if bytes_eq(c, cur.as_slice()) {
        1
    } else if bytes_eq(c, up.as_slice()) {
        2
    } else {
        3
    }
}

fn component_before(a: &[u8], b: &[u8]) -> (r: bool)
    ensures
        r == component_lt(a@, b@),
{
    let ra = component_rank_of(a);
    let rb = component_rank_of(b);
    if ra != rb {
        ra < rb
    } else {
        ra == 3 && bytes_before(a, b)
    }
}

/// Whether the path with components `a` comes before the one with components `b`.
pub fn components_before(a: &Vec<Vec<u8>>, b: &Vec<Vec<u8>>) -> (r: bool)
    ensures
        r == components_lt(byte_views(a@), byte_views(b@)),
{
    let ghost va = byte_views(a@);
    let ghost vb = byte_views(b@);
    assert(va.skip(0) =~= va);
    assert(vb.skip(0) =~= vb);
    let mut i: usize = 0;
    while i < a.len() && i < b.len()
        invariant
            i <= a.len(),
            i <= b.len(),
            va == byte_views(a@),
            vb == byte_views(b@),
            components_lt(va, vb) == components_lt(va.skip(i as int), vb.skip(i as int)),
        decreases a.len() - i,
    {
        assert(va.skip(i as int)[0] == a@[i as int]@);
        assert(vb.skip(i as int)[0] == b@[i as int]@);
        if !bytes_eq(a[i].as_slice(), b[i].as_slice()) {
            return component_before(a[i].as_slice(), b[i].as_slice());
        }
        assert(va.skip(i as int).skip(1) =~= va.skip(i + 1));
        assert(vb.skip(i as int).skip(1) =~= vb.skip(i + 1));
        i += 1;
    }
    i < b.len()
}

/// Whether a component is hidden: a name that begins with a dot.
pub open spec fn is_hidden(component: Seq<u8>) -> bool {
    is_name(component) && component.len() > 0 && component[0] == DOT
}

/// Whether `p` lies within `base` and no component below `base` is hidden.
pub open spec fn is_visible_below(p: Seq<u8>, base: Seq<u8>) -> bool {
    &&& is_within(p, base)
    &&& forall|i: int|
        components(base).len() <= i < components(p).len() ==> !is_hidden(
            #[trigger] components(p)[i],
        )
}

impl FilePath {
    /// Whether this path lies within `base` and no component below `base` is hidden.
    pub fn visible_below(&self, base: &FilePath) -> (r: bool)
        ensures
            r == is_visible_below(self@, base@),
    {
        if !self.starts_with(base) {
            return false;
        }
        let c = split_components(self.bytes.as_slice());
        assert(byte_views(c@).len() == c@.len());
        let mut i: usize = base.component_count();
        while i < c.len()
            invariant
                components(base@).len() <= i <= c@.len(),
                byte_views(c@) == components(self@),
                forall|k: int|
                    components(base@).len() <= k < i ==> !is_hidden(
                        #[trigger] components(self@)[k],
                    ),
            decreases c.len() - i,
        {
            assert(components(self@)[i as int] == c@[i as int]@);
            if c[i].len() > 0 && c[i][0] == DOT && is_name_bytes(c[i].as_slice()) {
                assert(is_hidden(components(self@)[i as int]));
                assert(components(self@).len() == c@.len());
                return false;
            }
            i += 1;
        }
        assert(components(self@).len() == c@.len());
        true
    }
}

/// Whether bytes are one name: not empty, without a separator, and not `.`.
pub open spec fn is_plain_name(name: Seq<u8>) -> bool {
    name.len() > 0 && !name.contains(SEP) && name != seq![DOT]
}

/// A name behind a path adds one component, which is then its last.
pub proof fn law_join_adds_a_component(base: Seq<u8>, name: Seq<u8>)
    requires
        base.len() > 0,
        is_plain_name(name),
    ensures
        components(joined(base, name)) == components(base).push(name),
        is_within(joined(base, name), base),
        name != seq![DOT, DOT] ==> file_name(joined(base, name)) == Some(name),
{
    assert(name.contains(name[0]));
    let path = joined(base, name);
    let at = path.len() - name.len() - 1;
    assert(path[at] == SEP);
    assert forall|k: int| at < k < path.len() implies path[k] != SEP by {
        assert(name.contains(name[k - at - 1]));
        assert(path[k] == name[k - at - 1]);
    }
    lemma_last_index(path, SEP, at);
    assert(path.skip(at + 1) =~= name);
    if base.last() == SEP {
        lemma_last_index(base, SEP, base.len() - 1);
        assert(base.skip(base.len() as int).len() == 0);
        assert(path.take(at) =~= base.take(at));
    } else {
        assert(path.take(at) =~= base);
    }
    let all = components(path);
    assert(all == components(base).push(name));
    assert(components(base) =~= all.subrange(0, components(base).len() as int));
    assert(name != seq![SEP]) by {
        assert(seq![SEP][0] == SEP);
    }
}

/// An absolute path behind another replaces it.
pub proof fn law_join_of_an_absolute_path(base: Seq<u8>, path: Seq<u8>)
    requires
        path.len() > 0,
        path[0] == SEP,
    ensures
        joined(base, path) == path,
{
}

/// The directory that holds a path has all of its components but the last.
pub proof fn law_parent_drops_a_component(p: Seq<u8>)
    requires
        parent(p) is Some,
    ensures
        components(parent(p)->0) == components(p).drop_last(),
{
    lemma_prefix_len(p, components(p).drop_last(), 0);
}

proof fn lemma_prefix_len(p: Seq<u8>, c: Seq<Seq<u8>>, from: int)
    requires
        prefix_len(p, c, from) is Some,
    ensures
        components(p.take(prefix_len(p, c, from)->0)) == c,
    decreases p.len() + 1 - from,
{
    if from <= p.len() && components(p.take(from)) != c {
        lemma_prefix_len(p, c, from + 1);
        assert(prefix_len(p, c, from) == prefix_len(p, c, from + 1));
    }
}

/// Every path but the empty one and the root lies in a directory.
pub proof fn law_paths_have_parents(p: Seq<u8>)
    ensures
        parent(p) is Some <==> components(p).len() > 0 && components(p).last() != seq![SEP],
{
    if components(p).len() > 0 && components(p).last() != seq![SEP] {
        let k = lemma_some_prefix(p);
        lemma_prefix_found(p, components(p).drop_last(), 0, k);
    }
}

proof fn lemma_some_prefix(p: Seq<u8>) -> (k: int)
    requires
        components(p).len() > 0,
        components(p).last() != seq![SEP],
    ensures
        0 <= k <= p.len(),
        components(p.take(k)) == components(p).drop_last(),
    decreases p.len(),
{
    p.index_of_last_ensures(SEP);
    match p.index_of_last(SEP) {
        None => {
            lemma_no_index(p.take(0), SEP);
            assert(components(p.take(0)) =~= components(p).drop_last());
            0
        },
        Some(i) => {
            let piece = p.skip(i + 1);
            if piece.len() == 0 || piece == seq![DOT] {
                let k = lemma_some_prefix(p.take(i));
                assert(p.take(i).take(k) =~= p.take(k));
                k
            } else if i == 0 {
                let root = p.take(1);
                lemma_last_index(root, SEP, 0);
                assert(root.skip(1).len() == 0);
                assert(components(root) == seq![seq![SEP]]);
                assert(components(p).drop_last() =~= seq![seq![SEP]]);
                1
            } else {
                assert(components(p).drop_last() =~= components(p.take(i)));
                i
            }
        },
    }
}

proof fn lemma_prefix_found(p: Seq<u8>, c: Seq<Seq<u8>>, from: int, k: int)
    requires
        from <= k <= p.len(),
        components(p.take(k)) == c,
    ensures
        prefix_len(p, c, from) is Some,
    decreases k - from,
{
    if components(p.take(from)) != c {
        lemma_prefix_found(p, c, from + 1, k);
        assert(prefix_len(p, c, from) == prefix_len(p, c, from + 1));
    }
}

/// The components of a path. One piece without a separator is a component; a separator at the
/// very start is one of its own; a separator at the end counts for nothing, and neither does a
/// `.` behind one.
pub proof fn law_components(base: Seq<u8>, name: Seq<u8>)
    ensures
        components(Seq::empty()) == Seq::<Seq<u8>>::empty(),
        name.len() > 0 && !name.contains(SEP) ==> components(name) == seq![name],
        components(seq![SEP]) == seq![seq![SEP]],
        is_plain_name(name) ==> components(seq![SEP] + name) == seq![seq![SEP], name],
        base.len() > 0 ==> components(base.push(SEP)) == components(base),
        base.len() > 0 ==> components(base.push(SEP).push(DOT)) == components(base),
        base.len() > 0 && is_plain_name(name) ==> components(base.push(SEP) + name) == components(
            base,
        ).push(name),
{
    let none = Seq::<u8>::empty();
    lemma_no_index(none, SEP);
    if name.len() > 0 && !name.contains(SEP) {
        lemma_no_index(name, SEP);
    }
    let root = seq![SEP];
    lemma_last_index(root, SEP, 0);
    assert(root.skip(1).len() == 0);
    assert(components(root) =~= seq![seq![SEP]]);
    if is_plain_name(name) {
        law_join_adds_a_component(root, name);
        assert(name.contains(name[0]));
        assert(joined(root, name) == root + name);
        assert(components(root).push(name) =~= seq![seq![SEP], name]);
    }
    if base.len() > 0 {
        let n = base.len() as int;
        let p = base.push(SEP);
        lemma_last_index(p, SEP, n);
        assert(p.take(n) =~= base);
        assert(p.skip(n + 1).len() == 0);
        let q = p.push(DOT);
        lemma_last_index(q, SEP, n);
        assert(q.take(n) =~= base);
        assert(q.skip(n + 1) =~= seq![DOT]);
        if is_plain_name(name) {
            let path = p + name;
            assert(path[n] == SEP);
            assert forall|k: int| n < k < path.len() implies path[k] != SEP by {
                assert(name.contains(name[k - n - 1]));
            }
            lemma_last_index(path, SEP, n);
            assert(path.take(n) =~= base);
            assert(path.skip(n + 1) =~= name);
        }
    }
}

/// The directory that holds a path is a beginning of it, and no shorter one has the same
/// components.
pub proof fn law_parent_is_the_shortest(p: Seq<u8>, k: int)
    requires
        parent(p) is Some,
    ensures
        parent(p)->0.is_prefix_of(p),
        0 <= k < parent(p)->0.len() ==> components(p.take(k)) != components(p).drop_last(),
{
    lemma_shortest(p, components(p).drop_last(), 0, k);
    let n = prefix_len(p, components(p).drop_last(), 0)->0;
    assert(p.take(n) =~= p.subrange(0, n));
}

proof fn lemma_shortest(p: Seq<u8>, c: Seq<Seq<u8>>, from: int, k: int)
    requires
        0 <= from,
        prefix_len(p, c, from) is Some,
    ensures
        from <= prefix_len(p, c, from)->0 <= p.len(),
        from <= k < prefix_len(p, c, from)->0 ==> components(p.take(k)) != c,
    decreases p.len() + 1 - from,
{
    if components(p.take(from)) != c {
        lemma_shortest(p, c, from + 1, k);
        assert(prefix_len(p, c, from) == prefix_len(p, c, from + 1));
    }
}

/// The extension of a file name is what stands behind its last dot, and the stem what stands in
/// front of it; a name without a dot, or with none but at its start, has no extension and is its
/// own stem.
pub proof fn law_extension(p: Seq<u8>, stem: Seq<u8>, ext: Seq<u8>)
    requires
        !ext.contains(DOT),
    ensures
        file_name(p) == Some(stem.push(DOT) + ext) && stem.len() > 0 ==> file_stem(p) == Some(stem)
            && extension(p) == Some(ext),
        file_name(p) == Some(seq![DOT] + ext) ==> file_stem(p) == file_name(p) && extension(
            p,
        ) is None,
        file_name(p) == Some(ext) ==> file_stem(p) == Some(ext) && extension(p) is None,
        file_name(p) is None ==> file_stem(p) is None && extension(p) is None,
{
    let name = stem.push(DOT) + ext;
    let n = stem.len() as int;
    assert(name[n] == DOT);
    assert forall|k: int| n < k < name.len() implies name[k] != DOT by {
        assert(ext.contains(ext[k - n - 1]));
    }
    lemma_last_index(name, DOT, n);
    assert(name.take(n) =~= stem);
    assert(name.skip(n + 1) =~= ext);
    let dotted = seq![DOT] + ext;
    assert forall|k: int| 0 < k < dotted.len() implies dotted[k] != DOT by {
        assert(ext.contains(ext[k - 1]));
    }
    lemma_last_index(dotted, DOT, 0);
    lemma_no_index(ext, DOT);
}

/// What lies in a directory that can be seen below another can be seen too, unless its own name
/// begins with a dot. A directory can be seen below itself, and nothing outside of it can.
pub proof fn law_visible_below(dir: Seq<u8>, base: Seq<u8>, name: Seq<u8>)
    requires
        dir.len() > 0,
        is_plain_name(name),
        name != seq![DOT, DOT],
    ensures
        is_visible_below(dir, base) ==> (is_visible_below(joined(dir, name), base) <==> name[0]
            != DOT),
        is_within(dir, base) && !is_visible_below(dir, base) ==> !is_visible_below(
            joined(dir, name),
            base,
        ),
        is_visible_below(dir, dir),
        !components(base).is_prefix_of(components(dir)) ==> !is_visible_below(dir, base),
{
    law_join_adds_a_component(dir, name);
    let path = joined(dir, name);
    let inner = components(dir);
    let all = components(path);
    assert(name != seq![SEP]) by {
        assert(seq![SEP][0] == SEP);
        assert(seq![SEP].contains(SEP));
    }
    assert(inner =~= inner.subrange(0, inner.len() as int));
    if is_within(dir, base) {
        let n = components(base).len() as int;
        assert(components(base) =~= all.subrange(0, n)) by {
            assert(components(base) == inner.subrange(0, n));
        }
        assert(is_within(path, base));
        assert(all[inner.len() as int] == name);
        if is_visible_below(dir, base) && name[0] != DOT {
            assert forall|i: int| n <= i < all.len() implies !is_hidden(#[trigger] all[i]) by {
                if i < inner.len() {
                    assert(all[i] == inner[i]);
                }
            }
        }
        if !is_visible_below(dir, base) {
            let i = choose|i: int| n <= i < inner.len() && is_hidden(#[trigger] inner[i]);
            assert(all[i] == inner[i]);
        }
    }
}

/// Whether two lists of components are equal up to a place, at which the first ends or has a
/// component that comes first.
pub open spec fn is_first_at(a: Seq<Seq<u8>>, b: Seq<Seq<u8>>, n: int) -> bool {
    &&& 0 <= n <= a.len()
    &&& n < b.len()
    &&& forall|k: int| 0 <= k < n ==> a[k] == b[k]
    &&& n == a.len() || comes_first(a[n], b[n])
}

/// Whether a component comes before another: `/`, then `.`, then `..`, then the names in the
/// order of their bytes.
pub open spec fn comes_first(a: Seq<u8>, b: Seq<u8>) -> bool {
    ||| a == seq![SEP] && b != seq![SEP]
    ||| a == seq![DOT] && b != seq![SEP] && b != seq![DOT]
    ||| a == seq![DOT, DOT] && is_name(b)
    ||| is_name(a) && is_name(b) && exists|n: int| #[trigger]
        is_less_at(byte_codes(a), byte_codes(b), n)
}

/// Paths are in the order of the first components in which they differ, and a path comes before
/// those below it.
pub proof fn law_path_order(a: Seq<Seq<u8>>, b: Seq<Seq<u8>>)
    ensures
        components_lt(a, b) <==> exists|n: int| #[trigger] is_first_at(a, b, n),
    decreases a.len(),
{
    if b.len() == 0 {
    } else if a.len() == 0 {
        assert(is_first_at(a, b, 0));
    } else if a[0] != b[0] {
        lemma_comes_first(a[0], b[0]);
        if comes_first(a[0], b[0]) {
            assert(is_first_at(a, b, 0));
        } else if exists|n: int| #[trigger] is_first_at(a, b, n) {
            let n = choose|n: int| #[trigger] is_first_at(a, b, n);
            if n > 0 {
                assert(a[0] == b[0]);
            }
        }
    } else {
        let s = a.skip(1);
        let t = b.skip(1);
        law_path_order(s, t);
        lemma_comes_first(a[0], b[0]);
        if exists|n: int| #[trigger] is_first_at(a, b, n) {
            let n = choose|n: int| #[trigger] is_first_at(a, b, n);
            if n == 0 {
                lemma_lex_laws(byte_codes(a[0]), byte_codes(a[0]), byte_codes(a[0]));
            }
            assert(n > 0);
            assert forall|k: int| 0 <= k < n - 1 implies s[k] == t[k] by {
                assert(a[k + 1] == b[k + 1]);
            }
            assert(is_first_at(s, t, n - 1));
        }
        if exists|n: int| #[trigger] is_first_at(s, t, n) {
            let n = choose|n: int| #[trigger] is_first_at(s, t, n);
            assert forall|k: int| 0 <= k < n + 1 implies a[k] == b[k] by {
                if k > 0 {
                    assert(s[k - 1] == t[k - 1]);
                }
            }
            assert(is_first_at(a, b, n + 1));
        }
    }
}

proof fn lemma_comes_first(a: Seq<u8>, b: Seq<u8>)
    ensures
        comes_first(a, b) == component_lt(a, b),
{
    law_lexicographic(byte_codes(a), byte_codes(b));
    let root = seq![SEP];
    let here = seq![DOT];
    let up = seq![DOT, DOT];
    assert(root[0] != here[0]);
    assert(up.len() == 2 && here.len() == 1 && root.len() == 1);
}

} // verus!
