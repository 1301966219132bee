//! Fuzzy search over labels.
//!
//! An empty query keeps every item, in input order. Any other query keeps the items
//! that the fuzzy matcher accepts, and ranks them by tier, so that a literal match always
//! wins: first the labels equal to the query up to case, then those that begin with it,
//! then the rest. Within a tier the higher score comes first, then the shorter label, then
//! the alphabetical order.

use nucleo::{Config, Matcher, Utf32Str};
use vstd::prelude::*;
use vstd::utf8::{encode_utf8, is_ascii_chars};

use crate::order::{
    arranged, char_codes, chars_before, key_views, lemma_lex_laws, lemma_ranking_covers,
    lemma_ranking_exists, lex_lt, rank, ranking, Rank,
};
use crate::text::{
    ascii_lowered, chars_of, lowercase, strings_view, to_ascii_lower, to_lowercase,
};

verus! {

/// The matcher of the `nucleo` crate: scratch memory and a configuration.
#[verifier::external_type_specification]
#[verifier::external_body]
pub struct ExMatcher(nucleo::Matcher);

/// The score that `nucleo` gives a haystack for a needle, with its default configuration
/// but for the case rule, or `None` where they do not match.
pub uninterp spec fn fuzzy_score(
    ignore_case: bool,
    haystack: Seq<char>,
    needle: Seq<char>,
) -> Option<u16>;

/// The longest needle, in units, whose score is sure to fit: the first unit scores 36 at most,
/// each further one 26.
pub const MAX_NEEDLE_UNITS: usize = 2520;

/// How many units a text is to the matcher at most. It takes the first character of each
/// grapheme, of a text in which these are all ASCII the bytes.
pub open spec fn most_units(s: Seq<char>) -> nat {
    if s.len() > 0 && s[0] as u32 >= 0x80 {
        s.len()
    } else {
        encode_utf8(s).len()
    }
}

/// Whether a needle holds no ASCII capitals, which the matcher's prefilter would let through
/// and its scoring would then miss.
pub open spec fn is_without_capitals(needle: Seq<char>) -> bool {
    forall|i: int| 0 <= i < needle.len() ==> !('A' <= #[trigger] needle[i] <= 'Z')
}

/// Whether the characters of `needle` occur in `haystack` in this order.
pub open spec fn is_subsequence(needle: Seq<char>, haystack: Seq<char>) -> bool
    decreases haystack.len(),
{
    if needle.len() == 0 {
        true
    } else if haystack.len() == 0 {
        false
    } else if needle[0] == haystack[0] {
        is_subsequence(needle.skip(1), haystack.skip(1))
    } else {
        is_subsequence(needle, haystack.skip(1))
    }
}

/// Whether a needle cannot match a haystack: an ASCII needle that is longer or that does not
/// occur in ASCII text, or one that is not ASCII in ASCII text.
pub open spec fn is_foreign(needle: Seq<char>, haystack: Seq<char>) -> bool {
    if is_ascii_chars(needle) {
        most_units(haystack) < needle.len() || (is_ascii_chars(haystack) && !is_subsequence(
            needle,
            ascii_lowered(haystack),
        ))
    } else {
        is_ascii_chars(haystack)
    }
}

/// Whether the matcher takes a haystack and a needle: the needle is short enough for a 16-bit
/// score, or it cannot match.
pub open spec fn is_matchable(haystack: Seq<char>, needle: Seq<char>) -> bool {
    &&& encode_utf8(haystack).len() <= u32::MAX
    &&& is_without_capitals(needle)
    &&& most_units(needle) <= MAX_NEEDLE_UNITS || is_foreign(needle, haystack)
}

/// `nucleo::Matcher::new`: scratch memory for matching.
#[verifier::external_body]
fn new_matcher() -> (r: Matcher) {
    Matcher::new(Config::DEFAULT)
}

/// `nucleo::Matcher::fuzzy_match` under the default configuration and the given case rule.
/// The matcher only lends its scratch memory: the score depends on the case rule and the
/// two strings. In ASCII text, case ignored, a needle matches if and only if its characters
/// occur in the haystack in their order. Under either case rule an ASCII needle matches
/// neither a shorter haystack nor ASCII text in which it does not occur, and one that is not
/// ASCII matches no ASCII text. Of other text it is left unsaid what matches: there the
/// matcher folds letters by tables of its own.
#[verifier::external_body]
fn fuzzy_match(matcher: &mut Matcher, ignore_case: bool, haystack: &str, needle: &str) -> (r:
    Option<u16>)
    requires
        is_matchable(haystack@, needle@),
    ensures
        r == fuzzy_score(ignore_case, haystack@, needle@),
        is_foreign(needle@, haystack@) ==> r is None,
        ignore_case && is_ascii_chars(haystack@) && is_ascii_chars(needle@) ==> (r is Some
            <==> is_subsequence(needle@, ascii_lowered(haystack@))),
{
    matcher.config = Config::DEFAULT;
    matcher.config.ignore_case = ignore_case;
    let mut haystack_buf = Vec::new();
    let mut needle_buf = Vec::new();
    matcher.fuzzy_match(
        Utf32Str::new(haystack, &mut haystack_buf),
        Utf32Str::new(needle, &mut needle_buf),
    )
}

/// An item that has a label to search in.
pub trait Labeled: Sized {
    spec fn label(&self) -> Seq<char>;

    fn get_label(&self) -> (r: &str)
        ensures
            r@ == self.label(),
    ;
}

impl Labeled for String {
    open spec fn label(&self) -> Seq<char> {
        self@
    }

    fn get_label(&self) -> (r: &str) {
        self.as_str()
    }
}

/// The labels of a list of items.
pub open spec fn labels<T: Labeled>(items: Seq<T>) -> Seq<Seq<char>> {
    Seq::new(items.len(), |i: int| items[i].label())
}

/// A search result: the item's place in the list, and its score.
#[derive(Clone, Copy, Debug, PartialEq, Eq, Structural)]
pub struct Hit {
    pub idx: usize,
    pub score: u32,
}

/// What decides the place of a hit among the others.
pub struct HitRank {
    pub tier: int,
    pub score: int,
    pub len: int,
    pub lowered: Seq<char>,
}

/// The executable form of a [`HitRank`].
pub struct HitKey {
    pub tier: u8,
    pub score: u32,
    pub len: usize,
    pub lowered: Vec<char>,
}

impl View for HitKey {
    type V = HitRank;

    open spec fn view(&self) -> HitRank {
        HitRank {
            tier: self.tier as int,
            score: self.score as int,
            len: self.len as int,
            lowered: self.lowered@,
        }
    }
}

impl Rank for HitKey {
    /// Tier first, then the higher score, the shorter label, the alphabetical order.
    open spec fn lt(a: HitRank, b: HitRank) -> bool {
        if a.tier != b.tier {
            a.tier < b.tier
        } else if a.score != b.score {
            a.score > b.score
        } else if a.len != b.len {
            a.len < b.len
        } else {
            lex_lt(char_codes(a.lowered), char_codes(b.lowered))
        }
    }

    proof fn order_laws(a: HitRank, b: HitRank, c: HitRank) {
        lemma_lex_laws(char_codes(a.lowered), char_codes(b.lowered), char_codes(c.lowered));
    }

    fn before(&self, other: &Self) -> (r: bool) {
        if self.tier != other.tier {
            self.tier < other.tier
        } else if self.score != other.score {
            self.score > other.score
        } else if self.len != other.len {
            self.len < other.len
        } else {
            chars_before(self.lowered.as_slice(), other.lowered.as_slice())
        }
    }
}

/// 0 for a label equal to the needle, 1 for one that begins with it, 2 for any other; both
/// in lower case.
pub open spec fn tier_of(lowered: Seq<char>, needle: Seq<char>) -> int {
    if lowered == needle {
        0
    } else if needle.is_prefix_of(lowered) {
        1
    } else {
        2
    }
}

/// The items with a score, in list order.
pub open spec fn accepted(scores: Seq<Option<u16>>) -> Seq<Hit>
    decreases scores.len(),
{
    if scores.len() == 0 {
        Seq::empty()
    } else {
        let before = accepted(scores.drop_last());
        match scores.last() {
            Some(score) => before.push(
                Hit { idx: (scores.len() - 1) as usize, score: score as u32 },
            ),
            None => before,
        }
    }
}

/// What decides the place of one hit.
pub open spec fn hit_rank(
    labels: Seq<Seq<char>>,
    lowered: Seq<Seq<char>>,
    needle: Seq<char>,
    hit: Hit,
) -> HitRank {
    HitRank {
        tier: tier_of(lowered[hit.idx as int], needle),
        score: hit.score as int,
        len: labels[hit.idx as int].len() as int,
        lowered: lowered[hit.idx as int],
    }
}

/// What decides the places of a list of hits.
pub open spec fn hit_ranks(
    labels: Seq<Seq<char>>,
    lowered: Seq<Seq<char>>,
    needle: Seq<char>,
    hits: Seq<Hit>,
) -> Seq<HitRank> {
    Seq::new(hits.len(), |i: int| hit_rank(labels, lowered, needle, hits[i]))
}

/// The hits of a search in the order in which they are shown.
pub open spec fn ranked(
    labels: Seq<Seq<char>>,
    lowered: Seq<Seq<char>>,
    needle: Seq<char>,
    scores: Seq<Option<u16>>,
) -> Seq<Hit> {
    let hits = accepted(scores);
    arranged(hits, ranking::<HitKey>(hit_ranks(labels, lowered, needle, hits)))
}

/// The labels in lower case.
pub open spec fn lowered_labels(labels: Seq<Seq<char>>) -> Seq<Seq<char>> {
    Seq::new(labels.len(), |i: int| lowercase(labels[i]))
}

/// The scores of the labels under a case rule.
pub open spec fn label_scores(
    ignore_case: bool,
    labels: Seq<Seq<char>>,
    needle: Seq<char>,
) -> Seq<Option<u16>> {
    Seq::new(labels.len(), |i: int| fuzzy_score(ignore_case, labels[i], needle))
}

/// The result of a search under a case rule.
pub open spec fn search_result(
    ignore_case: bool,
    labels: Seq<Seq<char>>,
    query: Seq<char>,
) -> Seq<Hit> {
    if query.len() == 0 {
        Seq::new(labels.len(), |i: int| Hit { idx: i as usize, score: 0 })
    } else {
        let needle = lowercase(query);
        ranked(
            labels,
            lowered_labels(labels),
            needle,
            label_scores(ignore_case, labels, needle),
        )
    }
}

/// The searches that the matcher takes: any with an empty query, and those in which it takes
/// each label with the query.
pub open spec fn searchable(labels: Seq<Seq<char>>, query: Seq<char>) -> bool {
    query.len() == 0 || forall|i: int|
        0 <= i < labels.len() ==> is_matchable(#[trigger] labels[i], lowercase(query))
}

/// The accepted items lie in the list, have a score, and come in list order.
pub proof fn lemma_accepted(scores: Seq<Option<u16>>)
    requires
        scores.len() <= usize::MAX,
    ensures
        accepted(scores).len() <= scores.len(),
        forall|i: int|
            0 <= i < accepted(scores).len() ==> {
                let hit = #[trigger] accepted(scores)[i];
                hit.idx < scores.len() && scores[hit.idx as int] == Some(hit.score as u16)
                    && hit.score <= u16::MAX
            },
        forall|i: int, j: int|
            0 <= i < j < accepted(scores).len() ==> (#[trigger] accepted(scores)[i]).idx < (
            #[trigger] accepted(scores)[j]).idx,
        forall|k: int|
            0 <= k < scores.len() && (#[trigger] scores[k]) is Some ==> accepted(scores).contains(
                Hit { idx: k as usize, score: scores[k]->0 as u32 },
            ),
    decreases scores.len(),
{
    if scores.len() > 0 {
        let before = scores.drop_last();
        lemma_accepted(before);
        assert forall|k: int| 0 <= k < scores.len() && (#[trigger] scores[k]) is Some implies accepted(
            scores,
        ).contains(Hit { idx: k as usize, score: scores[k]->0 as u32 }) by {
            let hit = Hit { idx: k as usize, score: scores[k]->0 as u32 };
            if k < before.len() {
                assert(before[k] is Some);
                let i = choose|i: int| 0 <= i < accepted(before).len() && accepted(before)[i] == hit;
                assert(accepted(scores)[i] == hit);
            } else {
                assert(accepted(scores).last() == hit);
            }
        }
    }
}

/// Ranks the accepted items of a list, given each item's label, its lower-case form and
/// its score.
pub fn rank_hits<T: Labeled>(
    items: &Vec<T>,
    lowered: &Vec<String>,
    needle: &str,
    scores: &Vec<Option<u16>>,
) -> (r: Vec<Hit>)
    requires
        lowered@.len() == items@.len(),
        scores@.len() == items@.len(),
    ensures
        r@ == ranked(labels(items@), strings_view(lowered@), needle@, scores@),
{
    let ghost ls = labels(items@);
    let ghost low = strings_view(lowered@);
    let needle_chars = chars_of(needle);
    let mut hits: Vec<Hit> = Vec::new();
    let mut keys: Vec<HitKey> = Vec::new();
    let mut i: usize = 0;
    assert(scores@.take(0) =~= Seq::empty());
    while i < items.len()
        invariant
            i <= items@.len(),
            lowered@.len() == items@.len(),
            scores@.len() == items@.len(),
            ls == labels(items@),
            low == strings_view(lowered@),
            needle_chars@ == needle@,
            hits@ == accepted(scores@.take(i as int)),
            key_views(keys@) == hit_ranks(ls, low, needle@, hits@),
        decreases items.len() - i,
    {
        assert(scores@.take(i + 1).drop_last() =~= scores@.take(i as int));
        if let Some(score) = scores[i] {
            let lowered_label = chars_of(lowered[i].as_str());
            let label = items[i].get_label();
            let tier: u8 = if crate::text::chars_eq(lowered_label.as_slice(), needle_chars.as_slice()) {
                0
            } else if crate::text::starts_with(lowered_label.as_slice(), needle_chars.as_slice()) {
                1
            } else {
                2
            };
            let len = label.unicode_len();
            let hit = Hit { idx: i, score: score as u32 };
            let key = HitKey { tier, score: score as u32, len, lowered: lowered_label };
            let ghost old_hits = hits@;
            let ghost old_keys = keys@;
            hits.push(hit);
            keys.push(key);
            assert(key@ == hit_rank(ls, low, needle@, hit));
            assert(key_views(keys@) =~= key_views(old_keys).push(key@));
            assert(hit_ranks(ls, low, needle@, hits@) =~= hit_ranks(
                ls,
                low,
                needle@,
                old_hits,
            ).push(hit_rank(ls, low, needle@, hit)));
        }
        i += 1;
    }
    assert(scores@.take(i as int) =~= scores@);
    let order = rank(&keys);
    let mut out: Vec<Hit> = Vec::new();
    let mut j: usize = 0;
    assert(key_views(keys@).len() == keys@.len());
    assert(hit_ranks(ls, low, needle@, hits@).len() == hits@.len());
    while j < order.len()
        invariant
            j <= order@.len(),
            order@.len() == hits@.len(),
            forall|a: int| 0 <= a < order@.len() ==> (#[trigger] order@[a]) < hits@.len(),
            out@ == arranged(hits@, order@).take(j as int),
        decreases order.len() - j,
    {
        out.push(hits[order[j]]);
        assert(arranged(hits@, order@).take(j + 1) =~= arranged(hits@, order@).take(
            j as int,
        ).push(hits@[order@[j as int] as int]));
        j += 1;
    }
    assert(arranged(hits@, order@).take(j as int) =~= arranged(hits@, order@));
    out
}

/// Whether a hit for the item at `i` is among the hits.
pub open spec fn is_hit(hits: Seq<Hit>, i: int) -> bool {
    exists|h: int| 0 <= h < hits.len() && (#[trigger] hits[h]).idx == i
}

/// Whether an ASCII query finds exactly those of the ASCII labels in which its characters
/// occur in their order, case ignored.
pub open spec fn finds_ascii(hits: Seq<Hit>, labels: Seq<Seq<char>>, query: Seq<char>) -> bool {
    is_ascii_chars(query) ==> forall|i: int|
        0 <= i < labels.len() && is_ascii_chars(#[trigger] labels[i]) ==> (is_hit(hits, i)
            <==> is_subsequence(ascii_lowered(query), ascii_lowered(labels[i])))
}

/// Whether the first hit for an ASCII query is a label equal to it up to case, where there
/// is such a label in ASCII.
pub open spec fn literal_wins(hits: Seq<Hit>, labels: Seq<Seq<char>>, query: Seq<char>) -> bool {
    forall|i: int|
        query.len() > 0 && is_ascii_chars(query) && 0 <= i < labels.len() && is_ascii_chars(
            #[trigger] labels[i],
        ) && ascii_lowered(labels[i]) == ascii_lowered(query) ==> hits.len() > 0 && lowercase(
            labels[hits[0].idx as int],
        ) == lowercase(query)
}

/// Whether no label is found that the query cannot match.
pub open spec fn misses_foreign(hits: Seq<Hit>, labels: Seq<Seq<char>>, query: Seq<char>) -> bool {
    forall|i: int|
        0 <= i < labels.len() && is_foreign(lowercase(query), #[trigger] labels[i]) && query.len() > 0
            ==> !is_hit(hits, i)
}

proof fn lemma_misses_foreign(
    ignore_case: bool,
    labels: Seq<Seq<char>>,
    query: Seq<char>,
    scores: Seq<Option<u16>>,
)
    requires
        labels.len() <= usize::MAX,
        query.len() > 0,
        scores == label_scores(ignore_case, labels, lowercase(query)),
        forall|k: int|
            0 <= k < labels.len() && is_foreign(lowercase(query), #[trigger] labels[k])
                ==> scores[k] is None,
    ensures
        misses_foreign(search_result(ignore_case, labels, query), labels, query),
{
    let hits = search_result(ignore_case, labels, query);
    law_ranked_keeps_the_accepted(labels, lowered_labels(labels), lowercase(query), scores);
    assert forall|i: int|
        0 <= i < labels.len() && is_foreign(lowercase(query), #[trigger] labels[i]) && query.len()
            > 0 implies !is_hit(hits, i) by {
        if is_hit(hits, i) {
            let h = choose|h: int| 0 <= h < hits.len() && (#[trigger] hits[h]).idx == i;
            assert(scores[i] is Some);
        }
    }
}

proof fn lemma_subsequence_of_itself(s: Seq<char>)
    ensures
        is_subsequence(s, s),
    decreases s.len(),
{
    if s.len() > 0 {
        lemma_subsequence_of_itself(s.skip(1));
    }
}

proof fn lemma_ascii_lowered(s: Seq<char>)
    requires
        is_ascii_chars(s),
    ensures
        is_ascii_chars(ascii_lowered(s)),
        ascii_lowered(s).len() == s.len(),
{
}

/// What a search finds, from the scores of the labels.
proof fn lemma_search_finds(
    labels: Seq<Seq<char>>,
    query: Seq<char>,
    needle: Seq<char>,
    scores: Seq<Option<u16>>,
)
    requires
        labels.len() <= usize::MAX,
        query.len() > 0,
        needle == lowercase(query),
        is_ascii_chars(query) ==> needle == ascii_lowered(query),
        scores == label_scores(true, labels, needle),
        forall|k: int|
            0 <= k < labels.len() && is_ascii_chars(needle) && is_ascii_chars(#[trigger] labels[k])
                ==> (scores[k] is Some <==> is_subsequence(needle, ascii_lowered(labels[k]))),
        forall|k: int|
            0 <= k < labels.len() && is_ascii_chars(#[trigger] labels[k]) && scores[k] is Some
                ==> lowercase(labels[k]) == ascii_lowered(labels[k]),
    ensures
        finds_ascii(search_result(true, labels, query), labels, query),
        literal_wins(search_result(true, labels, query), labels, query),
{
    let lowered = lowered_labels(labels);
    let hits = search_result(true, labels, query);
    assert(hits == ranked(labels, lowered, needle, scores));
    law_ranked_keeps_the_accepted(labels, lowered, needle, scores);
    if is_ascii_chars(query) {
        lemma_ascii_lowered(query);
        assert forall|i: int| 0 <= i < labels.len() && is_ascii_chars(#[trigger] labels[i]) implies (
        is_hit(hits, i) <==> is_subsequence(ascii_lowered(query), ascii_lowered(labels[i]))) by {
            if is_hit(hits, i) {
                let h = choose|h: int| 0 <= h < hits.len() && (#[trigger] hits[h]).idx == i;
                assert(scores[i] is Some);
            }
            if scores[i] is Some {
                let hit = Hit { idx: i as usize, score: scores[i]->0 as u32 };
                assert(hits.contains(hit));
                let h = choose|h: int| 0 <= h < hits.len() && hits[h] == hit;
                assert(hits[h].idx == i);
            }
        }
        assert forall|i: int|
            0 <= i < labels.len() && is_ascii_chars(#[trigger] labels[i]) && ascii_lowered(
                labels[i],
            ) == ascii_lowered(query) implies hits.len() > 0 && lowercase(
            labels[hits[0].idx as int],
        ) == lowercase(query) by {
            lemma_subsequence_of_itself(needle);
            assert(is_hit(hits, i));
            let h = choose|h: int| 0 <= h < hits.len() && (#[trigger] hits[h]).idx == i;
            assert(tier_of(lowered[i], needle) == 0);
            if h > 0 {
                law_ranked_by_tier_score_length(labels, lowered, needle, scores, 0, h);
            }
            assert(hits[0].idx < scores.len());
        }
    }
}

/// How many units a text is to the matcher at most.
fn count_units(s: &str) -> (r: usize)
    ensures
        r == most_units(s@),
{
    let chars = chars_of(s);
    if chars.len() > 0 && chars[0] as u32 >= 0x80 {
        chars.len()
    } else {
        s.as_bytes().len()
    }
}

/// Whether characters occur in a text in their order, case ignored.
fn occurs_in(needle: &Vec<char>, haystack: &str) -> (r: bool)
    ensures
        r == is_subsequence(needle@, ascii_lowered(haystack@)),
{
    let chars = chars_of(haystack);
    let ghost lowered = ascii_lowered(haystack@);
    let mut i: usize = 0;
    let mut j: usize = 0;
    assert(needle@.skip(0) =~= needle@);
    assert(lowered.skip(0) =~= lowered);
    while i < chars.len() && j < needle.len()
        invariant
            i <= chars@.len(),
            j <= needle@.len(),
            chars@ == haystack@,
            lowered == ascii_lowered(haystack@),
            is_subsequence(needle@, lowered) == is_subsequence(
                needle@.skip(j as int),
                lowered.skip(i as int),
            ),
        decreases chars.len() - i,
    {
        assert(lowered.skip(i as int).skip(1) =~= lowered.skip(i + 1));
        assert(needle@.skip(j as int).skip(1) =~= needle@.skip(j + 1));
        if needle[j] == to_ascii_lower(chars[i]) {
            j += 1;
        }
        i += 1;
    }
    j == needle.len()
}

/// Whether a needle, given with its characters, cannot match a haystack.
fn cannot_match(needle: &str, needle_chars: &Vec<char>, haystack: &str) -> (r: bool)
    requires
        needle_chars@ == needle@,
    ensures
        r == is_foreign(needle@, haystack@),
{
    if needle.is_ascii() {
        count_units(haystack) < needle_chars.len() || (haystack.is_ascii() && !occurs_in(
            needle_chars,
            haystack,
        ))
    } else {
        haystack.is_ascii()
    }
}

/// A search engine: its case rule, and scratch memory that is used again for each search.
pub struct Index {
    matcher: Matcher,
    ignore_case: bool,
}

impl Index {
    /// Whether the fuzzy matcher ignores case.
    pub closed spec fn ignores_case(&self) -> bool {
        self.ignore_case
    }

    /// A search engine that ignores case.
    pub fn new() -> (r: Self)
        ensures
            r.ignores_case(),
    {
        Index { matcher: new_matcher(), ignore_case: true }
    }

    /// Searches the labels of `items` for `query`.
    pub fn search<T: Labeled>(&mut self, items: &Vec<T>, query: &str) -> (r: Vec<Hit>)
        requires
            searchable(labels(items@), query@),
        ensures
            final(self).ignores_case() == old(self).ignores_case(),
            r@ == search_result(old(self).ignores_case(), labels(items@), query@),
            misses_foreign(r@, labels(items@), query@),
            old(self).ignores_case() ==> finds_ascii(r@, labels(items@), query@),
            old(self).ignores_case() ==> literal_wins(r@, labels(items@), query@),
    {
        let ghost ls = labels(items@);
        if query.is_empty() {
            let mut out: Vec<Hit> = Vec::new();
            let mut i: usize = 0;
            while i < items.len()
                invariant
                    i <= items@.len(),
                    out@ == Seq::new(i as nat, |k: int| Hit { idx: k as usize, score: 0 }),
                decreases items.len() - i,
            {
                out.push(Hit { idx: i, score: 0 });
                i += 1;
                assert(out@ =~= Seq::new(i as nat, |k: int| Hit { idx: k as usize, score: 0 }));
            }
            assert(out@ =~= search_result(self.ignore_case, ls, query@));
            assert(ascii_lowered(query@).len() == 0);
            assert forall|i: int| 0 <= i < ls.len() implies is_hit(out@, i) by {
                assert(out@[i].idx == i);
            }
            return out;
        }
        let ignore_case = self.ignore_case;
        let needle = to_lowercase(query);
        let mut lowered: Vec<String> = Vec::new();
        let mut scores: Vec<Option<u16>> = Vec::new();
        let mut i: usize = 0;
        while i < items.len()
            invariant
                i <= items@.len(),
                ls == labels(items@),
                ignore_case == old(self).ignore_case,
                self.ignore_case == ignore_case,
                needle@ == lowercase(query@),
                forall|k: int| 0 <= k < ls.len() ==> is_matchable(#[trigger] ls[k], needle@),
                lowered@.len() == i,
                scores@.len() == i,
                forall|k: int|
                    0 <= k < i && scores@[k] is Some ==> (#[trigger] lowered@[k])@ == lowercase(
                        ls[k],
                    ),
                forall|k: int|
                    0 <= k < i ==> (#[trigger] scores@[k]) == fuzzy_score(
                        ignore_case,
                        ls[k],
                        needle@,
                    ),
                forall|k: int|
                    0 <= k < i && is_foreign(needle@, #[trigger] ls[k]) ==> scores@[k] is None,
                forall|k: int|
                    0 <= k < i && ignore_case && is_ascii_chars(needle@) && is_ascii_chars(#[trigger] ls[k]) ==> (
                    scores@[k] is Some <==> is_subsequence(needle@, ascii_lowered(ls[k]))),
                forall|k: int|
                    0 <= k < i && is_ascii_chars(#[trigger] ls[k]) && scores@[k] is Some
                        ==> lowercase(ls[k]) == ascii_lowered(ls[k]),
            decreases items.len() - i,
        {
            let label = items[i].get_label();
            assert(ls[i as int] == label@);
            let score = fuzzy_match(&mut self.matcher, ignore_case, label, needle.as_str());
            if score.is_some() {
                lowered.push(to_lowercase(label));
            } else {
                lowered.push(String::new());
            }
            scores.push(score);
            i += 1;
        }
        assert(scores@ =~= label_scores(ignore_case, ls, needle@));
        proof {
            lemma_misses_foreign(ignore_case, ls, query@, scores@);
            if ignore_case {
                lemma_search_finds(ls, query@, needle@, scores@);
            }
            let hits = accepted(scores@);
            lemma_accepted(scores@);
            assert forall|k: int| 0 <= k < hits.len() implies hit_rank(
                ls,
                strings_view(lowered@),
                needle@,
                #[trigger] hits[k],
            ) == hit_rank(ls, lowered_labels(ls), needle@, hits[k]) by {
                assert(lowered@[hits[k].idx as int]@ == lowercase(ls[hits[k].idx as int]));
            }
            assert(hit_ranks(ls, strings_view(lowered@), needle@, hits) =~= hit_ranks(
                ls,
                lowered_labels(ls),
                needle@,
                hits,
            ));
        }
        rank_hits(items, &lowered, needle.as_str(), &scores)
    }

    /// Searches the labels of `items` for `query`, or returns `None` where the query or a
    /// label is beyond the matcher's limits.
    pub fn try_search<T: Labeled>(&mut self, items: &Vec<T>, query: &str) -> (r: Option<Vec<Hit>>)
        ensures
            final(self).ignores_case() == old(self).ignores_case(),
            r is Some <==> searchable(labels(items@), query@),
            r matches Some(hits) ==> hits@ == search_result(
                old(self).ignores_case(),
                labels(items@),
                query@,
            ),
            r matches Some(hits) ==> misses_foreign(hits@, labels(items@), query@),
            old(self).ignores_case() ==> (r matches Some(hits) ==> finds_ascii(
                hits@,
                labels(items@),
                query@,
            ) && literal_wins(hits@, labels(items@), query@)),
    {
        let ghost ls = labels(items@);
        if query.is_empty() {
            return Some(self.search(items, query));
        }
        let needle = to_lowercase(query);
        let needle_chars = chars_of(needle.as_str());
        let fits = count_units(needle.as_str()) <= MAX_NEEDLE_UNITS;
        let mut i: usize = 0;
        while i < items.len()
            invariant
                i <= items@.len(),
                ls == labels(items@),
                query@.len() > 0,
                self.ignore_case == old(self).ignore_case,
                needle@ == lowercase(query@),
                needle_chars@ == needle@,
                fits == (most_units(needle@) <= MAX_NEEDLE_UNITS),
                is_without_capitals(needle@),
                forall|k: int| 0 <= k < i ==> is_matchable(#[trigger] ls[k], needle@),
            decreases items.len() - i,
        {
            let label = items[i].get_label();
            assert(ls[i as int] == label@);
            if label.as_bytes().len() as u64 > u32::MAX as u64 || !(fits || cannot_match(
                needle.as_str(),
                &needle_chars,
                label,
            )) {
                assert(!is_matchable(ls[i as int], needle@));
                return None;
            }
            i += 1;
        }
        Some(self.search(items, query))
    }
}

// ---------------------------------------------------------------------------
// Laws
// ---------------------------------------------------------------------------

/// A ranked search keeps exactly the items with a score: each of them once, with its
/// score, and no other.
pub proof fn law_ranked_keeps_the_accepted(
    labels: Seq<Seq<char>>,
    lowered: Seq<Seq<char>>,
    needle: Seq<char>,
    scores: Seq<Option<u16>>,
)
    requires
        scores.len() <= usize::MAX,
    ensures
        forall|i: int|
            0 <= i < ranked(labels, lowered, needle, scores).len() ==> {
                let hit = #[trigger] ranked(labels, lowered, needle, scores)[i];
                hit.idx < scores.len() && scores[hit.idx as int] == Some(hit.score as u16)
            },
        forall|k: int|
            0 <= k < scores.len() && (#[trigger] scores[k]) is Some ==> ranked(
                labels,
                lowered,
                needle,
                scores,
            ).contains(Hit { idx: k as usize, score: scores[k]->0 as u32 }),
        forall|i: int, j: int|
            0 <= i < j < ranked(labels, lowered, needle, scores).len() ==> (#[trigger] ranked(
                labels,
                lowered,
                needle,
                scores,
            )[i]).idx != (#[trigger] ranked(labels, lowered, needle, scores)[j]).idx,
{
    let hits = accepted(scores);
    let ranks = hit_ranks(labels, lowered, needle, hits);
    let order = ranking::<HitKey>(ranks);
    let out = ranked(labels, lowered, needle, scores);
    lemma_accepted(scores);
    lemma_ranking_exists::<HitKey>(ranks);
    lemma_ranking_covers::<HitKey>(ranks, order);
    assert forall|k: int| 0 <= k < scores.len() && (#[trigger] scores[k]) is Some implies out.contains(
        Hit { idx: k as usize, score: scores[k]->0 as u32 },
    ) by {
        let hit = Hit { idx: k as usize, score: scores[k]->0 as u32 };
        let p = choose|p: int| 0 <= p < hits.len() && hits[p] == hit;
        assert(order.contains(p as usize));
        let a = choose|a: int| 0 <= a < order.len() && order[a] == p as usize;
        assert(out[a] == hit);
    }
    assert forall|i: int, j: int| 0 <= i < j < out.len() implies (#[trigger] out[i]).idx != (
    #[trigger] out[j]).idx by {
        let p = order[i] as int;
        let q = order[j] as int;
        assert(p != q);
        assert(out[i] == hits[p]);
        assert(out[j] == hits[q]);
        if p < q {
            assert(hits[p].idx < hits[q].idx);
        } else {
            assert(hits[q].idx < hits[p].idx);
        }
    }
}

/// A literal match wins: in a ranked search the tiers ascend, within a tier the scores
/// descend, among equal scores the shorter label comes first, then the first in alphabetical
/// order, and hits equal in all of these keep the order of the list.
pub proof fn law_ranked_by_tier_score_length(
    labels: Seq<Seq<char>>,
    lowered: Seq<Seq<char>>,
    needle: Seq<char>,
    scores: Seq<Option<u16>>,
    i: int,
    j: int,
)
    requires
        scores.len() <= usize::MAX,
        0 <= i < j < ranked(labels, lowered, needle, scores).len(),
    ensures
        ({
            let out = ranked(labels, lowered, needle, scores);
            let a = hit_rank(labels, lowered, needle, out[i]);
            let b = hit_rank(labels, lowered, needle, out[j]);
            &&& a.tier <= b.tier
            &&& a.tier == b.tier ==> a.score >= b.score
            &&& a.tier == b.tier && a.score == b.score ==> a.len <= b.len
            &&& a.tier == b.tier && a.score == b.score && a.len == b.len ==> !lex_lt(
                char_codes(b.lowered),
                char_codes(a.lowered),
            )
            &&& a == b ==> out[i].idx < out[j].idx
        }),
{
    let hits = accepted(scores);
    let ranks = hit_ranks(labels, lowered, needle, hits);
    let order = ranking::<HitKey>(ranks);
    lemma_accepted(scores);
    lemma_ranking_exists::<HitKey>(ranks);
    let p = order[i] as int;
    let q = order[j] as int;
    assert(crate::order::precedes::<HitKey>(ranks, p, q));
    HitKey::order_laws(ranks[p], ranks[q], ranks[p]);
}

/// An empty query keeps every item, in list order.
pub proof fn law_empty_query_keeps_all(ignore_case: bool, labels: Seq<Seq<char>>)
    requires
        labels.len() <= usize::MAX,
    ensures
        searchable(labels, Seq::empty()),
        search_result(ignore_case, labels, Seq::empty()).len() == labels.len(),
        forall|i: int|
            0 <= i < labels.len() ==> (#[trigger] search_result(
                ignore_case,
                labels,
                Seq::empty(),
            )[i]).idx == i,
{
}

/// Every hit of a search lies in the searched list.
pub proof fn law_hits_in_range(ignore_case: bool, labels: Seq<Seq<char>>, query: Seq<char>)
    requires
        labels.len() <= usize::MAX,
    ensures
        search_result(ignore_case, labels, query).len() <= labels.len(),
        forall|i: int|
            0 <= i < search_result(ignore_case, labels, query).len() ==> (#[trigger] search_result(
                ignore_case,
                labels,
                query,
            )[i]).idx < labels.len(),
{
    if query.len() > 0 {
        let needle = lowercase(query);
        let scores = label_scores(ignore_case, labels, needle);
        law_ranked_keeps_the_accepted(labels, lowered_labels(labels), needle, scores);
        lemma_accepted(scores);
        lemma_ranking_exists::<HitKey>(
            hit_ranks(labels, lowered_labels(labels), needle, accepted(scores)),
        );
    }
}

/// The hits of a search with a query, in their order: a label equal to the query comes before
/// every other, one that begins with the query before every one that does not, both in lower
/// case; of two alike in this the higher score comes first, then the shorter label, then the
/// first in alphabetical order, then the first in the list. `i` is the place of a hit, `j` that
/// of a later one.
pub proof fn law_search_order(
    ignore_case: bool,
    labels: Seq<Seq<char>>,
    query: Seq<char>,
    i: int,
    j: int,
)
    requires
        labels.len() <= usize::MAX,
        query.len() > 0,
        0 <= i < j < search_result(ignore_case, labels, query).len(),
    ensures
        ({
            let hits = search_result(ignore_case, labels, query);
            let q = lowercase(query);
            let a = lowercase(labels[hits[i].idx as int]);
            let b = lowercase(labels[hits[j].idx as int]);
            &&& b == q ==> a == q
            &&& q.is_prefix_of(b) ==> q.is_prefix_of(a)
            &&& (a == q <==> b == q) && (q.is_prefix_of(a) <==> q.is_prefix_of(b)) ==> {
                &&& hits[i].score >= hits[j].score
                &&& hits[i].score == hits[j].score ==> labels[hits[i].idx as int].len()
                    <= labels[hits[j].idx as int].len()
                &&& hits[i].score == hits[j].score && labels[hits[i].idx as int].len()
                    == labels[hits[j].idx as int].len() ==> !comes_before(b, a) && (a == b
                    ==> hits[i].idx < hits[j].idx)
            }
        }),
{
    let hits = search_result(ignore_case, labels, query);
    let q = lowercase(query);
    let lowered = lowered_labels(labels);
    let scores = label_scores(ignore_case, labels, q);
    law_ranked_keeps_the_accepted(labels, lowered, q, scores);
    law_ranked_by_tier_score_length(labels, lowered, q, scores, i, j);
    let a = lowered[hits[i].idx as int];
    let b = lowered[hits[j].idx as int];
    assert(hits[i].idx < labels.len() && hits[j].idx < labels.len());
    lemma_comes_before(b, a);
    if b == q {
        assert(q.is_prefix_of(q));
    }
}

/// Whether a text comes before another in alphabetical order: it is a beginning of the other,
/// or smaller at the first place where they differ.
pub open spec fn comes_before(a: Seq<char>, b: Seq<char>) -> bool {
    exists|n: int| #[trigger] differs_first_at(a, b, n)
}

/// Whether two texts are equal up to a place, at which the first ends or is smaller.
pub open spec fn differs_first_at(a: Seq<char>, b: Seq<char>, n: int) -> bool {
    &&& 0 <= n <= a.len()
    &&& n < b.len()
    &&& forall|k: int| 0 <= k < n ==> a[k] == b[k]
    &&& n == a.len() || a[n] < b[n]
}

pub proof fn lemma_comes_before(a: Seq<char>, b: Seq<char>)
    ensures
        comes_before(a, b) == lex_lt(char_codes(a), char_codes(b)),
    decreases a.len(),
{
    let x = char_codes(a);
    let y = char_codes(b);
    if b.len() == 0 {
    } else if a.len() == 0 {
        assert(differs_first_at(a, b, 0));
    } else if a[0] != b[0] {
        assert(x[0] == a[0] as int && y[0] == b[0] as int);
        if a[0] < b[0] {
            assert(differs_first_at(a, b, 0));
        } else if comes_before(a, b) {
            let n = choose|n: int| #[trigger] differs_first_at(a, b, n);
            if n > 0 {
                assert(a[0] == b[0]);
            }
        }
    } else {
        let s = a.skip(1);
        let t = b.skip(1);
        lemma_comes_before(s, t);
        assert(x.skip(1) =~= char_codes(s));
        assert(y.skip(1) =~= char_codes(t));
        assert(x[0] == y[0]);
        if comes_before(a, b) {
            let n = choose|n: int| #[trigger] differs_first_at(a, b, n);
            assert(n > 0);
            assert forall|k: int| 0 <= k < n - 1 implies s[k] == t[k] by {
                assert(a[k + 1] == b[k + 1]);
            }
            assert(differs_first_at(s, t, n - 1));
        }
        if comes_before(s, t) {
            let n = choose|n: int| #[trigger] differs_first_at(s, t, n);
            assert forall|k: int| 0 <= k < n + 1 implies a[k] == b[k] by {
                if k > 0 {
                    assert(s[k - 1] == t[k - 1]);
                }
            }
            assert(differs_first_at(a, b, n + 1));
        }
    }
}

/// A search with a query keeps a label if and only if the fuzzy matcher accepts it for the
/// query in lower case, once and with the score that the matcher gives.
pub proof fn law_search_keeps_what_matches(
    ignore_case: bool,
    labels: Seq<Seq<char>>,
    query: Seq<char>,
)
    requires
        labels.len() <= usize::MAX,
        query.len() > 0,
    ensures
        ({
            let hits = search_result(ignore_case, labels, query);
            let q = lowercase(query);
            &&& forall|i: int|
                0 <= i < hits.len() ==> (#[trigger] hits[i]).idx < labels.len() && fuzzy_score(
                    ignore_case,
                    labels[hits[i].idx as int],
                    q,
                ) == Some(hits[i].score as u16) && hits[i].score <= u16::MAX
            &&& forall|k: int|
                0 <= k < labels.len() && fuzzy_score(ignore_case, #[trigger] labels[k], q) is Some
                    ==> is_hit(hits, k)
            &&& forall|i: int, j: int|
                0 <= i < j < hits.len() ==> (#[trigger] hits[i]).idx != (#[trigger] hits[j]).idx
        }),
{
    let q = lowercase(query);
    let lowered = lowered_labels(labels);
    let scores = label_scores(ignore_case, labels, q);
    let hits = search_result(ignore_case, labels, query);
    law_ranked_keeps_the_accepted(labels, lowered, q, scores);
    lemma_accepted(scores);
    lemma_ranking_exists::<HitKey>(hit_ranks(labels, lowered, q, accepted(scores)));
    assert forall|i: int| 0 <= i < hits.len() implies (#[trigger] hits[i]).idx < labels.len()
        && fuzzy_score(ignore_case, labels[hits[i].idx as int], q) == Some(hits[i].score as u16)
        && hits[i].score <= u16::MAX by {
        let order = ranking::<HitKey>(hit_ranks(labels, lowered, q, accepted(scores)));
        assert(hits[i] == accepted(scores)[order[i] as int]);
        assert(scores[hits[i].idx as int] == Some(hits[i].score as u16));
    }
    assert forall|k: int|
        0 <= k < labels.len() && fuzzy_score(ignore_case, #[trigger] labels[k], q) is Some implies is_hit(
    hits, k) by {
        assert(scores[k] is Some);
        let hit = Hit { idx: k as usize, score: scores[k]->0 as u32 };
        assert(hits.contains(hit));
        let h = choose|h: int| 0 <= h < hits.len() && hits[h] == hit;
        assert(hits[h].idx == k);
    }
}

/// Every search is taken whose query, in lower case and without ASCII capitals, is no longer
/// than 2520 bytes, in labels that are each shorter than four gigabytes.
pub proof fn law_short_queries_are_searchable(labels: Seq<Seq<char>>, query: Seq<char>)
    requires
        is_without_capitals(lowercase(query)),
        lowercase(query).len() <= 2520,
        encode_utf8(lowercase(query)).len() <= 2520,
        forall|i: int| 0 <= i < labels.len() ==> encode_utf8(#[trigger] labels[i]).len() < 0x1_0000_0000,
    ensures
        searchable(labels, query),
{
}

/// The characters of a text occur in another in their order if and only if each has a place
/// there, behind that of the one before it. `at` tells these places.
pub proof fn law_subsequence(needle: Seq<char>, haystack: Seq<char>, at: Seq<int>)
    requires
        at.len() == needle.len(),
        forall|i: int|
            0 <= i < at.len() ==> 0 <= #[trigger] at[i] < haystack.len() && haystack[at[i]]
                == needle[i],
        forall|i: int, j: int| 0 <= i < j < at.len() ==> #[trigger] at[i] < #[trigger] at[j],
    ensures
        is_subsequence(needle, haystack),
    decreases haystack.len(),
{
    if needle.len() > 0 {
        assert(0 <= at[0] < haystack.len());
        let tail = haystack.skip(1);
        if needle[0] == haystack[0] {
            let rest = Seq::new((at.len() - 1) as nat, |i: int| at[i + 1] - 1);
            let wanted = needle.skip(1);
            assert forall|i: int| 0 <= i < rest.len() implies 0 <= #[trigger] rest[i] < tail.len()
                && tail[rest[i]] == wanted[i] by {
                assert(at[0] < at[i + 1]);
                assert(haystack[at[i + 1]] == needle[i + 1]);
            }
            assert forall|i: int, j: int| 0 <= i < j < rest.len() implies #[trigger] rest[i]
                < #[trigger] rest[j] by {
                assert(at[i + 1] < at[j + 1]);
            }
            law_subsequence(wanted, tail, rest);
        } else {
            let moved = Seq::new(at.len(), |i: int| at[i] - 1);
            assert forall|i: int| 0 <= i < moved.len() implies 0 <= #[trigger] moved[i] < tail.len()
                && tail[moved[i]] == needle[i] by {
                assert(haystack[at[0]] == needle[0]);
                if i > 0 {
                    assert(at[0] < at[i]);
                }
                assert(haystack[at[i]] == needle[i]);
            }
            assert forall|i: int, j: int| 0 <= i < j < moved.len() implies #[trigger] moved[i]
                < #[trigger] moved[j] by {
                assert(at[i] < at[j]);
            }
            law_subsequence(needle, tail, moved);
        }
    }
}

} // verus!
