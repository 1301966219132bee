//! What the launcher remembers between runs: how often and when each application was used.

use vstd::prelude::*;

use crate::filepath::{bytes_of, joined, opt_path_view, FilePath};
use crate::text::str_eq;

verus! {

/// How often an application was used, and when last: seconds since 1970.
#[derive(Clone, Copy, Debug, PartialEq, Eq, Structural)]
pub struct AppUsage {
    pub count: u32,
    pub last_used: u64,
}

/// Never used.
pub open spec fn unused() -> AppUsage {
    AppUsage { count: 0, last_used: 0 }
}

impl Default for AppUsage {
    fn default() -> (r: Self)
        ensures
            r == unused(),
    {
        AppUsage { count: 0, last_used: 0 }
    }
}

/// The use of the application with a key.
#[derive(Debug)]
pub struct UsageRecord {
    pub key: String,
    pub usage: AppUsage,
}

/// What is remembered: a map from keys to uses, as a list of records.
#[derive(Debug)]
pub struct State {
    pub app_usage: Vec<UsageRecord>,
}

/// The map that a list of records stands for; the last record for a key counts.
pub open spec fn usage_map(records: Seq<UsageRecord>) -> Map<Seq<char>, AppUsage>
    decreases records.len(),
{
    if records.len() == 0 {
        Map::empty()
    } else {
        usage_map(records.drop_last()).insert(records.last().key@, records.last().usage)
    }
}

/// Whether a list holds at most one record for each key.
pub open spec fn keys_differ(records: Seq<UsageRecord>) -> bool {
    forall|i: int, j: int|
        0 <= i < j < records.len() ==> (#[trigger] records[i]).key@ != (
        #[trigger] records[j]).key@
}

impl View for State {
    type V = Map<Seq<char>, AppUsage>;

    open spec fn view(&self) -> Map<Seq<char>, AppUsage> {
        usage_map(self.app_usage@)
    }
}

/// The use of the application with a key, if it has one.
pub open spec fn usage_of(usage: Map<Seq<char>, AppUsage>, key: Option<Seq<char>>) -> AppUsage {
    match key {
        Some(key) => if usage.dom().contains(key) {
            usage[key]
        } else {
            unused()
        },
        None => unused(),
    }
}

/// The use after one more use at the time `now`.
pub open spec fn used_again(usage: AppUsage, now: u64) -> AppUsage {
    AppUsage { count: usage.count.wrapping_add(1), last_used: now }
}

proof fn lemma_no_record(records: Seq<UsageRecord>, key: Seq<char>)
    requires
        forall|i: int| 0 <= i < records.len() ==> (#[trigger] records[i]).key@ != key,
    ensures
        !usage_map(records).dom().contains(key),
    decreases records.len(),
{
    if records.len() > 0 {
        assert forall|i: int| 0 <= i < records.drop_last().len() implies (
        #[trigger] records.drop_last()[i]).key@ != key by {
            assert(records.drop_last()[i] == records[i]);
        }
        lemma_no_record(records.drop_last(), key);
        assert(records[records.len() - 1].key@ != key);
    }
}

proof fn lemma_last_record(records: Seq<UsageRecord>, i: int)
    requires
        0 <= i < records.len(),
        forall|j: int| i < j < records.len() ==> (#[trigger] records[j]).key@ != records[i].key@,
    ensures
        usage_map(records).dom().contains(records[i].key@),
        usage_map(records)[records[i].key@] == records[i].usage,
        forall|r: UsageRecord|
            r.key@ == records[i].key@ ==> #[trigger] usage_map(records.update(i, r)) == usage_map(
                records,
            ).insert(r.key@, r.usage),
    decreases records.len(),
{
    let key = records[i].key@;
    let init = records.drop_last();
    if i == records.len() - 1 {
        assert forall|r: UsageRecord| r.key@ == key implies #[trigger] usage_map(
            records.update(i, r),
        ) == usage_map(records).insert(r.key@, r.usage) by {
            assert(records.update(i, r).drop_last() =~= init);
            assert(usage_map(init).insert(key, r.usage) =~= usage_map(records).insert(
                key,
                r.usage,
            ));
        }
    } else {
        assert forall|j: int| i < j < init.len() implies (#[trigger] init[j]).key@
            != init[i].key@ by {
            assert(init[j] == records[j]);
        }
        lemma_last_record(init, i);
        let last = records.last();
        assert(records[records.len() - 1].key@ != key);
        assert forall|r: UsageRecord| r.key@ == key implies #[trigger] usage_map(
            records.update(i, r),
        ) == usage_map(records).insert(r.key@, r.usage) by {
            assert(records.update(i, r).drop_last() =~= init.update(i, r));
            assert(usage_map(init.update(i, r)) == usage_map(init).insert(key, r.usage));
            assert(usage_map(init).insert(key, r.usage).insert(last.key@, last.usage)
                =~= usage_map(records).insert(key, r.usage));
        }
    }
}

impl State {
    /// Nothing is remembered.
    pub fn new() -> (r: Self)
        ensures
            r@ == Map::<Seq<char>, AppUsage>::empty(),
            keys_differ(r.app_usage@),
    {
        State { app_usage: Vec::new() }
    }

    /// The place of the last record for a key.
    fn position(&self, key: &str) -> (r: Option<usize>)
        ensures
            r is Some <==> self@.dom().contains(key@),
            r matches Some(i) ==> i < self.app_usage@.len() && self.app_usage@[i as int].key@
                == key@ && forall|j: int|
                i < j < self.app_usage@.len() ==> (#[trigger] self.app_usage@[j]).key@ != key@,
    {
        let mut i: usize = self.app_usage.len();
        while i > 0
            invariant
                i <= self.app_usage@.len(),
                forall|j: int|
                    i <= j < self.app_usage@.len() ==> (#[trigger] self.app_usage@[j]).key@ != key@,
            decreases i,
        {
            if str_eq(self.app_usage[i - 1].key.as_str(), key) {
                proof {
                    lemma_last_record(self.app_usage@, i - 1);
                }
                return Some(i - 1);
            }
            i -= 1;
        }
        proof {
            lemma_no_record(self.app_usage@, key@);
        }
        None
    }

    /// The use of the application with a key; never used, where nothing is remembered.
    pub fn get(&self, key: &str) -> (r: AppUsage)
        ensures
            r == usage_of(self@, Some(key@)),
    {
        match self.position(key) {
            Some(i) => {
                proof {
                    lemma_last_record(self.app_usage@, i as int);
                }
                self.app_usage[i].usage
            },
            None => AppUsage { count: 0, last_used: 0 },
        }
    }

    /// Remembers the use of the application with a key.
    pub fn insert(&mut self, key: String, usage: AppUsage)
        ensures
            final(self)@ == old(self)@.insert(key@, usage),
            keys_differ(old(self).app_usage@) ==> keys_differ(final(self).app_usage@),
    {
        match self.position(key.as_str()) {
            Some(i) => {
                proof {
                    lemma_last_record(self.app_usage@, i as int);
                }
                let ghost before = self.app_usage@;
                let record = UsageRecord { key, usage };
                self.app_usage.set(i, record);
                assert(self.app_usage@ == before.update(i as int, record));
            },
            None => {
                let ghost before = self.app_usage@;
                let record = UsageRecord { key, usage };
                proof {
                    assert forall|i: int| 0 <= i < before.len() implies (
                    #[trigger] before[i]).key@ != key@ by {
                        lemma_records_are_keys(before, i);
                    }
                }
                self.app_usage.push(record);
                assert(self.app_usage@.drop_last() =~= before);
            },
        }
    }

    /// Remembers one more use of an application at the time `now`.
    pub fn record_use(&mut self, key: String, now: u64)
        ensures
            final(self)@ == old(self)@.insert(
                key@,
                used_again(usage_of(old(self)@, Some(key@)), now),
            ),
            keys_differ(old(self).app_usage@) ==> keys_differ(final(self).app_usage@),
    {
        let usage = self.get(key.as_str());
        self.insert(key, AppUsage { count: usage.count.wrapping_add(1), last_used: now });
    }

    /// What a list of records says; the last record for a key counts.
    pub fn from_records(records: Vec<UsageRecord>) -> (r: Self)
        ensures
            r@ == usage_map(records@),
            keys_differ(r.app_usage@),
    {
        let ghost source = records@;
        let mut state = State::new();
        assert(source.take(0) =~= Seq::empty());
        for record in iter: records
            invariant
                source == iter.seq(),
                state@ == usage_map(source.take(iter.index() as int)),
                keys_differ(state.app_usage@),
        {
            let ghost i = iter.index() as int;
            assert(source.take(i + 1).drop_last() =~= source.take(i));
            state.insert(record.key, record.usage);
        }
        assert(source.take(source.len() as int) =~= source);
        state
    }
}

proof fn lemma_records_are_keys(records: Seq<UsageRecord>, i: int)
    requires
        0 <= i < records.len(),
    ensures
        usage_map(records).dom().contains(records[i].key@),
    decreases records.len(),
{
    if i < records.len() - 1 {
        lemma_records_are_keys(records.drop_last(), i);
        assert(records.drop_last()[i] == records[i]);
    }
}

/// The order in which the records are written does not matter, as there is at most one for
/// each key.
pub proof fn law_record_order_is_free(a: Seq<UsageRecord>, b: Seq<UsageRecord>)
    requires
        keys_differ(a),
        keys_differ(b),
        forall|r: UsageRecord| #[trigger] a.contains(r) <==> b.contains(r),
    ensures
        usage_map(a) == usage_map(b),
{
    let ma = usage_map(a);
    let mb = usage_map(b);
    assert forall|k: Seq<char>| #[trigger] ma.dom().contains(k) == mb.dom().contains(k) && (
    ma.dom().contains(k) ==> ma[k] == mb[k]) by {
        lemma_lookup(a, k);
        lemma_lookup(b, k);
        if ma.dom().contains(k) {
            let i = choose|i: int| 0 <= i < a.len() && (#[trigger] a[i]).key@ == k && a[i].usage == ma[k];
            assert(a.contains(a[i]));
            assert(b.contains(a[i]));
            let j = choose|j: int| 0 <= j < b.len() && b[j] == a[i];
            lemma_unique_record(b, j);
        } else if mb.dom().contains(k) {
            let j = choose|j: int| 0 <= j < b.len() && (#[trigger] b[j]).key@ == k && b[j].usage == mb[k];
            assert(b.contains(b[j]));
            assert(a.contains(b[j]));
            let i = choose|i: int| 0 <= i < a.len() && a[i] == b[j];
            lemma_unique_record(a, i);
        }
    }
    assert(ma =~= mb);
}

proof fn lemma_unique_record(records: Seq<UsageRecord>, i: int)
    requires
        0 <= i < records.len(),
        keys_differ(records),
    ensures
        usage_map(records).dom().contains(records[i].key@),
        usage_map(records)[records[i].key@] == records[i].usage,
{
    lemma_last_record(records, i);
}

proof fn lemma_lookup(records: Seq<UsageRecord>, key: Seq<char>)
    ensures
        usage_map(records).dom().contains(key) ==> exists|i: int|
            0 <= i < records.len() && (#[trigger] records[i]).key@ == key && records[i].usage
                == usage_map(records)[key],
    decreases records.len(),
{
    if records.len() > 0 && usage_map(records).dom().contains(key) {
        if records.last().key@ == key {
            assert(records[records.len() - 1].usage == usage_map(records)[key]);
        } else {
            lemma_lookup(records.drop_last(), key);
            let init = records.drop_last();
            let i = choose|i: int|
                0 <= i < init.len() && (#[trigger] init[i]).key@ == key && init[i].usage
                    == usage_map(init)[key];
            assert(records[i] == init[i]);
        }
    }
}

/// The current time in seconds since 1970; 0 for a clock set before.
pub fn now_unix(since_epoch: Option<u64>) -> (r: u64)
    ensures
        r == (match since_epoch {
            Some(now) => now,
            None => 0,
        }),
{
    match since_epoch {
        Some(now) => now,
        None => 0,
    }
}

/// The directory for state files, given `XDG_STATE_HOME` and `HOME`.
pub open spec fn state_dir(xdg_state_home: Option<Seq<u8>>, home: Option<Seq<u8>>) -> Seq<u8> {
    match xdg_state_home {
        Some(dir) => dir,
        None => match home {
            Some(home) => joined(home, bytes_of(".local/state"@)),
            None => bytes_of("/tmp"@),
        },
    }
}

/// The file in which the state is kept, given `XDG_STATE_HOME` and `HOME`.
pub fn state_path(xdg_state_home: Option<FilePath>, home: Option<FilePath>) -> (r: FilePath)
    ensures
        r@ == joined(
            joined(
                state_dir(opt_path_view(xdg_state_home), opt_path_view(home)),
                bytes_of("nixly_launcher"@),
            ),
            bytes_of("state.json"@),
        ),
{
    let base = match xdg_state_home {
        Some(dir) => dir,
        None => match home {
            Some(home) => home.join_str(".local/state"),
            None => FilePath::new("/tmp"),
        },
    };
    base.join_str("nixly_launcher").join_str("state.json")
}

/// One more use counts one more, and is the last one.
pub proof fn law_one_more_use(usage: AppUsage, now: u64)
    ensures
        usage.count < u32::MAX ==> used_again(usage, now).count == usage.count + 1,
        usage.count == u32::MAX ==> used_again(usage, now).count == 0,
        used_again(usage, now).last_used == now,
{
}

/// The use of an application is that of the last record for its key; without a record it was
/// never used.
pub proof fn law_last_record_counts(records: Seq<UsageRecord>, key: Seq<char>)
    ensures
        forall|i: int|
            0 <= i < records.len() && (#[trigger] records[i]).key@ == key && no_record_after(
                records,
                key,
                i,
            ) ==> usage_of(usage_map(records), Some(key)) == records[i].usage,
        no_record_after(records, key, -1) ==> usage_of(usage_map(records), Some(key)).count == 0
            && usage_of(usage_map(records), Some(key)).last_used == 0 && !usage_map(
            records,
        ).dom().contains(key),
        usage_of(usage_map(records), None).count == 0,
        usage_of(usage_map(records), None).last_used == 0,
{
    assert forall|i: int|
        0 <= i < records.len() && (#[trigger] records[i]).key@ == key && no_record_after(
            records,
            key,
            i,
        ) implies usage_of(usage_map(records), Some(key)) == records[i].usage by {
        lemma_last_record(records, i);
    }
    if no_record_after(records, key, -1) {
        lemma_no_record(records, key);
    }
}

/// Whether no record behind a place is for a key.
pub open spec fn no_record_after(records: Seq<UsageRecord>, key: Seq<char>, i: int) -> bool {
    forall|j: int| i < j < records.len() ==> (#[trigger] records[j]).key@ != key
}

/// The directory for state files: `XDG_STATE_HOME` where it is set, whatever `HOME` is; else
/// the usual one below `HOME`; else `/tmp`.
pub proof fn law_state_dir(dir: Seq<u8>, home: Option<Seq<u8>>)
    ensures
        state_dir(Some(dir), home) == dir,
        home matches Some(h) ==> state_dir(None, home) == joined(h, bytes_of(".local/state"@)),
        state_dir(None, None) == bytes_of("/tmp"@),
{
}

} // verus!
