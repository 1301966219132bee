//! When a change in the application directories leads to a new index.

use vstd::prelude::*;

use crate::dedup::{
    is_kept_before, keep_first, keep_firsts, law_first_indices, law_keep_first, views,
};
use crate::desktop::ComponentsKey;
use crate::filepath::{components, same_path, FilePath};

verus! {

/// What the watcher tells the launcher.
#[derive(Clone, Copy, Debug, PartialEq, Eq, Structural)]
pub enum WatchEvent {
    Reindex,
}

/// How long changes must have stopped before they count, in nanoseconds.
pub const DEBOUNCE: u64 = 250_000_000;

/// The least time between two indexes, in nanoseconds. Waiting for the changes to stop does
/// not bound their rate: changes a little further apart would each lead to an index.
pub const MIN_INTERVAL: u64 = 5_000_000_000;

/// The components of the real paths of directories.
pub open spec fn dir_keys(canonical: Seq<Seq<u8>>) -> Seq<Seq<Seq<u8>>> {
    Seq::new(canonical.len(), |i: int| components(canonical[i]))
}

/// The directories to watch: each once, also where several paths lead to it. `canonical`
/// holds, for each path, the path with all symbolic links followed.
pub fn watch_list(paths: Vec<FilePath>, canonical: &Vec<FilePath>) -> (r: Vec<FilePath>)
    requires
        paths@.len() == canonical@.len(),
    ensures
        views(r@) == keep_first(views(paths@), dir_keys(views(canonical@))),
{
    let mut keys: Vec<ComponentsKey> = Vec::new();
    let mut i: usize = 0;
    while i < canonical.len()
        invariant
            i <= canonical@.len(),
            keys@.len() == i,
            forall|k: int| 0 <= k < i ==> (#[trigger] keys@[k])@ == components(canonical@[k]@),
        decreases canonical.len() - i,
    {
        keys.push(ComponentsKey::new(&canonical[i]));
        i += 1;
    }
    assert(views(keys@) =~= dir_keys(views(canonical@)));
    let ghost all = views(paths@);
    let r = keep_firsts(paths, &keys);
    proof {
        law_first_indices(views(keys@));
        assert(views(r@) =~= keep_first(all, views(keys@)));
    }
    r
}

/// What the watcher waits for.
#[derive(Clone, Copy, Debug, PartialEq, Eq, Structural)]
pub enum Phase {
    /// A first change.
    Idle,
    /// The end of a series of changes.
    Settling,
    /// The time before which no new index may begin.
    Resting { until: u64 },
}

/// What happened.
#[derive(Clone, Copy, Debug, PartialEq, Eq, Structural)]
pub enum Happened {
    /// A change arrived.
    Changed,
    /// No change arrived for as long as was asked.
    Quiet,
    /// The rest is over, and the changes that arrived in the meantime are dropped.
    Rested,
    /// No change will arrive any more.
    Disconnected,
}

/// What to do next.
#[derive(Clone, Copy, Debug, PartialEq, Eq, Structural)]
pub enum Next {
    /// Wait for a change.
    Wait,
    /// Wait for a change, for at most this many nanoseconds.
    WaitAtMost(u64),
    /// Sleep for this many nanoseconds, then drop the changes that have arrived.
    Rest(u64),
    /// Report the changes, then wait for a change.
    Report,
    /// Stop.
    Stop,
}

/// The watcher: what it waits for, and when it last reported.
#[derive(Clone, Copy, Debug, PartialEq, Eq, Structural)]
pub struct Debouncer {
    pub phase: Phase,
    pub last_sent: Option<u64>,
}

/// The time since another.
pub open spec fn since(then: u64, now: u64) -> int {
    if now >= then {
        now - then
    } else {
        0
    }
}

/// The watcher after a report.
pub open spec fn reported(now: u64) -> (Debouncer, Next) {
    (Debouncer { phase: Phase::Idle, last_sent: Some(now) }, Next::Report)
}

/// What the watcher does at the time `now`, in nanoseconds, when something happens.
pub open spec fn stepped(d: Debouncer, happened: Happened, now: u64) -> (Debouncer, Next) {
    match happened {
        Happened::Disconnected => (d, Next::Stop),
        Happened::Changed => match d.phase {
            Phase::Resting { until } => (d, Next::Rest(since(now, until) as u64)),
            _ => (Debouncer { phase: Phase::Settling, ..d }, Next::WaitAtMost(DEBOUNCE)),
        },
        Happened::Quiet => match d.phase {
            Phase::Idle => (d, Next::Wait),
            Phase::Resting { until } => (d, Next::Rest(since(now, until) as u64)),
            Phase::Settling => match d.last_sent {
                Some(then) => if since(then, now) < MIN_INTERVAL {
                    (
                        Debouncer {
                            phase: Phase::Resting { until: then.saturating_add(MIN_INTERVAL) },
                            ..d
                        },
                        Next::Rest((MIN_INTERVAL - since(then, now)) as u64),
                    )
                } else {
                    reported(now)
                },
                None => reported(now),
            },
        },
        Happened::Rested => match d.phase {
            Phase::Resting { until } => reported(now),
            _ => (d, Next::Wait),
        },
    }
}

impl Debouncer {
    pub fn new() -> (r: Self)
        ensures
            r == (Debouncer { phase: Phase::Idle, last_sent: None }),
    {
        Debouncer { phase: Phase::Idle, last_sent: None }
    }

    /// What to do at the time `now`, in nanoseconds, when something happens.
    pub fn step(&mut self, happened: Happened, now: u64) -> (r: Next)
        ensures
            (*final(self), r) == stepped(*old(self), happened, now),
    {
        match happened {
            Happened::Disconnected => Next::Stop,
            Happened::Changed => match self.phase {
                Phase::Resting { until } => Next::Rest(until.saturating_sub(now)),
                _ => {
                    self.phase = Phase::Settling;
                    Next::WaitAtMost(DEBOUNCE)
                },
            },
            Happened::Quiet => match self.phase {
                Phase::Idle => Next::Wait,
                Phase::Resting { until } => Next::Rest(until.saturating_sub(now)),
                Phase::Settling => {
                    if let Some(then) = self.last_sent {
                        let since: u64 = now.saturating_sub(then);
                        if since < MIN_INTERVAL {
                            self.phase = Phase::Resting {
                                until: then.saturating_add(MIN_INTERVAL),
                            };
                            return Next::Rest(MIN_INTERVAL - since);
                        }
                    }
                    self.report(now)
                },
            },
            Happened::Rested => match self.phase {
                Phase::Resting { until: _ } => self.report(now),
                _ => Next::Wait,
            },
        }
    }

    fn report(&mut self, now: u64) -> (r: Next)
        ensures
            (*final(self), r) == reported(now),
    {
        self.phase = Phase::Idle;
        self.last_sent = Some(now);
        Next::Report
    }
}

/// What holds of a watcher at every time: it rests until the least time after its last
/// report is over.
pub open spec fn is_sound(d: Debouncer) -> bool {
    d.phase matches Phase::Resting { until } ==> d.last_sent matches Some(then) && until
        == then.saturating_add(MIN_INTERVAL)
}

/// Every step keeps the watcher sound, and the time of the last report changes with a
/// report alone.
pub proof fn law_steps_keep_sound(d: Debouncer, happened: Happened, now: u64)
    requires
        is_sound(d),
    ensures
        is_sound(stepped(d, happened, now).0),
        stepped(d, happened, now).1 == Next::Report ==> stepped(d, happened, now).0.last_sent
            == Some(now),
        stepped(d, happened, now).1 != Next::Report ==> stepped(d, happened, now).0.last_sent
            == d.last_sent,
{
}

/// Two reports are at least [`MIN_INTERVAL`] apart, given that a rest lasts as long as was
/// asked. `then` is the time of the report before.
pub proof fn law_reports_keep_their_distance(d: Debouncer, happened: Happened, then: u64, now: u64)
    requires
        is_sound(d),
        d.last_sent == Some(then),
        then + MIN_INTERVAL <= u64::MAX,
        happened == Happened::Rested ==> (d.phase matches Phase::Resting { until } ==> now
            >= until),
        stepped(d, happened, now).1 == Next::Report,
    ensures
        now >= then + MIN_INTERVAL,
{
}

/// A rest that begins ends no earlier than the least time after the last report.
pub proof fn law_rest_is_long_enough(d: Debouncer, then: u64, now: u64, rest: u64)
    requires
        is_sound(d),
        d.last_sent == Some(then),
        then <= now,
        stepped(d, Happened::Quiet, now).1 == Next::Rest(rest),
    ensures
        now + rest >= then + MIN_INTERVAL || then + MIN_INTERVAL > u64::MAX,
{
}

/// Every step asks for what the watcher then waits for: for a change while it is idle, for
/// the end of a series while it settles, and for the end of its rest while it rests.
pub proof fn law_steps_ask_for_what_follows(d: Debouncer, happened: Happened, now: u64)
    requires
        is_sound(d),
        d.last_sent matches Some(then) ==> then <= now && then + MIN_INTERVAL <= u64::MAX,
        !(happened is Disconnected),
    ensures
        ({
            let (after, next) = stepped(d, happened, now);
            match after.phase {
                Phase::Idle => next is Wait || next is Report,
                Phase::Settling => next == Next::WaitAtMost(DEBOUNCE) || happened is Rested,
                Phase::Resting { until } => next == Next::Rest(since(now, until) as u64)
                    || happened is Rested,
            }
        }),
{
}

/// The changes that arrive after a time.
pub open spec fn after(changes: Seq<u64>, time: u64) -> Seq<u64>
    decreases changes.len(),
{
    if changes.len() > 0 && changes[0] <= time {
        after(changes.skip(1), time)
    } else {
        changes
    }
}

/// The later of two times.
pub open spec fn later(a: u64, b: u64) -> u64 {
    if a < b {
        b
    } else {
        a
    }
}

/// What happens next to a watcher at the time `now`, when, and which changes are still to
/// come, given the times of the changes to come. A change that arrives while it rests is
/// dropped.
pub open spec fn follows(d: Debouncer, now: u64, changes: Seq<u64>) -> (Happened, u64, Seq<u64>) {
    match d.phase {
        Phase::Idle => if changes.len() > 0 {
            (Happened::Changed, later(now, changes[0]), changes.skip(1))
        } else {
            (Happened::Disconnected, now, changes)
        },
        Phase::Settling => if changes.len() > 0 && changes[0] < now.saturating_add(DEBOUNCE) {
            (Happened::Changed, later(now, changes[0]), changes.skip(1))
        } else {
            (Happened::Quiet, now.saturating_add(DEBOUNCE), changes)
        },
        Phase::Resting { until } => (
            Happened::Rested,
            later(now, until),
            after(changes, later(now, until)),
        ),
    }
}

/// How many steps without a change lead from a phase to a report.
pub open spec fn steps_left(phase: Phase) -> int {
    match phase {
        Phase::Idle => 0,
        Phase::Settling => 2,
        Phase::Resting { until } => 1,
    }
}

pub proof fn lemma_after(changes: Seq<u64>, time: u64)
    ensures
        after(changes, time).len() <= changes.len(),
        exists|n: int|
            0 <= n <= changes.len() && after(changes, time) == #[trigger] changes.skip(n),
        after(changes, time).len() > 0 ==> after(changes, time)[0] > time,
    decreases changes.len(),
{
    if changes.len() > 0 && changes[0] <= time {
        let rest = changes.skip(1);
        lemma_after(rest, time);
        let n = choose|n: int| 0 <= n <= rest.len() && after(rest, time) == #[trigger] rest.skip(n);
        assert(rest.skip(n) =~= changes.skip(n + 1));
    } else {
        assert(changes.skip(0) =~= changes);
    }
}

/// The times of the reports of a watcher that is at the time `now`, given the times of the
/// changes to come.
pub open spec fn reports(d: Debouncer, now: u64, changes: Seq<u64>) -> Seq<u64>
    decreases changes.len(), steps_left(d.phase),
{
    proof {
        if let Phase::Resting { until } = d.phase {
            lemma_after(changes, later(now, until));
        }
    }
    let (happened, time, rest) = follows(d, now, changes);
    let (next, answer) = stepped(d, happened, time);
    match answer {
        Next::Stop => Seq::empty(),
        Next::Report => seq![time] + reports(next, time, rest),
        _ => reports(next, time, rest),
    }
}

/// Whether changes come in order, and none before a time or after the greatest time from
/// which a rest still ends.
pub open spec fn are_changes(changes: Seq<u64>, now: u64) -> bool {
    &&& forall|i: int, j: int|
        0 <= i <= j < changes.len() ==> #[trigger] changes[i] <= #[trigger] changes[j]
    &&& forall|i: int|
        0 <= i < changes.len() ==> now <= #[trigger] changes[i] && changes[i] + DEBOUNCE
            + MIN_INTERVAL <= u64::MAX
}

/// Whether a watcher can be as it is at the time `now`: it has not reported later, and it
/// settles or rests at a time from which the rest still ends.
pub open spec fn is_current(d: Debouncer, now: u64) -> bool {
    &&& is_sound(d)
    &&& d.last_sent matches Some(then) ==> then <= now
    &&& match d.phase {
        Phase::Idle => true,
        Phase::Settling => now + DEBOUNCE + MIN_INTERVAL <= u64::MAX,
        Phase::Resting { until } => until <= u64::MAX - DEBOUNCE && d.last_sent->0 + MIN_INTERVAL
            == until && now <= until,
    }
}

proof fn lemma_changes_skip(changes: Seq<u64>, now: u64, n: int, time: u64)
    requires
        are_changes(changes, now),
        0 <= n <= changes.len(),
        n < changes.len() ==> time <= changes[n],
    ensures
        are_changes(changes.skip(n), time),
{
    let rest = changes.skip(n);
    assert forall|i: int| 0 <= i < rest.len() implies time <= #[trigger] rest[i] && rest[i]
        + DEBOUNCE + MIN_INTERVAL <= u64::MAX by {
        assert(rest[i] == changes[n + i]);
        assert(changes[n] <= changes[n + i]);
    }
    assert forall|i: int, j: int| 0 <= i <= j < rest.len() implies #[trigger] rest[i]
        <= #[trigger] rest[j] by {
        assert(changes[n + i] <= changes[n + j]);
    }
}

/// One step leads from a watcher that can be as it is to another.
proof fn lemma_current(d: Debouncer, now: u64, changes: Seq<u64>)
    requires
        is_current(d, now),
        are_changes(changes, now),
        !(follows(d, now, changes).0 is Disconnected),
    ensures
        ({
            let (happened, time, rest) = follows(d, now, changes);
            let (next, answer) = stepped(d, happened, time);
            &&& is_current(next, time)
            &&& are_changes(rest, time)
            &&& now <= time
            &&& !(answer is Stop)
            &&& answer is Report ==> (d.last_sent matches Some(then) ==> time >= then
                + MIN_INTERVAL) && next == (Debouncer { phase: Phase::Idle, last_sent: Some(time) })
            &&& !(answer is Report) ==> next.last_sent == d.last_sent
        }),
{
    let (happened, time, rest) = follows(d, now, changes);
    match d.phase {
        Phase::Idle => {
            assert(changes[0] <= changes[0]);
            if changes.len() > 1 {
                assert(changes[0] <= changes[1]);
            }
            lemma_changes_skip(changes, now, 1, time);
        },
        Phase::Settling => {
            if happened is Changed {
                if changes.len() > 1 {
                    assert(changes[0] <= changes[1]);
                }
                assert(now <= changes[0]);
                lemma_changes_skip(changes, now, 1, time);
            } else {
                assert(changes.skip(0) =~= changes);
                lemma_changes_skip(changes, now, 0, time);
            }
        },
        Phase::Resting { until } => {
            lemma_after(changes, time);
            let n = choose|n: int|
                0 <= n <= changes.len() && after(changes, time) == #[trigger] changes.skip(n);
            if n < changes.len() {
                assert(changes.skip(n)[0] == changes[n]);
            }
            lemma_changes_skip(changes, now, n, time);
        },
    }
}

/// Two reports are never less than [`MIN_INTERVAL`] apart, whatever changes come: neither two
/// of those to come, nor the first of them and the one before.
pub proof fn law_reports_are_apart(d: Debouncer, now: u64, changes: Seq<u64>)
    requires
        is_current(d, now),
        are_changes(changes, now),
    ensures
        ({
            let r = reports(d, now, changes);
            &&& forall|k: int| 0 <= k < r.len() ==> now <= #[trigger] r[k]
            &&& d.last_sent matches Some(then) ==> (r.len() > 0 ==> r[0] >= then + MIN_INTERVAL)
            &&& forall|k: int, l: int|
                0 <= k < l < r.len() ==> #[trigger] r[l] >= #[trigger] r[k] + MIN_INTERVAL
        }),
    decreases changes.len(), steps_left(d.phase),
{
    let (happened, time, rest) = follows(d, now, changes);
    let (next, answer) = stepped(d, happened, time);
    if let Phase::Resting { until } = d.phase {
        lemma_after(changes, later(now, until));
    }
    if !(happened is Disconnected) {
        lemma_current(d, now, changes);
        law_reports_are_apart(next, time, rest);
        let more = reports(next, time, rest);
        if answer is Report {
            let r = seq![time] + more;
            assert forall|k: int, l: int| 0 <= k < l < r.len() implies #[trigger] r[l]
                >= #[trigger] r[k] + MIN_INTERVAL by {
                assert(r[l] == more[l - 1]);
                if k > 0 {
                    assert(r[k] == more[k - 1]);
                } else if l > 1 {
                    assert(more[l - 1] >= more[0] + MIN_INTERVAL);
                }
            }
            assert forall|k: int| 0 <= k < r.len() implies now <= #[trigger] r[k] by {
                if k > 0 {
                    assert(r[k] == more[k - 1]);
                }
            }
        }
    }
}

/// There are never more reports than changes: a report is no earlier than the change of the
/// same number. While the watcher settles or rests, the change before counts too.
pub proof fn law_no_more_reports_than_changes(d: Debouncer, now: u64, changes: Seq<u64>)
    requires
        is_current(d, now),
        are_changes(changes, now),
    ensures
        ({
            let r = reports(d, now, changes);
            let pending = if d.phase is Idle {
                0int
            } else {
                1int
            };
            &&& r.len() <= changes.len() + pending
            &&& forall|k: int| pending <= k < r.len() ==> changes[k - pending] <= #[trigger] r[k]
        }),
    decreases changes.len(), steps_left(d.phase),
{
    let (happened, time, rest) = follows(d, now, changes);
    let (next, answer) = stepped(d, happened, time);
    if let Phase::Resting { until } = d.phase {
        lemma_after(changes, later(now, until));
    }
    if !(happened is Disconnected) {
        lemma_current(d, now, changes);
        law_no_more_reports_than_changes(next, time, rest);
        law_reports_are_apart(next, time, rest);
        let more = reports(next, time, rest);
        let r = reports(d, now, changes);
        match d.phase {
            Phase::Idle => {
                assert(r == more);
                assert forall|k: int| 0 <= k < r.len() implies changes[k] <= #[trigger] r[k] by {
                    if k > 0 {
                        assert(rest[k - 1] == changes[k]);
                    }
                }
            },
            Phase::Settling => {
                if happened is Changed {
                    assert(r == more);
                    assert forall|k: int| 1 <= k < r.len() implies changes[k - 1]
                        <= #[trigger] r[k] by {
                        if k > 1 {
                            assert(rest[k - 2] == changes[k - 1]);
                        }
                        assert(changes[k - 1] <= more[k]);
                    }
                } else if answer is Report {
                    assert(r == seq![time] + more);
                    assert forall|k: int| 1 <= k < r.len() implies changes[k - 1]
                        <= #[trigger] r[k] by {
                        assert(r[k] == more[k - 1]);
                    }
                }
            },
            Phase::Resting { until } => {
                assert(r == seq![time] + more);
                let n = choose|n: int|
                    0 <= n <= changes.len() && after(changes, time) == #[trigger] changes.skip(n);
                assert forall|k: int| 1 <= k < r.len() implies changes[k - 1] <= #[trigger] r[k] by {
                    assert(r[k] == more[k - 1]);
                    assert(rest[k - 1] == changes[n + k - 1]);
                    assert(changes[k - 1] <= changes[n + k - 1]);
                }
            },
        }
    }
}

/// Whether changes come in a burst: each less than [`DEBOUNCE`] after the one before.
pub open spec fn is_burst(changes: Seq<u64>) -> bool {
    &&& changes.len() > 0
    &&& forall|i: int, j: int|
        0 <= i < changes.len() && j == i + 1 && j < changes.len() ==> #[trigger] changes[j]
            < #[trigger] changes[i] + DEBOUNCE
}

proof fn lemma_burst(d: Debouncer, burst: Seq<u64>, rest: Seq<u64>)
    requires
        d.phase is Settling,
        is_burst(burst),
        are_changes(burst + rest, burst[0]),
        rest.len() > 0 ==> burst.last() + DEBOUNCE <= rest[0],
        d.last_sent matches Some(then) ==> then + MIN_INTERVAL <= burst[0],
    ensures
        ({
            let end = (burst.last() + DEBOUNCE) as u64;
            reports(d, burst[0], burst.skip(1) + rest) == seq![end] + reports(
                Debouncer { phase: Phase::Idle, last_sent: Some(end) },
                end,
                rest,
            )
        }),
    decreases burst.len(),
{
    let all = burst + rest;
    let now = burst[0];
    assert(all[0] == now);
    let to_come = burst.skip(1) + rest;
    if burst.len() == 1 {
        assert(to_come =~= rest);
        assert(follows(d, now, rest) == (Happened::Quiet, (now + DEBOUNCE) as u64, rest));
    } else {
        let tail = burst.skip(1);
        assert(all[1] == burst[1]);
        assert(all[0] <= all[1]);
        assert(burst[1] < burst[0] + DEBOUNCE);
        assert(to_come[0] == burst[1]);
        assert(to_come.skip(1) =~= tail.skip(1) + rest);
        assert(follows(d, now, to_come) == (Happened::Changed, burst[1], tail.skip(1) + rest));
        assert(tail[0] == burst[1]);
        assert(tail.last() == burst.last());
        assert(all.skip(1) =~= tail + rest);
        lemma_changes_skip(all, now, 1, burst[1]);
        assert forall|i: int, j: int|
            0 <= i < tail.len() && j == i + 1 && j < tail.len() implies #[trigger] tail[j]
            < #[trigger] tail[i] + DEBOUNCE by {
            assert(burst[j + 1] < burst[i + 1] + DEBOUNCE);
        }
        lemma_burst(d, tail, rest);
        assert(stepped(d, Happened::Changed, burst[1]).0 == d);
    }
}

/// A burst of changes that begins at least [`MIN_INTERVAL`] after the last report is reported
/// once, [`DEBOUNCE`] after its end; then the watcher is idle again. `rest` holds the changes
/// after that.
pub proof fn law_burst_is_reported_once(d: Debouncer, now: u64, burst: Seq<u64>, rest: Seq<u64>)
    requires
        d.phase is Idle,
        is_burst(burst),
        are_changes(burst + rest, now),
        rest.len() > 0 ==> burst.last() + DEBOUNCE <= rest[0],
        d.last_sent matches Some(then) ==> then + MIN_INTERVAL <= burst[0],
    ensures
        ({
            let end = (burst.last() + DEBOUNCE) as u64;
            reports(d, now, burst + rest) == seq![end] + reports(
                Debouncer { phase: Phase::Idle, last_sent: Some(end) },
                end,
                rest,
            )
        }),
        rest.len() == 0 ==> reports(d, now, burst) == seq![(burst.last() + DEBOUNCE) as u64],
{
    let all = burst + rest;
    assert(all[0] == burst[0]);
    assert(all.skip(1) =~= burst.skip(1) + rest);
    assert(follows(d, now, all) == (Happened::Changed, burst[0], burst.skip(1) + rest));
    assert(all.skip(0) =~= all);
    lemma_changes_skip(all, now, 0, burst[0]);
    let settling = Debouncer { phase: Phase::Settling, ..d };
    lemma_burst(settling, burst, rest);
    let end = (burst.last() + DEBOUNCE) as u64;
    if rest.len() == 0 {
        assert(all =~= burst);
        let idle = Debouncer { phase: Phase::Idle, last_sent: Some(end) };
        assert(reports(idle, end, rest) =~= Seq::empty());
        assert(seq![end] + Seq::<u64>::empty() =~= seq![end]);
    }
}

/// The steps of the watcher. A change begins a wait of a quarter of a second, or lets it begin
/// anew. After such a wait without a change the changes are reported, if there was no report in
/// the five seconds before; else the watcher rests until these are over, and reports then. It
/// stops, as it is, when no change will arrive any more.
pub proof fn law_steps(d: Debouncer, now: u64)
    ensures
        ({
            let (after, next) = stepped(d, Happened::Changed, now);
            &&& !(d.phase is Resting) ==> after.phase is Settling && next == Next::WaitAtMost(
                250_000_000,
            )
            &&& d.phase is Resting ==> after.phase == d.phase && next is Rest
            &&& after.last_sent == d.last_sent
        }),
        d.phase is Settling ==> {
            let (after, next) = stepped(d, Happened::Quiet, now);
            let recent = d.last_sent is Some && now - d.last_sent->0 < 5_000_000_000;
            &&& !recent ==> after.phase is Idle && after.last_sent == Some(now) && next is Report
            &&& recent ==> after.phase is Resting && after.last_sent == d.last_sent && next is Rest
            &&& recent && d.last_sent->0 <= now ==> now + next->Rest_0 == d.last_sent->0
                + 5_000_000_000
        },
        d.phase is Idle ==> stepped(d, Happened::Quiet, now) == (d, Next::Wait),
        d.phase is Resting ==> {
            let (after, next) = stepped(d, Happened::Rested, now);
            after.phase is Idle && after.last_sent == Some(now) && next is Report
        },
        !(d.phase is Resting) ==> stepped(d, Happened::Rested, now) == (d, Next::Wait),
        stepped(d, Happened::Disconnected, now) == (d, Next::Stop),
{
}

/// Each directory is watched once, under the first of the paths that lead to it. `at` tells
/// which paths these are.
pub proof fn law_watched(paths: Seq<Seq<u8>>, canonical: Seq<Seq<u8>>) -> (at: Seq<int>)
    requires
        paths.len() == canonical.len(),
    ensures
        at.len() == keep_first(paths, dir_keys(canonical)).len(),
        forall|i: int|
            0 <= i < at.len() ==> 0 <= #[trigger] at[i] < paths.len() && keep_first(
                paths,
                dir_keys(canonical),
            )[i] == paths[at[i]],
        forall|i: int, j: int|
            0 <= i < j < at.len() ==> #[trigger] at[i] < #[trigger] at[j] && !same_path(
                canonical[at[i]],
                canonical[at[j]],
            ),
        forall|p: int| 0 <= p < paths.len() ==> #[trigger] is_watched(canonical, at, p),
{
    let at = law_keep_first(paths, dir_keys(canonical));
    assert forall|p: int| 0 <= p < paths.len() implies #[trigger] is_watched(canonical, at, p) by {
        assert(is_kept_before(dir_keys(canonical), at, p));
        let i = choose|i: int|
            0 <= i < at.len() && #[trigger] at[i] <= p && dir_keys(canonical)[at[i]] == dir_keys(
                canonical,
            )[p];
        assert(same_path(canonical[at[i]], canonical[p]));
    }
    at
}

/// Whether one of the chosen paths, no later than another, leads to the same directory.
pub open spec fn is_watched(canonical: Seq<Seq<u8>>, at: Seq<int>, p: int) -> bool {
    exists|i: int| 0 <= i < at.len() && #[trigger] at[i] <= p && same_path(
        canonical[at[i]],
        canonical[p],
    )
}

} // verus!
