use nixly_launcher::filepath::FilePath;
use nixly_launcher::state::{now_unix, state_path, AppUsage, State, UsageRecord};
use nixly_launcher::watcher::{
    watch_list, Debouncer, Happened, Next, Phase, WatchEvent, DEBOUNCE, MIN_INTERVAL,
};

fn record(key: &str, count: u32, last_used: u64) -> UsageRecord {
    UsageRecord { key: key.to_string(), usage: AppUsage { count, last_used } }
}

fn path(s: &str) -> FilePath {
    FilePath::new(s)
}

#[test]
fn uses_are_remembered() {
    let mut st = State::new();
    assert_eq!(st.get("a"), AppUsage::default());
    st.record_use("a".to_string(), 100);
    st.record_use("b".to_string(), 101);
    st.record_use("a".to_string(), 102);
    assert_eq!(st.get("a"), AppUsage { count: 2, last_used: 102 });
    assert_eq!(st.get("b"), AppUsage { count: 1, last_used: 101 });
    assert_eq!(st.app_usage.len(), 2);
}

#[test]
fn the_count_wraps_around() {
    let mut st = State::from_records(vec![record("a", u32::MAX, 1)]);
    st.record_use("a".to_string(), 2);
    assert_eq!(st.get("a"), AppUsage { count: 0, last_used: 2 });
}

#[test]
fn records_are_read_back() {
    let mut st = State::new();
    for (i, key) in ["x", "y", "x", "z", "y", "x"].iter().enumerate() {
        st.record_use(key.to_string(), i as u64);
    }
    let mut records: Vec<UsageRecord> =
        st.app_usage.iter().map(|r| record(&r.key, r.usage.count, r.usage.last_used)).collect();
    records.reverse();
    let back = State::from_records(records);
    for key in ["x", "y", "z", "w"] {
        assert_eq!(back.get(key), st.get(key));
    }
    assert_eq!(back.app_usage.len(), 3);
}

#[test]
fn the_last_record_for_a_key_counts() {
    let st = State::from_records(vec![record("a", 1, 1), record("b", 2, 2), record("a", 3, 3)]);
    assert_eq!(st.get("a"), AppUsage { count: 3, last_used: 3 });
    assert_eq!(st.app_usage.len(), 2);
}

#[test]
fn state_file_follows_the_environment() {
    let text = |p: FilePath| String::from_utf8(p.bytes).unwrap();
    assert_eq!(
        text(state_path(Some(path("/s")), Some(path("/h")))),
        "/s/nixly_launcher/state.json"
    );
    assert_eq!(
        text(state_path(None, Some(path("/h")))),
        "/h/.local/state/nixly_launcher/state.json"
    );
    assert_eq!(text(state_path(None, None)), "/tmp/nixly_launcher/state.json");
    assert_eq!(now_unix(Some(5)), 5);
    assert_eq!(now_unix(None), 0);
}

#[test]
fn directories_are_watched_once() {
    let paths = vec![path("/a"), path("/b"), path("/c")];
    let real = vec![path("/x"), path("/y"), path("/x/")];
    let watched = watch_list(paths, &real);
    assert_eq!(watched.len(), 2);
    assert_eq!(watched[1].bytes, b"/b".to_vec());
}

#[test]
fn changes_are_reported_when_they_stop() {
    let mut d = Debouncer::new();
    assert_eq!(d.step(Happened::Changed, 0), Next::WaitAtMost(DEBOUNCE));
    assert_eq!(d.step(Happened::Changed, 10), Next::WaitAtMost(DEBOUNCE));
    assert_eq!(d.step(Happened::Quiet, 20), Next::Report);
    assert_eq!(d, Debouncer { phase: Phase::Idle, last_sent: Some(20) });
    assert_eq!(d.step(Happened::Disconnected, 30), Next::Stop);
    assert_eq!(WatchEvent::Reindex, WatchEvent::Reindex);
}

#[test]
fn reports_keep_their_distance() {
    let mut d = Debouncer::new();
    let mut now = 1_000_000_000u64;
    let mut last: Option<u64> = None;
    let mut reports = 0;
    let mut next = d.step(Happened::Changed, now);
    for i in 0..400u64 {
        match next {
            Next::Wait => {
                now += 300_000_000;
                next = d.step(Happened::Changed, now);
            }
            Next::WaitAtMost(t) => {
                now += if i % 3 == 0 { t / 2 } else { t };
                let what = if i % 3 == 0 { Happened::Changed } else { Happened::Quiet };
                next = d.step(what, now);
            }
            Next::Rest(t) => {
                now += t;
                next = d.step(Happened::Rested, now);
            }
            Next::Report => {
                if let Some(then) = last {
                    assert!(now - then >= MIN_INTERVAL);
                }
                last = Some(now);
                reports += 1;
                now += 1_000_000;
                next = d.step(Happened::Changed, now);
            }
            Next::Stop => unreachable!(),
        }
    }
    assert!(reports > 10);
}

#[test]
fn a_rest_lasts_until_the_least_time() {
    let mut d = Debouncer { phase: Phase::Settling, last_sent: Some(100) };
    assert_eq!(d.step(Happened::Quiet, 1100), Next::Rest(MIN_INTERVAL - 1000));
    assert_eq!(d.phase, Phase::Resting { until: 100 + MIN_INTERVAL });
    assert_eq!(d.step(Happened::Rested, 100 + MIN_INTERVAL), Next::Report);
    let mut d = Debouncer { phase: Phase::Settling, last_sent: Some(100) };
    assert_eq!(d.step(Happened::Quiet, 100 + MIN_INTERVAL), Next::Report);
}

/// The times of the reports on changes at the given times, where every wait is as long as was
/// asked.
fn reports(changes: &[u64]) -> Vec<u64> {
    let mut d = Debouncer::new();
    let mut left = changes.to_vec();
    let mut now = 0u64;
    let mut next = Next::Wait;
    let mut out = Vec::new();
    loop {
        let happened = match next {
            Next::Wait | Next::Report => {
                if left.is_empty() {
                    Happened::Disconnected
                } else {
                    now = now.max(left.remove(0));
                    Happened::Changed
                }
            }
            Next::WaitAtMost(ns) => {
                if !left.is_empty() && left[0] < now + ns {
                    now = now.max(left.remove(0));
                    Happened::Changed
                } else {
                    now += ns;
                    Happened::Quiet
                }
            }
            Next::Rest(ns) => {
                now += ns;
                left.retain(|t| *t > now);
                Happened::Rested
            }
            Next::Stop => return out,
        };
        next = d.step(happened, now);
        if next == Next::Report {
            out.push(now);
        }
    }
}

#[test]
fn a_burst_is_reported_once() {
    let gap = DEBOUNCE - 1;
    let burst: Vec<u64> = (0..40).map(|i| 7 + i * gap).collect();
    let end = burst[39] + DEBOUNCE;
    assert_eq!(reports(&burst), vec![end]);
    let mut two = burst.clone();
    two.push(end + MIN_INTERVAL);
    assert_eq!(reports(&two), vec![end, end + MIN_INTERVAL + DEBOUNCE]);
}

#[test]
fn a_trickle_is_reported_at_intervals() {
    let changes: Vec<u64> = (0..200).map(|i| i * (DEBOUNCE + 1)).collect();
    let found = reports(&changes);
    assert!(found.len() > 5);
    assert!(found.len() <= changes.len());
    assert!(found.windows(2).all(|w| w[1] - w[0] >= MIN_INTERVAL));
    assert!(found.iter().zip(&changes).all(|(r, c)| c <= r));
}
