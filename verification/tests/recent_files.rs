use nixly_launcher::filepath::FilePath;
use nixly_launcher::recents::{
    collect, days_from_civil, decode_file_url, extract_attr, parse_iso8601, parse_xbel,
    recent_dirs, sort_newest_first, walk_dir, xbel_path, Bookmark, DirItem, Recent,
};

fn path(s: &str) -> FilePath {
    FilePath::new(s)
}

fn recent(p: &str, mtime: u64) -> Recent {
    Recent { path: path(p), mtime }
}

fn pairs(list: &[Recent]) -> Vec<(String, u64)> {
    list.iter()
        .map(|r| (String::from_utf8(r.path.bytes.clone()).unwrap(), r.mtime))
        .collect()
}

fn pair(p: &str, mtime: u64) -> (String, u64) {
    (p.to_string(), mtime)
}

fn attr(tag: &str, name: &str) -> Option<String> {
    let chars: Vec<char> = tag.chars().collect();
    extract_attr(&chars, name)
}

fn decoded(url: &str) -> Option<String> {
    decode_file_url(url).map(|p| String::from_utf8(p.bytes).unwrap())
}

#[test]
fn day_numbers_of_known_dates() {
    assert_eq!(days_from_civil(1970, 1, 1), 0);
    assert_eq!(days_from_civil(1969, 12, 31), -1);
    assert_eq!(days_from_civil(2000, 2, 29), 11016);
    assert_eq!(days_from_civil(2000, 3, 1), 11017);
    assert_eq!(days_from_civil(2024, 5, 3), 19846);
    assert_eq!(days_from_civil(0, 3, 1), -719468);
    assert_eq!(days_from_civil(-1, 3, 1), -719468 - 366);
}

#[test]
fn day_numbers_count_every_day() {
    let mut day = days_from_civil(1895, 12, 31);
    for y in 1896..2105 {
        let leap = y % 4 == 0 && (y % 100 != 0 || y % 400 == 0);
        let months = [31, if leap { 29 } else { 28 }, 31, 30, 31, 30, 31, 31, 30, 31, 30, 31];
        for (m, len) in months.into_iter().enumerate() {
            for d in 1..=len {
                day += 1;
                assert_eq!(days_from_civil(y, m as i64 + 1, d), day, "{y}-{m}-{d}");
            }
        }
    }
}

#[test]
fn times_are_read() {
    assert_eq!(parse_iso8601("1970-01-01T00:00:00Z"), Some(0));
    assert_eq!(parse_iso8601("2024-05-03T12:34:56Z"), Some(19846 * 86400 + 45296));
    assert_eq!(parse_iso8601("2024-05-03T12:34:56.789012Z"), Some(1714739696));
    assert_eq!(parse_iso8601("2024-05-03T12:34:56"), Some(1714739696));
    assert_eq!(parse_iso8601("2024-05-03T12:34:56ZZ"), Some(1714739696));
    assert_eq!(parse_iso8601("2024-05-03T12:34:56.5+02:00"), Some(1714739696));
    assert_eq!(parse_iso8601("1960-01-01T00:00:00Z"), Some(0));
}

#[test]
fn other_texts_are_no_times() {
    for s in ["", "2024-05-03", "2024-05T1:2:3", "2024-05-03T12:34", "x-05-03T1:2:3", "2024-05-03T12:34:5x"] {
        assert_eq!(parse_iso8601(s), None, "{s:?}");
    }
}

#[test]
fn offsets_are_ignored() {
    for offset in ["+02:00", "-0330", "+02", "+02:00Z", ".5-11:00"] {
        let s = format!("2024-05-03T12:34:56{offset}");
        assert_eq!(parse_iso8601(&s), Some(1714739696), "{s}");
    }
    assert_eq!(parse_iso8601("2024-05-03T12:34:+56"), Some(1714739696));
    assert_eq!(parse_iso8601("2024-05-03T12:34+02:00"), None);
}

#[test]
fn later_times_have_no_smaller_number() {
    let times = [
        "0001-01-01T00:00:00Z",
        "1969-12-31T23:59:59.9Z",
        "1970-01-01T00:00:00Z",
        "1999-12-31T23:59:59Z",
        "2000-02-29T00:00:00Z",
        "2000-03-01T00:00:00.25Z",
        "2023-12-31T23:59:60Z",
        "2024-01-01T00:00:00Z",
        "2024-01-01T00:00:01Z",
        "9999-12-31T23:59:59Z",
    ];
    let numbers: Vec<u64> = times.iter().map(|t| parse_iso8601(t).unwrap()).collect();
    assert!(numbers.windows(2).all(|w| w[0] <= w[1]));
    assert_eq!(numbers[..3], [0, 0, 0]);
    assert_eq!(numbers[9], 253402300799);
}

#[test]
fn times_out_of_range_wrap_around() {
    let y = i64::MAX / 300;
    let days = days_from_civil(y, 1, 1);
    let expected = days.wrapping_mul(86400).max(0) as u64;
    assert_eq!(parse_iso8601(&format!("{y}-1-1T0:0:0")), Some(expected));
    let _ = days_from_civil(i64::MIN, i64::MIN, i64::MIN);
    let _ = days_from_civil(i64::MAX, i64::MAX, i64::MAX);
}

#[test]
fn attributes_are_found_in_a_tag() {
    let tag = "<bookmark href=\"file:///a\" added=\"x\" modified=\"\"";
    assert_eq!(attr(tag, "href"), Some("file:///a".to_string()));
    assert_eq!(attr(tag, "modified"), Some(String::new()));
    assert_eq!(attr(tag, "visited"), None);
    assert_eq!(attr("x=\"unclosed", "x"), None);
}

#[test]
fn addresses_are_decoded() {
    assert_eq!(decoded("file:///home/u/a.txt"), Some("/home/u/a.txt".to_string()));
    assert_eq!(decoded("file:///a%20b%2Fc"), Some("/a b/c".to_string()));
    assert_eq!(decoded("file:///a%2f"), Some("/a/".to_string()));
    assert_eq!(decoded("file:///a%4"), Some("/a%4".to_string()));
    assert_eq!(decoded("file:///%+a"), Some("/\n".to_string()));
    assert_eq!(decoded("file:///%zz"), None);
    assert_eq!(decoded("file:///%-1"), None);
    assert_eq!(decoded("http://a"), None);
    assert_eq!(decoded("file://"), Some(String::new()));
    assert_eq!(decoded("file:///%C3%A6"), Some("/\u{c3}\u{a6}".to_string()));
    assert_eq!(decoded("file:///æ"), Some("/\u{c3}\u{a6}".to_string()));
}

#[test]
fn bookmarks_are_read() {
    let text = "<xbel><bookmark href=\"file:///a\" modified=\"1970-01-01T00:00:09Z\">\
                <bookmark href=\"file:///b\" added=\"1970-01-01T00:00:08Z\"/>\
                <bookmark href=\"file:///c\">\
                <bookmark href=\"http://d\" modified=\"1970-01-01T00:00:07Z\">\
                <bookmark href=\"file:///e\" modified=\"never\">\
                <bookmark href=\"file:///f\"";
    assert_eq!(pairs(&parse_xbel(text)), vec![pair("/a", 9), pair("/b", 8), pair("/e", 0)]);
    assert!(parse_xbel("").is_empty());
}

#[test]
fn recent_places() {
    let text = |p: FilePath| String::from_utf8(p.bytes).unwrap();
    assert!(xbel_path(None).is_none());
    assert_eq!(
        xbel_path(Some(path("/home/u"))).map(text),
        Some("/home/u/.local/share/recently-used.xbel".to_string())
    );
    assert!(recent_dirs(None).is_empty());
    let dirs: Vec<String> = recent_dirs(Some(path("/h"))).into_iter().map(text).collect();
    assert_eq!(dirs, vec!["/h/Downloads", "/h/Documents", "/h/Desktop"]);
}

#[test]
fn only_regular_files_are_walked() {
    let item = |p: &str, is_file: bool, modified: Option<u64>| DirItem {
        path: path(p),
        is_file,
        modified,
    };
    let items = vec![item("/a", true, Some(3)), item("/d", false, Some(4)), item("/b", true, None)];
    assert_eq!(pairs(&walk_dir(items)), vec![pair("/a", 3), pair("/b", 0)]);
}

#[test]
fn collected_files_are_distinct_newest_first_and_limited() {
    let bookmark = |p: &str, mtime: u64, exists: bool| Bookmark { recent: recent(p, mtime), exists };
    let marks = || {
        vec![bookmark("/a", 5, true), bookmark("/gone", 99, false), bookmark("/b", 7, true)]
    };
    let walked = || vec![recent("/a", 9), recent("/c", 7), recent("/b/.", 1), recent("/d", 0)];
    assert_eq!(
        pairs(&collect(30, marks(), walked())),
        vec![pair("/a", 9), pair("/b", 7), pair("/c", 7), pair("/d", 0)]
    );
    assert_eq!(pairs(&collect(2, marks(), walked())), vec![pair("/a", 9), pair("/b", 7)]);
    assert!(collect(0, marks(), walked()).is_empty());
}

#[test]
fn collecting_agrees_with_sorting_and_dropping_doubles() {
    let mut seed = 12345u64;
    for _ in 0..20 {
        let mut walked = Vec::new();
        for _ in 0..40 {
            seed = seed.wrapping_mul(6364136223846793005).wrapping_add(1442695040888963407);
            let p = format!("/p{}", (seed >> 33) % 15);
            walked.push(recent(&p, (seed >> 40) % 10));
        }
        let mut all = pairs(&walked);
        all.sort_by(|a, b| a.0.cmp(&b.0).then(b.1.cmp(&a.1)));
        all.dedup_by(|a, b| a.0 == b.0);
        all.sort_by(|a, b| b.1.cmp(&a.1));
        all.truncate(12);
        assert_eq!(pairs(&collect(12, Vec::new(), walked)), all);
    }
}

#[test]
fn sorting_by_time_is_stable() {
    let list = vec![recent("/a", 1), recent("/b", 2), recent("/c", 1), recent("/d", 2)];
    let sorted = sort_newest_first(list);
    assert_eq!(pairs(&sorted), vec![pair("/b", 2), pair("/d", 2), pair("/a", 1), pair("/c", 1)]);
}
