use nixly_launcher::matcher::{rank_hits, Hit, Index, MAX_NEEDLE_UNITS};

fn strings(list: &[&str]) -> Vec<String> {
    list.iter().map(|s| s.to_string()).collect()
}

fn order(list: &[&str], query: &str) -> Vec<usize> {
    Index::new()
        .try_search(&strings(list), query)
        .unwrap()
        .iter()
        .map(|h| h.idx)
        .collect()
}

#[test]
fn empty_query_keeps_the_list() {
    let hits = Index::new().search(&strings(&["b", "a", "c"]), "");
    assert_eq!(
        hits,
        vec![Hit { idx: 0, score: 0 }, Hit { idx: 1, score: 0 }, Hit { idx: 2, score: 0 }]
    );
}

#[test]
fn literal_matches_win() {
    let list = ["xfire fox", "firefox nightly", "Firefox", "fir e fox", "none"];
    let found = order(&list, "FireFox");
    assert_eq!(found[0], 2);
    assert_eq!(found[1], 1);
    assert!(!found.contains(&4));
    assert_eq!(found.len(), 4);
}

#[test]
fn ascii_labels_match_as_subsequences() {
    fn occurs(query: &str, label: &str) -> bool {
        let mut rest = label.chars();
        query.chars().all(|q| rest.any(|c| c.eq_ignore_ascii_case(&q)))
    }
    let labels = [
        "", "a", "A", "b", "ab", "BA", "a b", "abc", "cab", "aabb", "a/b:c", "Alpha Beta", "x1y2",
        "_-_", "aaaaaaaaaaaaaaaaaaaaaaaaaaaaaaaaab",
    ];
    for query in ["a", "B", "ab", "ba", "abc", "aab", "1", "12", "-", "a b", "zz", "lb"] {
        let found = order(&labels, query);
        for (i, label) in labels.iter().enumerate() {
            assert_eq!(found.contains(&i), occurs(query, label), "{query:?} in {label:?}");
        }
    }
}

#[test]
fn large_inputs_are_searched() {
    let long = "ab ".repeat(40_000);
    let list = vec![long, "b".to_string()];
    let hits = Index::new().try_search(&list, "bbb").unwrap();
    assert_eq!(hits.len(), 1);
    assert_eq!(hits[0].idx, 0);
}

#[test]
fn queries_beyond_the_limit_are_refused() {
    let mut index = Index::new();
    let long = "x".repeat(MAX_NEEDLE_UNITS + 1);
    assert!(index.try_search(&strings(&["a", &long]), &long).is_none());
    assert!(index.try_search(&strings(&["é"]), &"é".repeat(MAX_NEEDLE_UNITS + 1)).is_none());
    assert!(index.try_search(&strings(&["é"]), &"aé".repeat(MAX_NEEDLE_UNITS)).is_none());
    let label = "a".repeat(MAX_NEEDLE_UNITS + 9);
    let hits = index.try_search(&vec![label], &"a".repeat(MAX_NEEDLE_UNITS)).unwrap();
    assert_eq!(hits.len(), 1);
    let label = "ж".repeat(MAX_NEEDLE_UNITS + 9);
    let hits = index.try_search(&vec![label], &"Ж".repeat(MAX_NEEDLE_UNITS)).unwrap();
    assert_eq!(hits.len(), 1);
}

#[test]
fn long_queries_that_cannot_match_find_nothing() {
    let mut index = Index::new();
    let long = "x".repeat(3 * MAX_NEEDLE_UNITS);
    let list = strings(&[&long, "x", "", &"Xy ".repeat(2 * MAX_NEEDLE_UNITS)]);
    for query in [
        format!("{}y", "x".repeat(3 * MAX_NEEDLE_UNITS)),
        format!("y{}", "x".repeat(2 * MAX_NEEDLE_UNITS)),
        "é".repeat(2 * MAX_NEEDLE_UNITS),
        format!("x{}", "é".repeat(MAX_NEEDLE_UNITS)),
        "e\u{301}".repeat(MAX_NEEDLE_UNITS),
    ] {
        assert!(index.try_search(&list, &query).unwrap().is_empty());
    }
    let list = strings(&["éa", &"ж".repeat(MAX_NEEDLE_UNITS)]);
    assert!(index.try_search(&list, &"a".repeat(MAX_NEEDLE_UNITS + 1)).unwrap().is_empty());
    assert!(index.try_search(&strings(&["a", "b"]), "é").unwrap().is_empty());
}

#[test]
fn queries_longer_than_every_label_find_nothing() {
    let list = strings(&["a", "x", "é", ""]);
    let mut index = Index::new();
    for n in [9, MAX_NEEDLE_UNITS + 1, 70_000] {
        assert!(index.try_search(&list, &"x".repeat(n)).unwrap().is_empty());
        assert!(index.try_search(&list, &"X".repeat(n)).unwrap().is_empty());
    }
}

#[test]
fn ranking_goes_by_tier_score_length_and_alphabet() {
    let items = strings(&["bb", "ab", "Ab", "abx", "q", "aabb", "AB"]);
    let lowered = strings(&["bb", "ab", "ab", "abx", "q", "aabb", "ab"]);
    let scores = vec![Some(9), Some(5), Some(7), Some(99), None, Some(9), Some(5)];
    let hits: Vec<usize> = rank_hits(&items, &lowered, "ab", &scores).iter().map(|h| h.idx).collect();
    assert_eq!(hits, vec![2, 1, 6, 3, 0, 5]);
    let same = vec![Some(1); 7];
    let hits: Vec<usize> = rank_hits(&items, &lowered, "zz", &same).iter().map(|h| h.idx).collect();
    assert_eq!(hits, vec![4, 1, 2, 6, 0, 3, 5]);
}

#[test]
fn ranking_keeps_scores() {
    let items = strings(&["a", "b"]);
    let hits = rank_hits(&items, &items, "x", &vec![Some(3), Some(8)]);
    assert_eq!(hits, vec![Hit { idx: 1, score: 8 }, Hit { idx: 0, score: 3 }]);
}

#[test]
fn capitals_in_the_query_do_not_matter() {
    let list = ["Zathura", "GIMP", "gimp help"];
    assert_eq!(order(&list, "GIMP"), order(&list, "gimp"));
    assert_eq!(order(&list, "GIMP"), vec![1, 2]);
}

#[test]
fn a_search_does_not_change_the_next() {
    let list = strings(&["alpha", "beta", "gamma"]);
    let mut index = Index::new();
    let first = index.try_search(&list, "a").unwrap();
    let _ = index.try_search(&list, "gam");
    assert_eq!(index.try_search(&list, "a").unwrap(), first);
}
