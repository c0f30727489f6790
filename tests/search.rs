use suffix_search::pattern::digest_matches;
use suffix_search::search::{RangeGenerator, ScanRange, Search};

fn toy_digest(n: i32) -> String {
    match n {
        7 => String::from("xx00y"),
        12 => String::from("ab000"),
        19 => String::from("cc0x0"),
        _ => String::from("abcde"),
    }
}

fn toy_scan(r: ScanRange) -> Vec<(i32, String)> {
    (r.start..r.end)
        .map(|n| (n, toy_digest(n)))
        .filter(|m| digest_matches(&m.1, "00"))
        .collect()
}

#[test]
fn generator_hands_out_adjacent_ranges() {
    let mut g = RangeGenerator::new(10);
    assert_eq!(g.next(), Some(ScanRange { start: 1, end: 11 }));
    assert_eq!(g.next(), Some(ScanRange { start: 11, end: 21 }));
    assert_eq!(g.next(), Some(ScanRange { start: 21, end: 31 }));
}

#[test]
fn generator_stops_when_no_range_fits() {
    let mut g = RangeGenerator::new(i32::MAX - 1);
    assert_eq!(g.next(), Some(ScanRange { start: 1, end: i32::MAX }));
    assert_eq!(g.next(), None);
    assert_eq!(g.next(), None);
}

#[test]
fn nothing_is_dispatched_when_nothing_is_needed() {
    let (search, first) = Search::start(4, 10, 0);
    assert!(first.is_empty());
    assert!(search.is_done());
    assert!(search.into_matches().is_empty());
}

#[test]
fn start_fills_the_pool() {
    let (search, first) = Search::start(3, 5, 1);
    assert_eq!(
        first,
        vec![
            ScanRange { start: 1, end: 6 },
            ScanRange { start: 6, end: 11 },
            ScanRange { start: 11, end: 16 },
        ]
    );
    assert!(!search.is_done());
    assert_eq!(search.oldest_range(), ScanRange { start: 1, end: 6 });
}

#[test]
fn toy_digest_scenario_keeps_submission_order() {
    let (mut search, first) = Search::start(2, 10, 2);
    assert_eq!(first.len(), 2);
    // the second range finishes first; results are still taken oldest first
    let second = toy_scan(first[1]);
    let firstbatch = toy_scan(first[0]);
    assert_eq!(search.oldest_range(), first[0]);
    let next = search.complete_oldest(firstbatch);
    assert_eq!(next, Some(ScanRange { start: 21, end: 31 }));
    assert!(!search.is_done());
    assert_eq!(search.oldest_range(), first[1]);
    let next = search.complete_oldest(second);
    assert_eq!(next, None);
    assert!(search.is_done());
    assert_eq!(
        search.into_matches(),
        vec![(7, String::from("xx00y")), (12, String::from("ab000"))]
    );
}

#[test]
fn overshooting_batch_is_cut() {
    let (mut search, _first) = Search::start(1, 3, 2);
    let batch = vec![(1, String::from("a")), (2, String::from("b")), (3, String::from("c"))];
    assert_eq!(search.complete_oldest(batch), None);
    assert!(search.is_done());
    assert_eq!(
        search.into_matches(),
        vec![(1, String::from("a")), (2, String::from("b"))]
    );
}

#[test]
fn refill_keeps_one_new_range_per_retired_range() {
    let (mut search, first) = Search::start(2, 4, 5);
    assert_eq!(first.len(), 2);
    let next = search.complete_oldest(Vec::new());
    assert_eq!(next, Some(ScanRange { start: 9, end: 13 }));
    assert_eq!(search.oldest_range(), ScanRange { start: 5, end: 9 });
}
