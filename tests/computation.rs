use suffix_search::computation::Computation;

#[test]
fn it_works() {
    let computation = Computation {
        max_cpu: 3,
        number_range: 100,
        check_mask: String::from("00"),
        found_need: 4,
    };
    let hashes = computation.compute();
    assert!(!hashes.is_empty() && hashes.len() == computation.found_need);
}

#[test]
fn works_with_no_mask() {
    let computation = Computation {
        max_cpu: 3,
        number_range: 100,
        check_mask: String::from(""),
        found_need: 4,
    };
    let hashes = computation.compute();
    assert!(!hashes.is_empty() && hashes.len() == computation.found_need);
}

#[test]
fn works_with_zero_found() {
    let computation = Computation {
        max_cpu: 3,
        number_range: 100,
        check_mask: String::from("00"),
        found_need: 0,
    };
    let hashes = computation.compute();
    assert!(hashes.is_empty());
}

fn window_contains(digest: &str, mask: &str) -> bool {
    let chars: Vec<char> = digest.chars().collect();
    let l = mask.chars().count();
    let from = if chars.len() > l { chars.len() - (l + 1) } else { 0 };
    let window: String = chars[from..].iter().collect();
    window.contains(mask)
}

#[test]
fn empty_mask_takes_the_first_numbers() {
    let computation = Computation {
        max_cpu: 2,
        number_range: 3,
        check_mask: String::from(""),
        found_need: 4,
    };
    let hashes = computation.compute();
    let values: Vec<i32> = hashes.iter().map(|m| m.0).collect();
    assert_eq!(values, vec![1, 2, 3, 4]);
    assert_eq!(
        hashes[0].1,
        "6b86b273ff34fce19d6b804eff5a3f5747ada4eaa22f1d49c01e52ddb7875b4b"
    );
}

#[test]
fn compute_is_ordered_correct_and_complete() {
    let computation = Computation {
        max_cpu: 3,
        number_range: 50,
        check_mask: String::from("0"),
        found_need: 12,
    };
    let hashes = computation.compute();
    assert_eq!(hashes.len(), 12);
    for pair in hashes.windows(2) {
        assert!(pair[0].0 < pair[1].0);
    }
    for (value, digest) in &hashes {
        assert_eq!(*digest, sha256::digest(value.to_string()));
        assert!(window_contains(digest, "0"));
    }
    let last = hashes[hashes.len() - 1].0;
    let expected: Vec<i32> = (1..=last)
        .filter(|n| window_contains(&sha256::digest(n.to_string()), "0"))
        .collect();
    let values: Vec<i32> = hashes.iter().map(|m| m.0).collect();
    assert_eq!(values, expected);
}

#[test]
fn compute_does_not_depend_on_pool_or_width() {
    let make = |max_cpu: usize, number_range: i32| Computation {
        max_cpu,
        number_range,
        check_mask: String::from("00"),
        found_need: 3,
    };
    let a = make(1, 7).compute();
    let b = make(4, 100).compute();
    let c = make(2, 1).compute();
    assert_eq!(a, b);
    assert_eq!(a, c);
}

#[test]
fn scan_finds_exactly_the_matches_of_its_range() {
    let found = Computation::get_sha256_digests_with_zero_suffix_ranged(1, 2001, "00");
    let expected: Vec<(i32, String)> = (1..2001)
        .map(|n| (n, sha256::digest(n.to_string())))
        .filter(|m| window_contains(&m.1, "00"))
        .collect();
    assert!(!expected.is_empty());
    assert_eq!(found, expected);
}

#[test]
fn scan_twice_gives_the_same_result() {
    let a = Computation::get_sha256_digests_with_zero_suffix_ranged(40, 400, "0");
    let b = Computation::get_sha256_digests_with_zero_suffix_ranged(40, 400, "0");
    assert_eq!(a, b);
}

#[test]
fn scan_of_empty_range_is_empty() {
    assert!(Computation::get_sha256_digests_with_zero_suffix_ranged(5, 5, "").is_empty());
    assert!(Computation::get_sha256_digests_with_zero_suffix_ranged(9, 3, "").is_empty());
}
