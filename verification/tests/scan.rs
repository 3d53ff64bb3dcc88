use memscan::error::ProcessError;
use memscan::pattern::pattern_search;
use memscan::scan::{paged_search, remote_pattern_search, remote_pattern_search2};

#[test]
fn two_page_scan_finds_match_in_second_page() {
    let bytes = [0x00u8, 0x11, 0x22, 0x33, 0x44, 0xAA, 0xBB, 0x00];
    let start = 0x4000;
    let found = paged_search(&bytes, start, 4, "AA BB".to_string(), false).unwrap();
    assert_eq!(found, vec![start + 5]);
}

#[test]
fn match_across_a_page_boundary_is_found_for_every_page_size() {
    let bytes = [0x10u8, 0x20, 0x30, 0xDE, 0xAD, 0xBE, 0x40, 0x50, 0x60];
    let whole = pattern_search("DE AD BE".to_string(), &bytes, false, Some(100)).unwrap();
    assert_eq!(whole, vec![103]);
    for page_size in [1usize, 3, 4, 5, 9, 64] {
        let paged = paged_search(&bytes, 100, page_size, "DE AD BE".to_string(), false).unwrap();
        assert_eq!(paged, whole);
        let first = paged_search(&bytes, 100, page_size, "DE AD BE".to_string(), true).unwrap();
        assert_eq!(first, whole);
    }
}

#[test]
fn paged_scan_agrees_with_whole_scan_on_matches_that_lie_apart() {
    let mut data = vec![0u8; 500];
    for at in [0usize, 7, 61, 64, 127, 250, 497] {
        data[at] = 1;
        data[at + 1] = 2;
        data[at + 2] = 3;
    }
    let whole = pattern_search("01 ?? 03".to_string(), &data, false, Some(7)).unwrap();
    assert_eq!(whole.len(), 7);
    for page_size in 1..70usize {
        let paged = paged_search(&data, 7, page_size, "01 ?? 03".to_string(), false).unwrap();
        assert_eq!(paged, whole);
    }
}

#[test]
fn first_match_ends_the_scan() {
    let bytes = [0u8, 5, 0, 0, 5, 0, 0, 0, 5];
    let mut scan = remote_pattern_search(0, 9, 3, "05".to_string(), true).unwrap();
    assert_eq!(scan.next_read(), Some((0, 3)));
    scan.page_read(&bytes[0..3]);
    assert!(scan.is_finished());
    assert_eq!(scan.next_read(), None);
    assert_eq!(scan.into_found(), vec![1]);
}

#[test]
fn last_page_is_cut_to_what_is_left() {
    let mut scan = remote_pattern_search2(1000, 10, 4, &[9, 9], false).unwrap();
    assert_eq!(scan.next_read(), Some((1000, 4)));
    scan.page_read(&[0, 0, 0, 9]);
    assert_eq!(scan.next_read(), Some((1004, 4)));
    scan.page_read(&[9, 0, 0, 0]);
    assert_eq!(scan.next_read(), Some((1008, 2)));
    scan.page_read(&[9, 9]);
    assert_eq!(scan.next_read(), None);
    assert_eq!(scan.into_found(), vec![1003, 1008]);
}

#[test]
fn failed_page_is_passed_over() {
    let mut scan = remote_pattern_search(0, 12, 4, "07 08".to_string(), false).unwrap();
    scan.page_read(&[7, 8, 0, 7]);
    assert_eq!(scan.next_read(), Some((4, 4)));
    scan.page_failed();
    assert_eq!(scan.next_read(), Some((8, 4)));
    scan.page_read(&[8, 0, 7, 8]);
    assert!(scan.is_finished());
    assert_eq!(scan.into_found(), vec![0, 10]);
}

#[test]
fn all_pages_failing_gives_an_empty_result() {
    let mut scan = remote_pattern_search(0x7000, 8, 4, "AA".to_string(), false).unwrap();
    while !scan.is_finished() {
        scan.page_failed();
    }
    assert!(scan.into_found().is_empty());
}

#[test]
fn malformed_pattern_is_reported_before_any_page() {
    let r = remote_pattern_search(0, 8, 4, "AA B".to_string(), false);
    assert!(matches!(r, Err(ProcessError::InvalidPattern)));
    let r = paged_search(&[1, 2, 3], 0, 2, "GG".to_string(), false);
    assert!(matches!(r, Err(ProcessError::InvalidHexString)));
}

#[test]
fn empty_range_asks_for_no_page() {
    let scan = remote_pattern_search(5, 0, 4, "AA".to_string(), false).unwrap();
    assert!(scan.is_finished());
    assert!(scan.into_found().is_empty());
}

#[test]
fn overlapping_occurrences_across_a_page_end_are_both_reported() {
    let data = [0xAAu8, 0xAA, 0xAA];
    let paged = paged_search(&data, 0, 2, "AA AA".to_string(), false).unwrap();
    assert_eq!(paged, vec![0, 1]);
}
