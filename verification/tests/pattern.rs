use memscan::error::ProcessError;
use memscan::pattern::{pattern_search, pattern_search2, search, Pattern};
use memscan::text::render_pattern;

#[test]
fn wildcard_matches_any_byte() {
    let data = [0x11u8, 0xAA, 0xBB, 0xCC, 0x22];
    let found = pattern_search("AA ?? CC".to_string(), &data, false, None).unwrap();
    assert_eq!(found, vec![1]);
}

#[test]
fn empty_buffer_has_no_match() {
    let found = pattern_search("AA BB".to_string(), &[], false, None).unwrap();
    assert!(found.is_empty());
}

#[test]
fn buffer_shorter_than_pattern_has_no_match() {
    let found = pattern_search("AA BB CC".to_string(), &[0xAA, 0xBB], false, None).unwrap();
    assert!(found.is_empty());
}

#[test]
fn empty_pattern_matches_nowhere() {
    let data = [1u8, 2, 3];
    assert!(pattern_search(String::new(), &data, false, None).unwrap().is_empty());
    assert!(pattern_search("  \t ".to_string(), &data, true, None).unwrap().is_empty());
}

#[test]
fn token_of_wrong_length_is_invalid_pattern() {
    let r = pattern_search("AA B CC".to_string(), &[0u8; 4], false, None);
    assert!(matches!(r, Err(ProcessError::InvalidPattern)));
    let r = pattern_search("AAB".to_string(), &[0u8; 4], false, None);
    assert!(matches!(r, Err(ProcessError::InvalidPattern)));
}

#[test]
fn token_of_two_bytes_that_is_no_hex_is_invalid_hex_string() {
    let r = pattern_search("AA ZZ".to_string(), &[0u8; 4], false, None);
    assert!(matches!(r, Err(ProcessError::InvalidHexString)));
    let r = pattern_search("?A".to_string(), &[0u8; 4], false, None);
    assert!(matches!(r, Err(ProcessError::InvalidHexString)));
    let r = pattern_search("\u{e9}".to_string(), &[0u8; 4], false, None);
    assert!(matches!(r, Err(ProcessError::InvalidHexString)));
}

#[test]
fn first_malformed_token_decides_the_error() {
    let r = pattern_search("ZZ A".to_string(), &[], false, None);
    assert!(matches!(r, Err(ProcessError::InvalidHexString)));
    let r = pattern_search("A ZZ".to_string(), &[], false, None);
    assert!(matches!(r, Err(ProcessError::InvalidPattern)));
}

#[test]
fn lower_case_hex_and_any_white_space_are_read() {
    let data = [0xABu8, 0xCD, 0xEF];
    let found = pattern_search("\tab\u{a0}cD \n ef ".to_string(), &data, false, None).unwrap();
    assert_eq!(found, vec![0]);
}

#[test]
fn base_is_added_to_each_offset() {
    let data = [0x00u8, 0x01, 0x02, 0x01, 0x02];
    let found = pattern_search("01 02".to_string(), &data, false, Some(0x1000)).unwrap();
    assert_eq!(found, vec![0x1001, 0x1003]);
}

#[test]
fn find_first_is_head_of_full_result() {
    let data = [9u8, 7, 7, 3, 7, 7, 7, 7];
    let all = pattern_search("07 07".to_string(), &data, false, None).unwrap();
    let first = pattern_search("07 07".to_string(), &data, true, None).unwrap();
    assert_eq!(all, vec![1, 4, 6]);
    assert_eq!(first, vec![1]);
    assert_eq!(first[0], all[0]);
}

#[test]
fn search_goes_on_behind_each_match() {
    let data = [0xAAu8, 0xAA, 0xAA];
    let found = pattern_search("AA AA".to_string(), &data, false, None).unwrap();
    assert_eq!(found, vec![0]);
}

fn naive(pattern: &[u8], data: &[u8]) -> Vec<usize> {
    let mut out = Vec::new();
    let mut i = 0;
    while !pattern.is_empty() && i + pattern.len() <= data.len() {
        if &data[i..i + pattern.len()] == pattern {
            out.push(i);
            i += pattern.len();
        } else {
            i += 1;
        }
    }
    out
}

#[test]
fn literal_search_agrees_with_naive_scan() {
    let mut data = Vec::new();
    let mut x: u32 = 12345;
    for _ in 0..4000 {
        x = x.wrapping_mul(1103515245).wrapping_add(12345);
        data.push(((x >> 16) % 3) as u8);
    }
    let patterns: [&[u8]; 6] = [&[0], &[0, 1], &[1, 1, 1], &[2, 0, 2, 0], &[0, 1, 2, 0, 1], &[1, 2, 2, 1, 0, 0]];
    for p in patterns {
        let found = pattern_search2(p, &data, false, None).unwrap();
        assert_eq!(found, naive(p, &data));
        let first = pattern_search2(p, &data, true, None).unwrap();
        assert_eq!(first.first(), found.first());
        assert!(first.len() <= 1);
    }
}

#[test]
fn every_reported_offset_is_a_match() {
    let mut data = Vec::new();
    let mut x: u32 = 99;
    for _ in 0..3000 {
        x = x.wrapping_mul(1664525).wrapping_add(1013904223);
        data.push(((x >> 24) % 4) as u8);
    }
    let pattern = Pattern::parse("01 ?? 02 ?? ?? 03").unwrap();
    let found = search(&pattern, &data, false);
    assert!(!found.is_empty());
    for o in found {
        for (i, s) in pattern.specs.iter().enumerate() {
            if let Some(b) = s {
                assert_eq!(data[o + i], *b);
            }
        }
    }
}

#[test]
fn wildcards_at_either_end() {
    let data = [1u8, 2, 3, 4, 5, 6];
    assert_eq!(pattern_search("?? 03".to_string(), &data, false, None).unwrap(), vec![1]);
    assert_eq!(pattern_search("03 ??".to_string(), &data, false, None).unwrap(), vec![2]);
    assert_eq!(pattern_search("?? ??".to_string(), &data, false, None).unwrap(), vec![0, 2, 4]);
}

#[test]
fn skip_table_holds_the_distances() {
    let pattern = Pattern::parse("0A ?? 0B 0C 0B").unwrap();
    assert_eq!(pattern.last_wildcard(), 1);
    let table = pattern.skip_table();
    assert_eq!(table.len(), 256);
    assert_eq!(table[0x0B], 1);
    assert_eq!(table[0x0C], 2);
    assert_eq!(table[0x0A], 4);
    assert_eq!(table[0x00], 4);
    let plain = Pattern::from_bytes(&[7, 8, 9]);
    assert_eq!(plain.last_wildcard(), 0);
    let table = plain.skip_table();
    assert_eq!(table[9], 1);
    assert_eq!(table[8], 2);
    assert_eq!(table[7], 3);
    assert_eq!(table[1], 3);
}

fn naive_with_wildcards(specs: &[Option<u8>], data: &[u8]) -> Vec<usize> {
    let mut out = Vec::new();
    let mut i = 0;
    while !specs.is_empty() && i + specs.len() <= data.len() {
        let hit = specs.iter().enumerate().all(|(k, s)| s.map_or(true, |b| data[i + k] == b));
        if hit {
            out.push(i);
            i += specs.len();
        } else {
            i += 1;
        }
    }
    out
}

#[test]
fn wildcard_search_agrees_with_naive_scan() {
    let mut x: u32 = 2024;
    let mut next = move || {
        x = x.wrapping_mul(1103515245).wrapping_add(12345);
        (x >> 16) as usize
    };
    for _ in 0..300 {
        let n = next() % 60;
        let data: Vec<u8> = (0..n).map(|_| (next() % 3) as u8).collect();
        let m = 1 + next() % 5;
        let specs: Vec<Option<u8>> =
            (0..m).map(|_| if next() % 3 == 0 { None } else { Some((next() % 3) as u8) }).collect();
        let pattern = Pattern { specs: specs.clone() };
        let expected = naive_with_wildcards(&specs, &data);
        assert_eq!(search(&pattern, &data, false), expected);
        let first: Vec<usize> = expected.iter().take(1).cloned().collect();
        assert_eq!(search(&pattern, &data, true), first);
    }
}

#[test]
fn rendered_bytes_read_back() {
    assert_eq!(render_pattern(&[0x00, 0x0A, 0xFF, 0x7B]), "00 0A FF 7B");
    assert_eq!(render_pattern(&[0xC3]), "C3");
    assert_eq!(render_pattern(&[]), "");
    let all: Vec<u8> = (0..=255).collect();
    let parsed = Pattern::parse(&render_pattern(&all)).unwrap();
    let expected: Vec<Option<u8>> = all.iter().map(|b| Some(*b)).collect();
    assert_eq!(parsed.specs, expected);
}
