use memscan::game::{decimal_text, ChrAttributes, ChrStats, PlayerGameData};
use memscan::utf16::{decode_utf16_lossy, trim_nuls};

fn named(name: &str) -> ChrAttributes {
    let mut a = ChrAttributes::default();
    for (i, u) in name.encode_utf16().enumerate() {
        a.name_bytes[i] = u;
    }
    a
}

#[test]
fn numbers_are_written_in_decimal() {
    for n in [0u32, 1, 9, 10, 11, 99, 100, 802, 4_294_967_295] {
        assert_eq!(decimal_text(n), n.to_string());
    }
}

#[test]
fn attributes_are_shown_in_decimal() {
    let mut a = ChrAttributes::default();
    a.vigor = 27;
    a.attunement = 10;
    a.endurance = 40;
    a.strength = 66;
    a.dexterity = 18;
    a.intelligence = 9;
    a.faith = 0;
    a.luck = 7;
    a.vitality = 15;
    a.soul_level = 802;
    assert_eq!(a.vigor_string(), "27");
    assert_eq!(a.attunement_string(), "10");
    assert_eq!(a.endurance_string(), "40");
    assert_eq!(a.strength_string(), "66");
    assert_eq!(a.dexterity_string(), "18");
    assert_eq!(a.intelligence_string(), "9");
    assert_eq!(a.faith_string(), "0");
    assert_eq!(a.luck_string(), "7");
    assert_eq!(a.vitality_string(), "15");
    assert_eq!(a.soul_level_string(), "802");
}

#[test]
fn name_is_read_without_the_zeros_around_it() {
    assert_eq!(named("Solaire").name_string(), "Solaire");
    assert_eq!(named("").name_string(), "");
    assert_eq!(named("0123456789abcdef").name_string(), "0123456789abcdef");
    let mut a = named("ab");
    a.name_bytes[0] = 0;
    a.name_bytes[5] = 0x63;
    assert_eq!(a.name_string(), "b\0\0\0c");
    assert_eq!(a.name_string(), String::from_utf16_lossy(&a.name_bytes).trim_matches('\0'));
}

#[test]
fn surrogates_are_paired_or_replaced() {
    let units = [0x41u16, 0xD83D, 0xDE00, 0xD800, 0x42, 0xDC00, 0xD800];
    let chars = decode_utf16_lossy(&units);
    let text: String = chars.iter().collect();
    assert_eq!(text, "A\u{1F600}\u{FFFD}B\u{FFFD}\u{FFFD}");
    assert_eq!(text, String::from_utf16_lossy(&units));
    assert!(decode_utf16_lossy(&[]).is_empty());
}

#[test]
fn decoding_agrees_with_the_standard_library_on_every_pair() {
    let samples = [0u16, 0x41, 0xD7FF, 0xD800, 0xDBFF, 0xDC00, 0xDFFF, 0xE000, 0xFFFF];
    for a in samples {
        for b in samples {
            for c in samples {
                let units = [a, b, c];
                let text: String = decode_utf16_lossy(&units).iter().collect();
                assert_eq!(text, String::from_utf16_lossy(&units));
            }
        }
    }
}

#[test]
fn trimming_takes_zeros_from_both_ends_only() {
    let t = |s: &str| trim_nuls(&s.chars().collect::<Vec<char>>());
    assert_eq!(t("\0\0ab\0c\0"), "ab\0c");
    assert_eq!(t("\0\0\0"), "");
    assert_eq!(t(""), "");
    assert_eq!(t("abc"), "abc");
}

#[test]
fn data_defaults_to_zero() {
    let stats = ChrStats::default();
    assert_eq!(stats.hp, 0);
    assert_eq!(stats.base_max_sp, 0);
    let data = PlayerGameData::default();
    assert_eq!(data.attributes.soul_level, 0);
    assert_eq!(data.attributes.name_string(), "");
}
