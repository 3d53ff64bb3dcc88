use memscan::arith::{safe_add, safe_sub};
use memscan::bytes::{decode_string, from_le, to_le};
use memscan::collect::RttiCollector;
use memscan::error::ProcessError;
use memscan::module::{find_module, ModuleEntry};
use memscan::process::{find_process, ProcessEntry};
use memscan::utf16::{contains_text, decode_utf16};
use memscan::rtti::{
    find_anchor, find_bytes, find_candidates, find_references, plan_candidate, signature_bytes,
    vtable_slot, RTTIInfo, VtableSlot,
};
use memscan::walk::RttiWalk;

fn put(image: &mut [u8], at: usize, bytes: &[u8]) {
    image[at..at + bytes.len()].copy_from_slice(bytes);
}

const BASE: usize = 0x1_4000_0000;

/// An image with the root type descriptor at 0x100, one class `.?AVCat@@`
/// with descriptor at 0x200, locator at 0x300, hierarchy at 0x340, base class
/// array at 0x360, base class descriptors at 0x380 and 0x390, and a virtual
/// table whose slot before the first entry lies at 0x400.
fn image() -> Vec<u8> {
    let mut image = vec![0x11u8; 0x500];
    let vftable = (BASE + 0x480) as u64;
    put(&mut image, 0x100, &vftable.to_le_bytes());
    put(&mut image, 0x108, &0u64.to_le_bytes());
    put(&mut image, 0x110, b".?AVtype_info@@\0");
    put(&mut image, 0x200, &vftable.to_le_bytes());
    put(&mut image, 0x208, &0u64.to_le_bytes());
    put(&mut image, 0x210, b".?AVCat@@\0");
    put(&mut image, 0x300, &[1, 0, 0, 0, 0, 0, 0, 0, 0, 0, 0, 0]);
    put(&mut image, 0x30C, &0x200u32.to_le_bytes());
    put(&mut image, 0x310, &0x340u32.to_le_bytes());
    put(&mut image, 0x340, &[0x22; 8]);
    put(&mut image, 0x348, &2u32.to_le_bytes());
    put(&mut image, 0x34C, &0x360u32.to_le_bytes());
    put(&mut image, 0x360, &0x380u32.to_le_bytes());
    put(&mut image, 0x364, &0x390u32.to_le_bytes());
    put(&mut image, 0x380, &0x200u32.to_le_bytes());
    put(&mut image, 0x390, &0x100u32.to_le_bytes());
    put(&mut image, 0x400, &((BASE + 0x300) as u64).to_le_bytes());
    image
}

fn read(image: &[u8], address: usize, count: usize) -> Option<&[u8]> {
    let from = address.checked_sub(BASE)?;
    image.get(from..from.checked_add(count)?)
}

fn walk(image: &[u8], type_address: usize, slot: VtableSlot) -> Result<Option<RTTIInfo>, ProcessError> {
    let mut walk = RttiWalk::new(type_address, slot, BASE);
    while let Some((address, count)) = walk.next_read() {
        match read(image, address, count) {
            Some(bytes) => walk.read_done(bytes),
            None => walk.read_failed(),
        }
    }
    assert!(walk.is_over());
    walk.finish()
}

#[test]
fn signature_is_the_decorated_name_of_type_info() {
    assert_eq!(signature_bytes(), b".?AVtype_info@@".to_vec());
}

#[test]
fn anchor_is_the_first_occurrence_of_the_signature() {
    let mut image = image();
    assert_eq!(find_anchor(&image, BASE), Some(BASE + 0x110));
    put(&mut image, 0x20, b".?AVtype_info@@");
    assert_eq!(find_anchor(&image, BASE), Some(BASE + 0x20));
}

#[test]
fn image_without_type_information_has_no_anchor() {
    assert_eq!(find_anchor(&[0u8; 64], BASE), None);
    assert_eq!(find_anchor(&[], BASE), None);
}

#[test]
fn candidates_hold_the_address_of_the_root_virtual_table() {
    let image = image();
    let found = find_candidates(&image, BASE, (BASE + 0x480) as u64);
    assert_eq!(found, vec![BASE + 0x100, BASE + 0x200]);
}

#[test]
fn references_hold_the_offset_of_the_candidate() {
    let image = image();
    assert_eq!(find_references(&image, BASE, BASE + 0x200), vec![BASE + 0x30C, BASE + 0x380]);
    assert_eq!(find_references(&image, BASE, BASE + 0x100), vec![BASE + 0x390]);
}

#[test]
fn slot_is_found_where_the_locator_is_pointed_to_once() {
    let mut image = image();
    let slot = vtable_slot(&image, BASE, BASE + 0x30C).unwrap();
    assert_eq!(slot.locator, BASE + 0x300);
    assert_eq!(slot.meta, BASE + 0x400);
    assert!(vtable_slot(&image, BASE, BASE + 0x380).is_none());
    put(&mut image, 0x420, &((BASE + 0x300) as u64).to_le_bytes());
    assert!(vtable_slot(&image, BASE, BASE + 0x30C).is_none());
    assert!(vtable_slot(&image, 0, 0xB).is_none());
}

#[test]
fn plan_keeps_the_references_that_lead_to_a_slot() {
    let image = image();
    let plan = plan_candidate(&image, BASE, BASE + 0x200);
    assert_eq!(plan.len(), 1);
    assert_eq!(plan[0].locator, BASE + 0x300);
    assert_eq!(plan[0].meta, BASE + 0x400);
    assert!(plan_candidate(&image, BASE, BASE + 0x100).is_empty());
}

#[test]
fn find_bytes_reports_rising_addresses() {
    let data = [5u8, 6, 0, 5, 6, 5, 6];
    assert_eq!(find_bytes(&data, 10, &[5, 6]), vec![10, 13, 15]);
    assert!(find_bytes(&data, 10, &[]).is_empty());
}

#[test]
fn walk_recovers_name_and_base_classes() {
    let image = image();
    let slot = VtableSlot { locator: BASE + 0x300, meta: BASE + 0x400 };
    let info = walk(&image, BASE + 0x200, slot).unwrap().unwrap();
    assert_eq!(
        info,
        RTTIInfo {
            vf_ptr: BASE + 0x408,
            vf_meta: BASE + 0x400,
            type_desc: ".?AVCat@@".to_string(),
            base_class: vec![".?AVCat@@".to_string(), ".?AVtype_info@@".to_string()],
        }
    );
}

#[test]
fn walk_asks_for_the_reads_in_order() {
    let image = image();
    let slot = VtableSlot { locator: BASE + 0x300, meta: BASE + 0x400 };
    let mut walk = RttiWalk::new(BASE + 0x200, slot, BASE);
    let mut asked = Vec::new();
    while let Some((address, count)) = walk.next_read() {
        asked.push((address - BASE, count));
        walk.read_done(read(&image, address, count).unwrap());
    }
    assert_eq!(
        asked,
        vec![
            (0x200, 8),
            (0x210, 255),
            (0x310, 4),
            (0x348, 4),
            (0x34C, 4),
            (0x360, 4),
            (0x380, 4),
            (0x210, 255),
            (0x364, 4),
            (0x390, 4),
            (0x110, 255),
        ]
    );
}

#[test]
fn walk_skips_a_type_descriptor_that_reads_as_zero() {
    let mut image = image();
    put(&mut image, 0x200, &[0; 8]);
    let slot = VtableSlot { locator: BASE + 0x300, meta: BASE + 0x400 };
    assert!(matches!(walk(&image, BASE + 0x200, slot), Ok(None)));
}

#[test]
fn walk_goes_on_after_a_failed_guard_read() {
    let image = image();
    let slot = VtableSlot { locator: BASE + 0x300, meta: BASE + 0x400 };
    let mut walk = RttiWalk::new(BASE + 0x200, slot, BASE);
    assert_eq!(walk.next_read(), Some((BASE + 0x200, 8)));
    walk.read_failed();
    assert_eq!(walk.next_read(), Some((BASE + 0x210, 255)));
    while let Some((address, count)) = walk.next_read() {
        walk.read_done(read(&image, address, count).unwrap());
    }
    assert_eq!(walk.finish().unwrap().unwrap().type_desc, ".?AVCat@@");
}

#[test]
fn walk_fails_with_the_address_of_the_read_that_failed() {
    let mut image = image();
    put(&mut image, 0x310, &0x7000_0000u32.to_le_bytes());
    let slot = VtableSlot { locator: BASE + 0x300, meta: BASE + 0x400 };
    let r = walk(&image, BASE + 0x200, slot);
    assert!(matches!(r, Err(ProcessError::ReadMemoryFail(a)) if a == BASE + 0x7000_0000 + 8));
}

#[test]
fn walk_of_a_class_without_bases_is_complete_after_the_array() {
    let mut image = image();
    put(&mut image, 0x348, &0u32.to_le_bytes());
    let slot = VtableSlot { locator: BASE + 0x300, meta: BASE + 0x400 };
    let info = walk(&image, BASE + 0x200, slot).unwrap().unwrap();
    assert!(info.base_class.is_empty());
    assert_eq!(info.type_desc, ".?AVCat@@");
}

#[test]
fn walk_fails_where_an_address_overflows() {
    let slot = VtableSlot { locator: usize::MAX - 4, meta: 0x400 };
    let mut walk = RttiWalk::new(0x200, slot, 0);
    walk.read_done(&[1, 0, 0, 0, 0, 0, 0, 0]);
    walk.read_done(&[0x41; 255]);
    assert!(walk.is_over());
    assert!(matches!(walk.finish(), Err(ProcessError::Overflow)));
    let slot = VtableSlot { locator: 0, meta: usize::MAX - 3 };
    assert!(matches!(RttiWalk::new(0x200, slot, 0).finish(), Err(ProcessError::Overflow)));
}

fn info(vf_ptr: usize, name: &str) -> RTTIInfo {
    RTTIInfo { vf_ptr, vf_meta: vf_ptr - 8, type_desc: name.to_string(), base_class: vec![] }
}

#[test]
fn collector_keeps_the_first_of_each_virtual_table() {
    let mut c = RttiCollector::new();
    assert!(c.offer(info(0x1008, "a")));
    assert!(c.offer(info(0x2008, "b")));
    assert!(!c.offer(info(0x1008, "c")));
    assert!(c.offer(info(0x3008, "d")));
    assert!(!c.offer(info(0x2008, "e")));
    assert_eq!(c.len(), 3);
    let kept = c.into_results();
    assert_eq!(kept, vec![info(0x1008, "a"), info(0x2008, "b"), info(0x3008, "d")]);
    for i in 0..kept.len() {
        for j in i + 1..kept.len() {
            assert_ne!(kept[i].vf_ptr, kept[j].vf_ptr);
        }
    }
}

#[test]
fn empty_collector_gives_no_results() {
    assert!(RttiCollector::new().into_results().is_empty());
}

#[test]
fn text_ends_at_zero_or_stop_character() {
    assert_eq!(decode_string(b"abc\0def", &[]), "abc");
    assert_eq!(decode_string(b"abc@def\0", &['@']), "abc");
    assert_eq!(decode_string(b"abc", &[]), "abc");
    assert_eq!(decode_string(b"\0abc", &[]), "");
    assert_eq!(decode_string(&[0x41, 0x07, 0xE9, 0xFF, 0x00], &[]), "A\u{7}\u{e9}\u{ff}");
    assert_eq!(decode_string(&[], &['x']), "");
}

#[test]
fn little_endian_bytes_and_back() {
    assert_eq!(to_le(0x1234_5678, 4), vec![0x78, 0x56, 0x34, 0x12]);
    assert_eq!(to_le(0x0102_0304_0506_0708, 8), 0x0102_0304_0506_0708u64.to_le_bytes().to_vec());
    assert_eq!(to_le(0x1_0000_00FF, 4), vec![0xFF, 0, 0, 0]);
    assert_eq!(to_le(7, 0), Vec::<u8>::new());
    assert_eq!(from_le(&[0x78, 0x56, 0x34, 0x12]), 0x1234_5678);
    assert_eq!(from_le(&[0xFF; 8]), u64::MAX);
    assert_eq!(from_le(&[]), 0);
}

#[test]
fn safe_arithmetic_reports_overflow() {
    assert!(matches!(safe_add(1, 2), Ok(3)));
    assert!(matches!(safe_add(usize::MAX, 1), Err(ProcessError::Overflow)));
    assert!(matches!(safe_sub(5, 2), Ok(3)));
    assert!(matches!(safe_sub(2, 5), Err(ProcessError::Overflow)));
}

fn entry(name: &str, base: usize, size: usize) -> ModuleEntry {
    let mut units: Vec<u16> = name.encode_utf16().collect();
    units.resize(32, 0);
    ModuleEntry { name: units, base, size }
}

#[test]
fn module_is_found_by_its_exact_name() {
    let entries = vec![
        entry("ntdll.dll", 0x7000, 0x100),
        entry("Game.exe", 0x1_4000_0000, 0x5000),
        entry("Game.exe", 0x2_0000_0000, 0x10),
    ];
    let m = find_module(&entries, "Game.exe").unwrap();
    assert_eq!(m.name, "Game.exe");
    assert_eq!(m.base, 0x1_4000_0000);
    assert_eq!(m.size, 0x5000);
}

#[test]
fn missing_module_is_module_not_found() {
    let entries = vec![entry("ntdll.dll", 0x7000, 0x100)];
    assert!(matches!(find_module(&entries, "Game.exe"), Err(ProcessError::ModuleNotFound)));
    assert!(matches!(find_module(&entries, "ntdll"), Err(ProcessError::ModuleNotFound)));
    assert!(matches!(find_module(&[], "ntdll.dll"), Err(ProcessError::ModuleNotFound)));
}

fn process(id: u32, exe: &str) -> ProcessEntry {
    let mut units: Vec<u16> = exe.encode_utf16().collect();
    units.resize(260, 0);
    ProcessEntry { id, exe_file: units }
}

#[test]
fn process_is_found_by_a_part_of_its_name() {
    let entries = vec![process(4, "System"), process(812, "DarkSoulsIII.exe"), process(900, "DarkSoulsIII.exe")];
    assert_eq!(find_process(&entries, "DarkSouls"), Some(812));
    assert_eq!(find_process(&entries, "DarkSoulsIII.exe"), Some(812));
    assert_eq!(find_process(&entries, "ystem"), Some(4));
    assert_eq!(find_process(&entries, ""), Some(4));
    assert_eq!(find_process(&entries, "notepad.exe"), None);
    assert_eq!(find_process(&[], "System"), None);
}

#[test]
fn process_with_a_malformed_name_has_the_empty_name() {
    let mut broken = process(7, "Game.exe");
    broken.exe_file[20] = 0xD800;
    let entries = vec![broken, process(8, "Game.exe")];
    assert_eq!(find_process(&entries, "Game"), Some(8));
    assert_eq!(find_process(&entries, ""), Some(7));
}

#[test]
fn strict_decoding_refuses_lone_surrogates() {
    assert_eq!(decode_utf16(&[0x41, 0xD83D, 0xDE00]), Some(vec!['A', '\u{1F600}']));
    assert_eq!(decode_utf16(&[0x41, 0xD83D]), None);
    assert_eq!(decode_utf16(&[0xDE00, 0x41]), None);
    assert_eq!(decode_utf16(&[]), Some(vec![]));
    let samples = [0u16, 0x41, 0xD7FF, 0xD800, 0xDBFF, 0xDC00, 0xDFFF, 0xE000];
    for a in samples {
        for b in samples {
            for c in samples {
                let units = [a, b, c];
                let ours = decode_utf16(&units).map(|v| v.into_iter().collect::<String>());
                assert_eq!(ours, String::from_utf16(&units).ok());
            }
        }
    }
}

#[test]
fn text_holds_a_needle_where_it_lies_in_it() {
    let c = |s: &str| s.chars().collect::<Vec<char>>();
    for (text, needle) in [("abcabd", "abd"), ("abc", ""), ("", ""), ("", "a"), ("aab", "ab"), ("abc", "abcd"), ("abc", "ac")] {
        assert_eq!(contains_text(&c(text), &c(needle)), text.contains(needle));
    }
}
