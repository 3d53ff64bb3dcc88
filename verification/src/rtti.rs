//! Finding type descriptors and virtual tables in the snapshot of a module.
//! Everything here works on the local copy of the module's image; what has
//! to be read from the live process is left to `walk`.

use crate::bytes::{le_bytes, lemma_le_bytes_len, to_le};
use crate::pattern::{
    lemma_find_first_is_head, lemma_scan_reports_matches, matches_at, pattern_search2, scan_from,
    search_spec,
};
use crate::text::exact;
use vstd::prelude::*;

verus! {

/// What was recovered of one class: the address of its virtual table, the
/// address of the slot before it, which points to the class's locator, the
/// decorated name of the class and those of its base classes, in the order of
/// the base class array.
#[derive(Debug, Clone, PartialEq)]
pub struct RTTIInfo {
    pub vf_ptr: usize,
    pub vf_meta: usize,
    pub type_desc: String,
    pub base_class: Vec<String>,
}

/// A slot of a virtual table that points to a class's locator.
#[derive(Debug, Clone, Copy)]
pub struct VtableSlot {
    /// The address of the complete object locator.
    pub locator: usize,
    /// The address of the slot that holds the locator's address.
    pub meta: usize,
}

/// The decorated name of the root type-information class, `.?AVtype_info@@`.
pub open spec fn signature() -> Seq<u8> {
    seq![
        0x2Eu8, 0x3Fu8, 0x41u8, 0x56u8, 0x74u8, 0x79u8, 0x70u8, 0x65u8, 0x5Fu8, 0x69u8, 0x6Eu8,
        0x66u8, 0x6Fu8, 0x40u8, 0x40u8,
    ]
}

/// The distance from a type descriptor's beginning to its name.
pub const NAME_OFFSET: usize = 0x10;

/// The distance from a locator's beginning to its reference to the type descriptor.
pub const DESCRIPTOR_FIELD: usize = 0xC;

/// The number of bytes of an address in the inspected process.
pub const POINTER_BYTES: usize = 8;

/// The addresses at which the bytes `needle` lie in the snapshot of a module
/// loaded at `base`, as a search reports them.
pub open spec fn found_at(snapshot: Seq<u8>, base: int, needle: Seq<u8>) -> Seq<int> {
    Seq::new(
        search_spec(exact(needle), snapshot, false).len(),
        |k: int| base + search_spec(exact(needle), snapshot, false)[k],
    )
}

/// The module-relative offset of a type descriptor as the four-byte value
/// that locators hold.
pub open spec fn offset32(base: int, candidate: int) -> int {
    (candidate - base) % 0x1_0000_0000
}

/// The virtual-table slot that a reference to a type descriptor leads to.
/// The reference lies 12 bytes into a locator; the locator's address is
/// looked for in the snapshot, and a slot is recognised where the address
/// is reported exactly once.
pub open spec fn slot_spec(snapshot: Seq<u8>, base: int, reference: int) -> Option<VtableSlot> {
    if reference < 0xC {
        None
    } else {
        let hits = found_at(snapshot, base, le_bytes(reference - 0xC, 8));
        if hits.len() == 1 {
            Some(VtableSlot { locator: (reference - 0xC) as usize, meta: hits[0] as usize })
        } else {
            None
        }
    }
}

/// The slots that the given references lead to, in the order of the references.
pub open spec fn slots_spec(snapshot: Seq<u8>, base: int, references: Seq<int>) -> Seq<VtableSlot>
    decreases references.len(),
{
    if references.len() == 0 {
        Seq::empty()
    } else {
        let before = slots_spec(snapshot, base, references.drop_last());
        match slot_spec(snapshot, base, references.last()) {
            Some(slot) => before.push(slot),
            None => before,
        }
    }
}

/// Whether the addresses are the given mathematical integers.
pub open spec fn addresses_are(r: Seq<usize>, e: Seq<int>) -> bool {
    &&& r.len() == e.len()
    &&& forall|k: int| 0 <= k < r.len() ==> #[trigger] r[k] as int == e[k]
}

/// Whether each address is greater than the one before it.
pub open spec fn rising(r: Seq<usize>) -> bool {
    forall|i: int, j: int| 0 <= i < j < r.len() ==> r[i] < r[j]
}

/// The offsets of a plain scan rise.
pub proof fn lemma_scan_rises(pat: Seq<Option<u8>>, data: Seq<u8>, i: int, j: int)
    requires
        0 <= i < j < scan_from(pat, data, 0).len(),
    ensures
        scan_from(pat, data, 0)[i] < scan_from(pat, data, 0)[j],
    decreases j - i,
{
    lemma_scan_reports_matches(pat, data, 0);
    let found = scan_from(pat, data, 0);
    assert(found[j - 1] + pat.len() <= found[j]);
    assert(pat.len() > 0);
    if i < j - 1 {
        lemma_scan_rises(pat, data, i, j - 1);
    }
}

/// The bytes of the signature.
pub fn signature_bytes() -> (r: Vec<u8>)
    ensures
        r@ == signature(),
{
    let r: Vec<u8> = vec![
        0x2Eu8, 0x3Fu8, 0x41u8, 0x56u8, 0x74u8, 0x79u8, 0x70u8, 0x65u8, 0x5Fu8, 0x69u8, 0x6Eu8,
        0x66u8, 0x6Fu8, 0x40u8, 0x40u8,
    ];
    assert(r@ =~= signature());
    r
}

/// Looks for the bytes `needle` in the snapshot of a module loaded at `base`
/// and returns the addresses at which they lie, rising.
pub fn find_bytes(snapshot: &[u8], base: usize, needle: &[u8]) -> (r: Vec<usize>)
    requires
        base + snapshot@.len() <= usize::MAX,
    ensures
        addresses_are(r@, found_at(snapshot@, base as int, needle@)),
        rising(r@),
        forall|k: int|
            0 <= k < r@.len() ==> base <= #[trigger] r@[k] && r@[k] + needle@.len() <= base
                + snapshot@.len(),
{
    let found = pattern_search2(needle, snapshot, false, Some(base));
    let r = match found {
        Ok(addresses) => addresses,
        Err(_) => Vec::new(),
    };
    proof {
        let hits = search_spec(exact(needle@), snapshot@, false);
        assert forall|i: int, j: int| 0 <= i < j < r@.len() implies r@[i] < r@[j] by {
            lemma_scan_rises(exact(needle@), snapshot@, i, j);
        }
        assert forall|k: int| 0 <= k < r@.len() implies base <= #[trigger] r@[k] && r@[k]
            + needle@.len() <= base + snapshot@.len() by {
            assert(matches_at(exact(needle@), snapshot@, r@[k] - base));
        }
    }
    r
}

/// Looks for the signature in the snapshot: the address of its first
/// occurrence, `None` where the module holds no type information.
pub fn find_anchor(snapshot: &[u8], base: usize) -> (r: Option<usize>)
    requires
        base + snapshot@.len() <= usize::MAX,
    ensures
        match r {
            Some(anchor) => found_at(snapshot@, base as int, signature()).len() > 0 && anchor
                == found_at(snapshot@, base as int, signature())[0],
            None => found_at(snapshot@, base as int, signature()).len() == 0,
        },
{
    let sign = signature_bytes();
    proof {
        lemma_find_first_is_head(exact(signature()), snapshot@);
    }
    match pattern_search2(sign.as_slice(), snapshot, true, Some(base)) {
        Ok(found) => {
            if found.len() > 0 {
                Some(found[0])
            } else {
                None
            }
        },
        Err(_) => None,
    }
}

/// Looks for the candidates: the addresses in the snapshot that hold the
/// address of the type-information class's virtual table, which every type
/// descriptor begins with.
pub fn find_candidates(snapshot: &[u8], base: usize, vftable: u64) -> (r: Vec<usize>)
    requires
        base + snapshot@.len() <= usize::MAX,
    ensures
        addresses_are(r@, found_at(snapshot@, base as int, le_bytes(vftable as int, 8))),
        rising(r@),
        forall|k: int| 0 <= k < r@.len() ==> base <= #[trigger] r@[k],
{
    let needle = to_le(vftable, POINTER_BYTES);
    find_bytes(snapshot, base, needle.as_slice())
}

/// Looks for the references to a candidate type descriptor: the addresses
/// in the snapshot that hold its module-relative offset as four bytes.
pub fn find_references(snapshot: &[u8], base: usize, candidate: usize) -> (r: Vec<usize>)
    requires
        base + snapshot@.len() <= usize::MAX,
        base <= candidate,
    ensures
        addresses_are(
            r@,
            found_at(snapshot@, base as int, le_bytes(offset32(base as int, candidate as int), 4)),
        ),
        rising(r@),
{
    let offset: u64 = ((candidate - base) as u64) % 0x1_0000_0000u64;
    let needle = to_le(offset, 4);
    find_bytes(snapshot, base, needle.as_slice())
}

/// Follows one reference to the virtual-table slot that it leads to.
pub fn vtable_slot(snapshot: &[u8], base: usize, reference: usize) -> (r: Option<VtableSlot>)
    requires
        base + snapshot@.len() <= usize::MAX,
    ensures
        r == slot_spec(snapshot@, base as int, reference as int),
        r is Some ==> r->0.meta + 8 <= usize::MAX,
{
    if reference < DESCRIPTOR_FIELD {
        return None;
    }
    let locator = reference - DESCRIPTOR_FIELD;
    let needle = to_le(locator as u64, POINTER_BYTES);
    proof {
        lemma_le_bytes_len(locator as int, 8);
    }
    let hits = find_bytes(snapshot, base, needle.as_slice());
    if hits.len() == 1 {
        Some(VtableSlot { locator, meta: hits[0] })
    } else {
        None
    }
}

/// Plans the work for one candidate type descriptor: the virtual-table
/// slots that its references lead to, in the order of the references.
pub fn plan_candidate(snapshot: &[u8], base: usize, candidate: usize) -> (r: Vec<VtableSlot>)
    requires
        base + snapshot@.len() <= usize::MAX,
        base <= candidate,
    ensures
        r@ == slots_spec(
            snapshot@,
            base as int,
            found_at(snapshot@, base as int, le_bytes(offset32(base as int, candidate as int), 4)),
        ),
        forall|k: int| 0 <= k < r@.len() ==> (#[trigger] r@[k]).meta + 8 <= usize::MAX,
{
    let references = find_references(snapshot, base, candidate);
    let ghost wanted = found_at(
        snapshot@,
        base as int,
        le_bytes(offset32(base as int, candidate as int), 4),
    );
    let mut slots: Vec<VtableSlot> = Vec::new();
    let mut i: usize = 0;
    assert(wanted.take(0) =~= Seq::<int>::empty());
    while i < references.len()
        invariant
            i <= references@.len(),
            base + snapshot@.len() <= usize::MAX,
            addresses_are(references@, wanted),
            slots@ == slots_spec(snapshot@, base as int, wanted.take(i as int)),
            forall|k: int| 0 <= k < slots@.len() ==> (#[trigger] slots@[k]).meta + 8 <= usize::MAX,
        decreases references@.len() - i,
    {
        proof {
            let next = wanted.take(i + 1);
            assert(next.drop_last() =~= wanted.take(i as int));
            assert(next.last() == references@[i as int] as int);
        }
        match vtable_slot(snapshot, base, references[i]) {
            Some(slot) => {
                slots.push(slot);
            },
            None => {},
        }
        i += 1;
    }
    assert(wanted.take(i as int) =~= wanted);
    slots
}

} // verus!
