//! The processes that are running on the machine.

use crate::text::chars_of;
use crate::utf16::{contains_text, decode_utf16, occurs_in, utf16_lossy, well_formed};
use vstd::prelude::*;

verus! {

/// A process as the system lists it: its id and the name of its executable
/// in UTF-16.
#[derive(Debug, Clone)]
pub struct ProcessEntry {
    pub id: u32,
    pub exe_file: Vec<u16>,
}

/// The name of a listed process's executable as text; empty where the
/// units are not well-formed UTF-16.
pub open spec fn exe_name(entry: ProcessEntry) -> Seq<char> {
    if well_formed(entry.exe_file@) {
        utf16_lossy(entry.exe_file@)
    } else {
        Seq::empty()
    }
}

/// The index of the first of the listed processes whose executable's name
/// holds `name`, the number of processes where none does.
pub open spec fn index_of_process(entries: Seq<ProcessEntry>, name: Seq<char>) -> int
    decreases entries.len(),
{
    if entries.len() == 0 || occurs_in(name, exe_name(entries[0])) {
        0
    } else {
        1 + index_of_process(entries.skip(1), name)
    }
}

/// Before the index found no process's name holds `name`, and the name of
/// the process at the index does.
pub proof fn lemma_index_of_process(entries: Seq<ProcessEntry>, name: Seq<char>)
    ensures
        0 <= index_of_process(entries, name) <= entries.len(),
        forall|k: int|
            0 <= k < index_of_process(entries, name) ==> !occurs_in(
                name,
                exe_name(#[trigger] entries[k]),
            ),
        index_of_process(entries, name) < entries.len() ==> occurs_in(
            name,
            exe_name(entries[index_of_process(entries, name)]),
        ),
    decreases entries.len(),
{
    if !(entries.len() == 0 || occurs_in(name, exe_name(entries[0]))) {
        let rest = entries.skip(1);
        lemma_index_of_process(rest, name);
        assert forall|k: int| 0 <= k < index_of_process(entries, name) implies !occurs_in(
            name,
            exe_name(#[trigger] entries[k]),
        ) by {
            if k > 0 {
                assert(entries[k] == rest[k - 1]);
            }
        }
        if index_of_process(entries, name) < entries.len() {
            assert(entries[index_of_process(entries, name)] == rest[index_of_process(rest, name)]);
        }
    }
}

/// Looks a process up by a part of its executable's name among the
/// processes that the system lists: the id of the first whose name holds
/// `name`, `None` where none does.
pub fn find_process(entries: &[ProcessEntry], name: &str) -> (r: Option<u32>)
    ensures
        index_of_process(entries@, name@) < entries@.len() ==> r == Some(
            entries@[index_of_process(entries@, name@)].id,
        ),
        index_of_process(entries@, name@) >= entries@.len() ==> r is None,
{
    let wanted = chars_of(name);
    let mut i: usize = 0;
    proof {
        lemma_index_of_process(entries@, name@);
    }
    while i < entries.len()
        invariant
            i <= entries@.len(),
            wanted@ == name@,
            i <= index_of_process(entries@, name@) <= entries@.len(),
            forall|k: int|
                0 <= k < index_of_process(entries@, name@) ==> !occurs_in(
                    name@,
                    exe_name(#[trigger] entries@[k]),
                ),
            index_of_process(entries@, name@) < entries@.len() ==> occurs_in(
                name@,
                exe_name(entries@[index_of_process(entries@, name@)]),
            ),
        decreases entries@.len() - i,
    {
        let chars = match decode_utf16(entries[i].exe_file.as_slice()) {
            Some(chars) => chars,
            None => Vec::new(),
        };
        assert(chars@ =~= exe_name(entries@[i as int]));
        if contains_text(chars.as_slice(), wanted.as_slice()) {
            return Some(entries[i].id);
        }
        assert(!occurs_in(name@, exe_name(entries@[i as int])));
        i += 1;
    }
    None
}

} // verus!
