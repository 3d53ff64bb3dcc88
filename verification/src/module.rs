//! The modules that are loaded in the inspected process.

use crate::error::ProcessError;
use crate::utf16::{decode_utf16_lossy, trim_nuls, trimmed, utf16_lossy};
use vstd::prelude::*;
use vstd::string::*;

verus! {

/// A module that is loaded in the inspected process.
#[derive(Debug, Clone)]
pub struct Module {
    pub name: String,
    pub base: usize,
    pub size: usize,
}

/// A module as the system lists it: its name in UTF-16, filled up with
/// zeros, and where it lies.
#[derive(Debug, Clone)]
pub struct ModuleEntry {
    pub name: Vec<u16>,
    pub base: usize,
    pub size: usize,
}

/// The name of a listed module as text: its units read as UTF-16, without
/// the zeros around them.
pub open spec fn entry_name(entry: ModuleEntry) -> Seq<char> {
    trimmed(utf16_lossy(entry.name@))
}

/// The index of the first of the listed modules that has the given name,
/// the number of modules where none has it.
pub open spec fn index_of_module(entries: Seq<ModuleEntry>, name: Seq<char>) -> int
    decreases entries.len(),
{
    if entries.len() == 0 || entry_name(entries[0]) == name {
        0
    } else {
        1 + index_of_module(entries.skip(1), name)
    }
}

/// Before the index found no module has the name, and the module at the
/// index has it.
pub proof fn lemma_index_of_module(entries: Seq<ModuleEntry>, name: Seq<char>)
    ensures
        0 <= index_of_module(entries, name) <= entries.len(),
        forall|k: int|
            0 <= k < index_of_module(entries, name) ==> entry_name(#[trigger] entries[k]) != name,
        index_of_module(entries, name) < entries.len() ==> entry_name(
            entries[index_of_module(entries, name)],
        ) == name,
    decreases entries.len(),
{
    if !(entries.len() == 0 || entry_name(entries[0]) == name) {
        let rest = entries.skip(1);
        lemma_index_of_module(rest, name);
        assert forall|k: int| 0 <= k < index_of_module(entries, name) implies entry_name(
            #[trigger] entries[k],
        ) != name by {
            if k > 0 {
                assert(entries[k] == rest[k - 1]);
            }
        }
        if index_of_module(entries, name) < entries.len() {
            assert(entries[index_of_module(entries, name)] == rest[index_of_module(rest, name)]);
        }
    }
}

/// Looks a module up by its name among the modules that the system lists:
/// the first whose name is exactly `name`. Where none has the name, the
/// module is not found.
pub fn find_module(entries: &[ModuleEntry], name: &str) -> (r: Result<Module, ProcessError>)
    ensures
        index_of_module(entries@, name@) < entries@.len() ==> r is Ok && r->Ok_0.name@ == name@
            && r->Ok_0.base == entries@[index_of_module(entries@, name@)].base && r->Ok_0.size
            == entries@[index_of_module(entries@, name@)].size,
        index_of_module(entries@, name@) >= entries@.len() ==> r is Err && r->Err_0
            == ProcessError::ModuleNotFound,
{
    let wanted = String::from_str(name);
    let mut i: usize = 0;
    proof {
        lemma_index_of_module(entries@, name@);
    }
    while i < entries.len()
        invariant
            i <= entries@.len(),
            wanted@ == name@,
            i <= index_of_module(entries@, name@) <= entries@.len(),
            forall|k: int|
                0 <= k < index_of_module(entries@, name@) ==> entry_name(#[trigger] entries@[k])
                    != name@,
            index_of_module(entries@, name@) < entries@.len() ==> entry_name(
                entries@[index_of_module(entries@, name@)],
            ) == name@,
        decreases entries@.len() - i,
    {
        let chars = decode_utf16_lossy(entries[i].name.as_slice());
        let text = trim_nuls(chars.as_slice());
        if text == wanted {
            assert(entry_name(entries@[i as int]) == name@);
            return Ok(Module { name: text, base: entries[i].base, size: entries[i].size });
        }
        assert(entry_name(entries@[i as int]) != name@);
        i += 1;
    }
    Err(ProcessError::ModuleNotFound)
}

} // verus!
