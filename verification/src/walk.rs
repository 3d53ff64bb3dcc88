//! Recovering a class's name and its base classes from the live process.
//! The walk is a state machine: it names the next read, takes what was read
//! (or the news that the read failed) and decides where to read next.

use crate::bytes::{decode_string, from_le, le_value, lemma_le_value_bound, radix, text_of};
use crate::error::ProcessError;
use crate::rtti::{RTTIInfo, VtableSlot};
use vstd::prelude::*;

verus! {

/// The number of bytes read for a name.
pub const NAME_BYTES: usize = 255;

/// What a walk is about to read.
#[derive(Debug, Clone, Copy, PartialEq, Eq, Structural)]
pub enum WalkStage {
    /// The first eight bytes of the type descriptor, to see whether it is still there.
    Guard,
    /// The name of the class.
    Name,
    /// The locator's module-relative pointer to the class hierarchy descriptor.
    Hierarchy,
    /// The number of base classes.
    Count,
    /// The module-relative pointer to the base class array.
    Array,
    /// An element of the base class array: the module-relative pointer to a base class descriptor.
    BaseOffset,
    /// A base class descriptor's module-relative pointer to its type descriptor.
    BaseDescriptor,
    /// The name of a base class.
    BaseName,
    /// Nothing: the type descriptor was gone, and the walk gave no result.
    Skipped,
    /// Nothing: a read failed or an address left the address range.
    Failed,
    /// Nothing: the walk is complete.
    Complete,
}

/// The mathematical state of a walk.
pub struct WalkState {
    /// The address of the type descriptor.
    pub type_address: int,
    /// The address of the complete object locator.
    pub locator: int,
    /// The address at which the module is loaded.
    pub base: int,
    /// The address of the virtual-table slot that points to the locator.
    pub meta: int,
    /// What the walk is about to read.
    pub stage: WalkStage,
    /// The address of the next read.
    pub address: int,
    /// The address of the class hierarchy descriptor.
    pub hierarchy: int,
    /// The address of the base class array.
    pub array: int,
    /// The number of base classes.
    pub count: int,
    /// The name of the class.
    pub name: Seq<char>,
    /// The names of the base classes read so far.
    pub bases: Seq<Seq<char>>,
    /// Why the walk failed, where it did.
    pub failure: Option<ProcessError>,
}

impl WalkState {
    /// The state from which `stage` reads at `address`, or the failed state
    /// where that is no address.
    pub open spec fn goto(self, stage: WalkStage, address: int) -> WalkState {
        if 0 <= address <= usize::MAX {
            WalkState { stage, address, ..self }
        } else {
            self.fail(ProcessError::Overflow)
        }
    }

    /// The failed state.
    pub open spec fn fail(self, e: ProcessError) -> WalkState {
        WalkState { stage: WalkStage::Failed, failure: Some(e), ..self }
    }

    /// The state before the first read.
    pub open spec fn begin(type_address: int, slot: VtableSlot, base: int) -> WalkState {
        let blank = WalkState {
            type_address,
            locator: slot.locator as int,
            base,
            meta: slot.meta as int,
            stage: WalkStage::Guard,
            address: type_address,
            hierarchy: 0,
            array: 0,
            count: 0,
            name: Seq::empty(),
            bases: Seq::empty(),
            failure: None,
        };
        if slot.meta + 8 <= usize::MAX {
            blank
        } else {
            blank.fail(ProcessError::Overflow)
        }
    }

    /// The number of bytes that the walk reads next, 0 once it is over.
    pub open spec fn next_count(self) -> int {
        match self.stage {
            WalkStage::Guard => 8,
            WalkStage::Name | WalkStage::BaseName => 255,
            WalkStage::Hierarchy
            | WalkStage::Count
            | WalkStage::Array
            | WalkStage::BaseOffset
            | WalkStage::BaseDescriptor => 4,
            WalkStage::Skipped | WalkStage::Failed | WalkStage::Complete => 0,
        }
    }

    /// Whether the walk is over.
    pub open spec fn is_over(self) -> bool {
        self.next_count() == 0
    }

    /// The state after the next read failed. The walk goes on after a failed
    /// guard read, and fails with the address of any other read that failed.
    pub open spec fn after_failure(self) -> WalkState {
        if self.is_over() {
            self
        } else if self.stage == WalkStage::Guard {
            self.goto(WalkStage::Name, self.type_address + 0x10)
        } else {
            self.fail(ProcessError::ReadMemoryFail(self.address as usize))
        }
    }

    /// The state after the next read gave `bytes`.
    pub open spec fn after_read(self, bytes: Seq<u8>) -> WalkState {
        match self.stage {
            WalkStage::Guard => if le_value(bytes) == 0 {
                WalkState { stage: WalkStage::Skipped, ..self }
            } else {
                self.goto(WalkStage::Name, self.type_address + 0x10)
            },
            WalkStage::Name => WalkState { name: text_of(bytes, Seq::empty()), ..self }.goto(
                WalkStage::Hierarchy,
                self.locator + 0x10,
            ),
            WalkStage::Hierarchy => {
                let hierarchy = le_value(bytes) + self.base;
                if hierarchy <= usize::MAX {
                    WalkState { hierarchy, ..self }.goto(WalkStage::Count, hierarchy + 0x8)
                } else {
                    self.fail(ProcessError::Overflow)
                }
            },
            WalkStage::Count => WalkState { count: le_value(bytes), ..self }.goto(
                WalkStage::Array,
                self.hierarchy + 0xC,
            ),
            WalkStage::Array => {
                let array = le_value(bytes) + self.base;
                if array > usize::MAX {
                    self.fail(ProcessError::Overflow)
                } else if self.count == 0 {
                    WalkState { array, stage: WalkStage::Complete, ..self }
                } else {
                    WalkState { array, ..self }.goto(WalkStage::BaseOffset, array)
                }
            },
            WalkStage::BaseOffset => self.goto(
                WalkStage::BaseDescriptor,
                le_value(bytes) + self.base,
            ),
            WalkStage::BaseDescriptor => {
                let descriptor = le_value(bytes) + self.base;
                if descriptor <= usize::MAX {
                    self.goto(WalkStage::BaseName, descriptor + 0x10)
                } else {
                    self.fail(ProcessError::Overflow)
                }
            },
            WalkStage::BaseName => {
                let grown = WalkState {
                    bases: self.bases.push(text_of(bytes, Seq::empty())),
                    ..self
                };
                if grown.bases.len() >= self.count {
                    WalkState { stage: WalkStage::Complete, ..grown }
                } else {
                    grown.goto(WalkStage::BaseOffset, grown.bases.len() * 4 + self.array)
                }
            },
            WalkStage::Skipped | WalkStage::Failed | WalkStage::Complete => self,
        }
    }

    /// What holds of every state of a walk.
    pub open spec fn wf(self) -> bool {
        &&& 0 <= self.type_address <= usize::MAX
        &&& 0 <= self.locator <= usize::MAX
        &&& 0 <= self.base <= usize::MAX
        &&& 0 <= self.meta
        &&& 0 <= self.address <= usize::MAX
        &&& 0 <= self.hierarchy <= usize::MAX
        &&& 0 <= self.array <= usize::MAX
        &&& 0 <= self.count < 0x1_0000_0000
        &&& self.bases.len() <= self.count
        &&& (self.stage == WalkStage::Failed <==> self.failure is Some)
        &&& (self.stage != WalkStage::Failed ==> self.meta + 8 <= usize::MAX)
        &&& (self.stage == WalkStage::Complete ==> self.bases.len() == self.count)
        &&& (self.stage == WalkStage::Guard || self.stage == WalkStage::Name || self.stage
            == WalkStage::Hierarchy || self.stage == WalkStage::Count || self.stage
            == WalkStage::Array ==> self.bases.len() == 0)
        &&& (self.stage == WalkStage::BaseOffset || self.stage == WalkStage::BaseDescriptor
            || self.stage == WalkStage::BaseName ==> self.bases.len() < self.count)
    }
}

/// The names that a walk recovers.
pub struct ClassNames {
    /// The name of the class.
    pub name: Seq<char>,
    /// The names of its base classes, in the order of the base class array.
    pub bases: Seq<Seq<char>>,
}

/// Whether `count` bytes from `address` on can be read in the memory `mem`,
/// which holds the byte at each address that can be read.
pub open spec fn readable(mem: Map<int, u8>, address: int, count: int) -> bool {
    forall|a: int| address <= a < address + count ==> #[trigger] mem.dom().contains(a)
}

/// The `count` bytes from `address` on.
pub open spec fn bytes_at(mem: Map<int, u8>, address: int, count: int) -> Seq<u8> {
    Seq::new(count as nat, |i: int| mem[address + i])
}

/// The four-byte number at `address`, which is to be an address itself.
pub open spec fn word_at(mem: Map<int, u8>, address: int) -> Result<int, ProcessError> {
    if address > usize::MAX {
        Err(ProcessError::Overflow)
    } else if !readable(mem, address, 4) {
        Err(ProcessError::ReadMemoryFail(address as usize))
    } else {
        Ok(le_value(bytes_at(mem, address, 4)))
    }
}

/// The four-byte module-relative pointer at `address`, as the address that it points to.
pub open spec fn pointer_at(mem: Map<int, u8>, base: int, address: int) -> Result<
    int,
    ProcessError,
> {
    match word_at(mem, address) {
        Err(e) => Err(e),
        Ok(offset) => if offset + base > usize::MAX {
            Err(ProcessError::Overflow)
        } else {
            Ok(offset + base)
        },
    }
}

/// The name in the 255 bytes at `address`.
pub open spec fn name_at(mem: Map<int, u8>, address: int) -> Result<Seq<char>, ProcessError> {
    if address > usize::MAX {
        Err(ProcessError::Overflow)
    } else if !readable(mem, address, 255) {
        Err(ProcessError::ReadMemoryFail(address as usize))
    } else {
        Ok(text_of(bytes_at(mem, address, 255), Seq::empty()))
    }
}

/// The name of the base class whose descriptor the element `i` of the base
/// class array at `array` points to: the element points to the base class
/// descriptor, that to the type descriptor, and the name lies 16 bytes into it.
pub open spec fn base_name(mem: Map<int, u8>, base: int, array: int, i: int) -> Result<
    Seq<char>,
    ProcessError,
> {
    match word_at(mem, i * 4 + array) {
        Err(e) => Err(e),
        Ok(offset) => match pointer_at(mem, base, offset + base) {
            Err(e) => Err(e),
            Ok(descriptor) => name_at(mem, descriptor + 0x10),
        },
    }
}

/// The names of the base classes from element `i` of the base class array
/// on, up to element `count`; the first that cannot be had decides the error.
pub open spec fn base_names(mem: Map<int, u8>, base: int, array: int, count: int, i: int) -> Result<
    Seq<Seq<char>>,
    ProcessError,
>
    decreases count - i,
{
    if i >= count {
        Ok(Seq::empty())
    } else {
        match base_name(mem, base, array, i) {
            Err(e) => Err(e),
            Ok(name) => match base_names(mem, base, array, count, i + 1) {
                Err(e) => Err(e),
                Ok(rest) => Ok(seq![name] + rest),
            },
        }
    }
}

/// The names of the class whose type descriptor lies at `type_address` and
/// whose locator lies at `locator`, as the memory `mem` holds them: the
/// class's name lies 16 bytes into the type descriptor; the locator points,
/// 16 bytes in, to the class hierarchy descriptor, which holds the number of
/// base classes 8 bytes in and the pointer to the base class array 12 bytes
/// in. `None` where the type descriptor's first eight bytes read as zero.
pub open spec fn class_names(mem: Map<int, u8>, type_address: int, locator: int, base: int) -> Result<
    Option<ClassNames>,
    ProcessError,
> {
    if readable(mem, type_address, 8) && le_value(bytes_at(mem, type_address, 8)) == 0 {
        Ok(None)
    } else {
        match name_at(mem, type_address + 0x10) {
            Err(e) => Err(e),
            Ok(name) => match pointer_at(mem, base, locator + 0x10) {
                Err(e) => Err(e),
                Ok(hierarchy) => match word_at(mem, hierarchy + 0x8) {
                    Err(e) => Err(e),
                    Ok(count) => match pointer_at(mem, base, hierarchy + 0xC) {
                        Err(e) => Err(e),
                        Ok(array) => match base_names(mem, base, array, count, 0) {
                            Err(e) => Err(e),
                            Ok(bases) => Ok(Some(ClassNames { name, bases })),
                        },
                    },
                },
            },
        }
    }
}

impl WalkState {
    /// The state after the next read, where the memory of the process is `mem`.
    pub open spec fn step(self, mem: Map<int, u8>) -> WalkState {
        if readable(mem, self.address, self.next_count()) {
            self.after_read(bytes_at(mem, self.address, self.next_count()))
        } else {
            self.after_failure()
        }
    }

    /// A bound on the number of reads that are left.
    pub open spec fn measure(self) -> nat {
        let left = (self.count - self.bases.len()) as nat;
        match self.stage {
            WalkStage::Guard => 0x3_0000_0000_8,
            WalkStage::Name => 0x3_0000_0000_7,
            WalkStage::Hierarchy => 0x3_0000_0000_6,
            WalkStage::Count => 0x3_0000_0000_5,
            WalkStage::Array => 0x3_0000_0000_4,
            WalkStage::BaseOffset => 3 * left,
            WalkStage::BaseDescriptor => (3 * left - 1) as nat,
            WalkStage::BaseName => (3 * left - 2) as nat,
            WalkStage::Skipped | WalkStage::Failed | WalkStage::Complete => 0,
        }
    }

    /// The state at the end of the walk, where the memory of the process is `mem`.
    pub open spec fn run(self, mem: Map<int, u8>) -> WalkState
        decreases self.measure(),
    {
        if self.is_over() || !self.wf() {
            self
        } else {
            proof {
                lemma_step_goes_on(self, mem);
            }
            self.step(mem).run(mem)
        }
    }

    /// What the walk gave: the names where it is complete, nothing where
    /// the type descriptor was gone, the error where it failed.
    pub open spec fn outcome(self) -> Result<Option<ClassNames>, ProcessError> {
        match self.stage {
            WalkStage::Failed => Err(self.failure->0),
            WalkStage::Complete => Ok(Some(ClassNames { name: self.name, bases: self.bases })),
            _ => Ok(None),
        }
    }
}

/// A read keeps the state of a walk well-formed and brings the walk nearer to its end.
pub proof fn lemma_step_goes_on(state: WalkState, mem: Map<int, u8>)
    requires
        state.wf(),
        !state.is_over(),
    ensures
        state.step(mem).wf(),
        state.step(mem).measure() < state.measure(),
        state.step(mem).type_address == state.type_address,
        state.step(mem).locator == state.locator,
        state.step(mem).base == state.base,
        state.step(mem).meta == state.meta,
{
    let bytes = bytes_at(mem, state.address, state.next_count());
    lemma_le_value_bound(bytes);
    reveal_with_fuel(radix, 5);
}

/// From the first element of the base class array that is not yet read,
/// a walk goes on to the names of the base classes that are left, or to the
/// first error among them.
pub proof fn lemma_run_reads_bases(state: WalkState, mem: Map<int, u8>)
    requires
        state.wf(),
        state.stage == WalkStage::BaseOffset,
        state.address == state.bases.len() * 4 + state.array,
    ensures
        state.run(mem).outcome() == (match base_names(
            mem,
            state.base,
            state.array,
            state.count,
            state.bases.len() as int,
        ) {
            Err(e) => Err::<Option<ClassNames>, ProcessError>(e),
            Ok(rest) => Ok(Some(ClassNames { name: state.name, bases: state.bases + rest })),
        }),
    decreases state.count - state.bases.len(),
{
    let i = state.bases.len() as int;
    let words = bytes_at(mem, state.address, 4);
    lemma_le_value_bound(words);
    reveal_with_fuel(radix, 5);
    lemma_step_goes_on(state, mem);
    let second = state.step(mem);
    assert(state.run(mem) == second.run(mem));
    if second.stage == WalkStage::BaseDescriptor {
        lemma_le_value_bound(bytes_at(mem, second.address, 4));
        lemma_step_goes_on(second, mem);
        let third = second.step(mem);
        assert(second.run(mem) == third.run(mem));
        if third.stage == WalkStage::BaseName {
            lemma_step_goes_on(third, mem);
            let fourth = third.step(mem);
            assert(third.run(mem) == fourth.run(mem));
            if fourth.stage == WalkStage::BaseOffset {
                lemma_run_reads_bases(fourth, mem);
                let name = base_name(mem, state.base, state.array, i)->Ok_0;
                assert(fourth.bases == state.bases.push(name));
                match base_names(mem, state.base, state.array, state.count, i + 1) {
                    Ok(rest) => {
                        assert(fourth.bases + rest =~= state.bases + (seq![name] + rest));
                    },
                    Err(_) => {},
                }
            } else if fourth.stage == WalkStage::Complete {
                let name = base_name(mem, state.base, state.array, i)->Ok_0;
                assert(fourth.bases == state.bases.push(name));
                assert(base_names(mem, state.base, state.array, state.count, i + 1) == Ok::<
                    Seq<Seq<char>>,
                    ProcessError,
                >(Seq::empty()));
                assert(fourth.bases =~= state.bases + (seq![name] + Seq::<Seq<char>>::empty()));
                assert(fourth.run(mem) == fourth);
            } else {
                assert(fourth.run(mem) == fourth);
            }
        } else {
            assert(third.run(mem) == third);
        }
    } else {
        assert(second.run(mem) == second);
    }
}

/// A walk in which every read gives what the memory `mem` holds, or fails
/// where `mem` cannot be read, ends with the names of the class as `mem`
/// holds them.
pub proof fn lemma_walk_recovers_class(
    mem: Map<int, u8>,
    type_address: int,
    slot: VtableSlot,
    base: int,
)
    requires
        0 <= type_address <= usize::MAX,
        0 <= base <= usize::MAX,
        slot.meta + 8 <= usize::MAX,
    ensures
        WalkState::begin(type_address, slot, base).run(mem).outcome() == class_names(
            mem,
            type_address,
            slot.locator as int,
            base,
        ),
{
    reveal_with_fuel(radix, 5);
    let s0 = WalkState::begin(type_address, slot, base);
    assert(s0.wf());
    lemma_step_goes_on(s0, mem);
    let s1 = s0.step(mem);
    assert(s0.run(mem) == s1.run(mem));
    if s1.stage != WalkStage::Name {
        assert(s1.run(mem) == s1);
    } else {
        lemma_step_goes_on(s1, mem);
        let s2 = s1.step(mem);
        assert(s1.run(mem) == s2.run(mem));
        if s2.stage != WalkStage::Hierarchy {
            assert(s2.run(mem) == s2);
        } else {
            lemma_le_value_bound(bytes_at(mem, s2.address, 4));
            lemma_step_goes_on(s2, mem);
            let s3 = s2.step(mem);
            assert(s2.run(mem) == s3.run(mem));
            if s3.stage != WalkStage::Count {
                assert(s3.run(mem) == s3);
            } else {
                lemma_le_value_bound(bytes_at(mem, s3.address, 4));
                lemma_step_goes_on(s3, mem);
                let s4 = s3.step(mem);
                assert(s3.run(mem) == s4.run(mem));
                if s4.stage != WalkStage::Array {
                    assert(s4.run(mem) == s4);
                } else {
                    lemma_le_value_bound(bytes_at(mem, s4.address, 4));
                    lemma_step_goes_on(s4, mem);
                    let s5 = s4.step(mem);
                    assert(s4.run(mem) == s5.run(mem));
                    if s5.stage == WalkStage::BaseOffset {
                        lemma_run_reads_bases(s5, mem);
                        match base_names(mem, base, s5.array, s5.count, 0) {
                            Ok(rest) => {
                                assert(s5.bases + rest =~= rest);
                            },
                            Err(_) => {},
                        }
                    } else {
                        assert(s5.run(mem) == s5);
                        if s5.stage == WalkStage::Complete {
                            assert(s5.bases =~= Seq::<Seq<char>>::empty());
                        }
                    }
                }
            }
        }
    }
}

/// A walk in progress.
pub struct RttiWalk {
    type_address: usize,
    locator: usize,
    base: usize,
    meta: usize,
    stage: WalkStage,
    address: usize,
    hierarchy: usize,
    array: usize,
    count: u32,
    name: String,
    bases: Vec<String>,
    failure: Option<ProcessError>,
}

/// The texts of strings, in order.
pub open spec fn texts(names: Seq<String>) -> Seq<Seq<char>> {
    Seq::new(names.len(), |i: int| names[i]@)
}

impl View for RttiWalk {
    type V = WalkState;

    closed spec fn view(&self) -> WalkState {
        WalkState {
            type_address: self.type_address as int,
            locator: self.locator as int,
            base: self.base as int,
            meta: self.meta as int,
            stage: self.stage,
            address: self.address as int,
            hierarchy: self.hierarchy as int,
            array: self.array as int,
            count: self.count as int,
            name: self.name@,
            bases: texts(self.bases@),
            failure: self.failure,
        }
    }
}

impl RttiWalk {
    /// Begins the walk for the type descriptor at `type_address`, whose
    /// locator and virtual-table slot are `slot`, in a module loaded at `base`.
    pub fn new(type_address: usize, slot: VtableSlot, base: usize) -> (w: RttiWalk)
        ensures
            w@ == WalkState::begin(type_address as int, slot, base as int),
            w@.wf(),
    {
        let fits = slot.meta <= usize::MAX - 8;
        let w = RttiWalk {
            type_address,
            locator: slot.locator,
            base,
            meta: slot.meta,
            stage: if fits {
                WalkStage::Guard
            } else {
                WalkStage::Failed
            },
            address: type_address,
            hierarchy: 0,
            array: 0,
            count: 0,
            name: String::new(),
            bases: Vec::new(),
            failure: if fits {
                None
            } else {
                Some(ProcessError::Overflow)
            },
        };
        assert(w@.bases =~= Seq::<Seq<char>>::empty());
        w
    }

    /// The next read, as its address and its number of bytes; `None` once
    /// the walk is over.
    pub fn next_read(&self) -> (r: Option<(usize, usize)>)
        requires
            self@.wf(),
        ensures
            self@.is_over() ==> r is None,
            !self@.is_over() ==> r == Some((self@.address as usize, self@.next_count() as usize)),
    {
        match self.stage {
            WalkStage::Guard => Some((self.address, 8)),
            WalkStage::Name | WalkStage::BaseName => Some((self.address, NAME_BYTES)),
            WalkStage::Hierarchy
            | WalkStage::Count
            | WalkStage::Array
            | WalkStage::BaseOffset
            | WalkStage::BaseDescriptor => Some((self.address, 4)),
            WalkStage::Skipped | WalkStage::Failed | WalkStage::Complete => None,
        }
    }

    /// Goes to `stage`, which reads at `a + b`, or fails where that is no address.
    fn advance(&mut self, stage: WalkStage, a: usize, b: usize)
        requires
            old(self)@.wf(),
            !old(self)@.is_over(),
            stage != WalkStage::Failed,
            stage != WalkStage::Complete,
            stage == WalkStage::BaseOffset || stage == WalkStage::BaseDescriptor || stage
                == WalkStage::BaseName ==> old(self)@.bases.len() < old(self)@.count,
            stage == WalkStage::Guard || stage == WalkStage::Name || stage == WalkStage::Hierarchy
                || stage == WalkStage::Count || stage == WalkStage::Array ==> old(
                self,
            )@.bases.len() == 0,
        ensures
            final(self)@ == old(self)@.goto(stage, a + b),
            final(self)@.wf(),
    {
        match a.checked_add(b) {
            Some(address) => {
                self.stage = stage;
                self.address = address;
            },
            None => {
                self.stage = WalkStage::Failed;
                self.failure = Some(ProcessError::Overflow);
            },
        }
    }

    /// Takes the news that the next read failed.
    pub fn read_failed(&mut self)
        requires
            old(self)@.wf(),
        ensures
            final(self)@ == old(self)@.after_failure(),
            final(self)@.wf(),
    {
        match self.stage {
            WalkStage::Skipped | WalkStage::Failed | WalkStage::Complete => {},
            WalkStage::Guard => {
                self.advance(WalkStage::Name, self.type_address, 0x10);
            },
            _ => {
                self.stage = WalkStage::Failed;
                self.failure = Some(ProcessError::ReadMemoryFail(self.address));
            },
        }
    }

    /// Takes the bytes that the next read gave.
    pub fn read_done(&mut self, bytes: &[u8])
        requires
            old(self)@.wf(),
            bytes@.len() == old(self)@.next_count(),
        ensures
            final(self)@ == old(self)@.after_read(bytes@),
            final(self)@.wf(),
    {
        let ghost before = self@;
        match self.stage {
            WalkStage::Guard => {
                if from_le(bytes) == 0 {
                    self.stage = WalkStage::Skipped;
                } else {
                    self.advance(WalkStage::Name, self.type_address, 0x10);
                }
            },
            WalkStage::Name => {
                let no_stops: Vec<char> = Vec::new();
                self.name = decode_string(bytes, no_stops.as_slice());
                assert(no_stops@ =~= Seq::<char>::empty());
                self.advance(WalkStage::Hierarchy, self.locator, 0x10);
            },
            WalkStage::Hierarchy => {
                let value = self.word(bytes);
                match value.checked_add(self.base) {
                    Some(hierarchy) => {
                        self.hierarchy = hierarchy;
                        self.advance(WalkStage::Count, hierarchy, 0x8);
                    },
                    None => {
                        self.stage = WalkStage::Failed;
                        self.failure = Some(ProcessError::Overflow);
                    },
                }
            },
            WalkStage::Count => {
                let value = self.word(bytes);
                self.count = value as u32;
                self.advance(WalkStage::Array, self.hierarchy, 0xC);
            },
            WalkStage::Array => {
                let value = self.word(bytes);
                match value.checked_add(self.base) {
                    Some(array) => {
                        if self.count == 0 {
                            self.array = array;
                            self.stage = WalkStage::Complete;
                        } else {
                            self.array = array;
                            self.advance(WalkStage::BaseOffset, array, 0);
                        }
                    },
                    None => {
                        self.stage = WalkStage::Failed;
                        self.failure = Some(ProcessError::Overflow);
                    },
                }
            },
            WalkStage::BaseOffset => {
                let value = self.word(bytes);
                self.advance(WalkStage::BaseDescriptor, value, self.base);
            },
            WalkStage::BaseDescriptor => {
                let value = self.word(bytes);
                match value.checked_add(self.base) {
                    Some(descriptor) => {
                        self.advance(WalkStage::BaseName, descriptor, 0x10);
                    },
                    None => {
                        self.stage = WalkStage::Failed;
                        self.failure = Some(ProcessError::Overflow);
                    },
                }
            },
            WalkStage::BaseName => {
                let no_stops: Vec<char> = Vec::new();
                let name = decode_string(bytes, no_stops.as_slice());
                assert(no_stops@ =~= Seq::<char>::empty());
                self.bases.push(name);
                assert(self@.bases =~= before.bases.push(text_of(bytes@, Seq::empty())));
                let read = self.bases.len();
                if read >= self.count as usize {
                    self.stage = WalkStage::Complete;
                } else {
                    match read.checked_mul(4) {
                        Some(offset) => {
                            self.advance(WalkStage::BaseOffset, offset, self.array);
                        },
                        None => {
                            self.stage = WalkStage::Failed;
                            self.failure = Some(ProcessError::Overflow);
                        },
                    }
                }
            },
            WalkStage::Skipped | WalkStage::Failed | WalkStage::Complete => {},
        }
    }

    /// The number that four bytes stand for, as an address offset.
    fn word(&self, bytes: &[u8]) -> (v: usize)
        requires
            bytes@.len() == 4,
        ensures
            v == le_value(bytes@),
            v < 0x1_0000_0000,
    {
        proof {
            lemma_le_value_bound(bytes@);
            reveal_with_fuel(radix, 5);
        }
        from_le(bytes) as usize
    }

    /// Whether the walk is over.
    pub fn is_over(&self) -> (r: bool)
        ensures
            r == self@.is_over(),
    {
        match self.stage {
            WalkStage::Skipped | WalkStage::Failed | WalkStage::Complete => true,
            _ => false,
        }
    }

    /// What the walk gave: the class where the walk is complete, nothing
    /// where the type descriptor was gone or the walk is not over, the error
    /// where it failed.
    pub fn finish(self) -> (r: Result<Option<RTTIInfo>, ProcessError>)
        requires
            self@.wf(),
        ensures
            self@.stage == WalkStage::Failed ==> r == Err::<Option<RTTIInfo>, ProcessError>(
                self@.failure->0,
            ),
            self@.stage == WalkStage::Complete ==> r is Ok && r->Ok_0 is Some && ({
                let info = r->Ok_0->0;
                &&& info.vf_ptr == self@.meta + 8
                &&& info.vf_meta == self@.meta
                &&& info.type_desc@ == self@.name
                &&& texts(info.base_class@) == self@.bases
            }),
            self@.stage != WalkStage::Failed && self@.stage != WalkStage::Complete ==> r == Ok::<
                Option<RTTIInfo>,
                ProcessError,
            >(None),
    {
        match self.stage {
            WalkStage::Failed => match self.failure {
                Some(e) => Err(e),
                None => Ok(None),
            },
            WalkStage::Complete => Ok(
                Some(
                    RTTIInfo {
                        vf_ptr: self.meta + 8,
                        vf_meta: self.meta,
                        type_desc: self.name,
                        base_class: self.bases,
                    },
                ),
            ),
            _ => Ok(None),
        }
    }
}

} // verus!
