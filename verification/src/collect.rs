//! Collecting the classes that the workers recover. Results come in any
//! order; of those that share a virtual table, the first is kept.

use crate::rtti::RTTIInfo;
use std::collections::HashSet;
use vstd::prelude::*;

verus! {

broadcast use vstd::std_specs::hash::group_hash_axioms;

/// Whether one of the classes has the virtual table at `vf_ptr`.
pub open spec fn holds_table(items: Seq<RTTIInfo>, vf_ptr: usize) -> bool {
    exists|i: int| 0 <= i < items.len() && (#[trigger] items[i]).vf_ptr == vf_ptr
}

/// Whether no two of the classes share a virtual table.
pub open spec fn tables_distinct(items: Seq<RTTIInfo>) -> bool {
    forall|i: int, j: int|
        0 <= i < j < items.len() ==> (#[trigger] items[i]).vf_ptr != (#[trigger] items[j]).vf_ptr
}

/// What is kept of the classes that arrived in the order `arrived`: each
/// class whose virtual table none before it has.
pub open spec fn kept_of(arrived: Seq<RTTIInfo>) -> Seq<RTTIInfo>
    decreases arrived.len(),
{
    if arrived.len() == 0 {
        Seq::empty()
    } else {
        let before = kept_of(arrived.drop_last());
        if holds_table(before, arrived.last().vf_ptr) {
            before
        } else {
            before.push(arrived.last())
        }
    }
}

/// No two of the classes that are kept share a virtual table, and a virtual
/// table is among those kept iff it is among those that arrived.
pub proof fn lemma_kept_is_distinct(arrived: Seq<RTTIInfo>)
    ensures
        tables_distinct(kept_of(arrived)),
        forall|v: usize|
            #![trigger holds_table(kept_of(arrived), v)]
            #![trigger holds_table(arrived, v)]
            holds_table(kept_of(arrived), v) <==> holds_table(arrived, v),
    decreases arrived.len(),
{
    if arrived.len() > 0 {
        let init = arrived.drop_last();
        let last = arrived.last();
        let before = kept_of(init);
        lemma_kept_is_distinct(init);
        let kept = kept_of(arrived);
        assert forall|v: usize| holds_table(kept, v) <==> holds_table(arrived, v) by {
            if holds_table(kept, v) {
                let i = choose|i: int| 0 <= i < kept.len() && (#[trigger] kept[i]).vf_ptr == v;
                if i < before.len() {
                    assert(before[i].vf_ptr == v);
                    assert(holds_table(before, v));
                    let j = choose|j: int| 0 <= j < init.len() && (#[trigger] init[j]).vf_ptr == v;
                    assert(arrived[j].vf_ptr == v);
                } else {
                    assert(arrived[arrived.len() - 1].vf_ptr == v);
                }
            }
            if holds_table(arrived, v) {
                let j = choose|j: int| 0 <= j < arrived.len() && (#[trigger] arrived[j]).vf_ptr == v;
                if j < init.len() {
                    assert(init[j].vf_ptr == v);
                    assert(holds_table(init, v));
                    let i = choose|i: int| 0 <= i < before.len() && (#[trigger] before[i]).vf_ptr == v;
                    assert(kept[i].vf_ptr == v);
                } else if holds_table(before, last.vf_ptr) {
                } else {
                    assert(kept[kept.len() - 1].vf_ptr == v);
                }
            }
        }
        if !holds_table(before, last.vf_ptr) {
            assert forall|i: int, j: int| 0 <= i < j < kept.len() implies (#[trigger] kept[i]).vf_ptr
                != (#[trigger] kept[j]).vf_ptr by {
                if j == kept.len() - 1 {
                    assert(before[i].vf_ptr == kept[i].vf_ptr);
                } else {
                    assert(before[i] == kept[i] && before[j] == kept[j]);
                }
            }
        }
    }
}

/// The classes collected so far.
pub struct RttiCollector {
    seen: HashSet<usize>,
    items: Vec<RTTIInfo>,
    arrived: Ghost<Seq<RTTIInfo>>,
}

impl RttiCollector {
    /// The classes that were offered, in the order in which they arrived.
    pub closed spec fn arrived(&self) -> Seq<RTTIInfo> {
        self.arrived@
    }

    /// The classes that are kept, in the order in which they arrived.
    pub closed spec fn kept(&self) -> Seq<RTTIInfo> {
        self.items@
    }

    /// What holds of every collector: what is kept is what is kept of the
    /// classes that arrived.
    pub closed spec fn wf(&self) -> bool {
        &&& self.items@ == kept_of(self.arrived@)
        &&& forall|v: usize|
            #![trigger self.seen@.contains(v)]
            #![trigger holds_table(self.items@, v)]
            self.seen@.contains(v) <==> holds_table(self.items@, v)
    }

    /// A collector to which nothing was offered.
    pub fn new() -> (c: RttiCollector)
        ensures
            c.wf(),
            c.arrived() == Seq::<RTTIInfo>::empty(),
            c.kept() == Seq::<RTTIInfo>::empty(),
    {
        RttiCollector { seen: HashSet::new(), items: Vec::new(), arrived: Ghost(Seq::empty()) }
    }

    /// Offers a class. It is kept unless a class with its virtual table is
    /// kept already; the result tells whether it was kept.
    pub fn offer(&mut self, info: RTTIInfo) -> (taken: bool)
        requires
            old(self).wf(),
        ensures
            final(self).wf(),
            final(self).arrived() == old(self).arrived().push(info),
            taken == !holds_table(old(self).kept(), info.vf_ptr),
            taken ==> final(self).kept() == old(self).kept().push(info),
            !taken ==> final(self).kept() == old(self).kept(),
    {
        let ghost before = self.items@;
        let ghost grown = self.arrived@.push(info);
        proof {
            assert(grown.drop_last() =~= self.arrived@);
        }
        let key = info.vf_ptr;
        if self.seen.contains(&key) {
            self.arrived = Ghost(grown);
            false
        } else {
            self.seen.insert(key);
            self.items.push(info);
            self.arrived = Ghost(grown);
            proof {
                let after = self.items@;
                assert forall|v: usize| self.seen@.contains(v) <==> holds_table(after, v) by {
                    if holds_table(after, v) {
                        let i = choose|i: int| 0 <= i < after.len() && (#[trigger] after[i]).vf_ptr == v;
                        if i < before.len() {
                            assert(before[i].vf_ptr == v);
                            assert(holds_table(before, v));
                        }
                    }
                    if self.seen@.contains(v) {
                        if v == key {
                            assert(after[after.len() - 1].vf_ptr == v);
                        } else {
                            assert(holds_table(before, v));
                            let i = choose|i: int| 0 <= i < before.len() && (#[trigger] before[i]).vf_ptr == v;
                            assert(after[i].vf_ptr == v);
                        }
                    }
                }
            }
            true
        }
    }

    /// The number of classes kept.
    pub fn len(&self) -> (n: usize)
        ensures
            n == self.kept().len(),
    {
        self.items.len()
    }

    /// The classes kept, in the order in which they arrived: no two of them
    /// share a virtual table, and each virtual table that arrived is among them.
    pub fn into_results(self) -> (r: Vec<RTTIInfo>)
        requires
            self.wf(),
        ensures
            r@ == self.kept(),
            r@ == kept_of(self.arrived()),
            tables_distinct(r@),
            forall|v: usize|
                #![trigger holds_table(r@, v)]
                #![trigger holds_table(self.arrived(), v)]
                holds_table(r@, v) <==> holds_table(self.arrived(), v),
    {
        proof {
            lemma_kept_is_distinct(self.arrived@);
        }
        self.items
    }
}

} // verus!
