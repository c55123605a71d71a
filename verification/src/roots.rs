//! The table of objects that are kept alive, and values that own an entry in it.

use crate::handle::GapRef;
use vstd::multiset::Multiset;
use vstd::prelude::*;

verus! {

/// Table of held GAP object roots.
///
/// During garbage collection every object in the table is marked, so GAP will not
/// move or free it while a rooted handle is held. Roots are counted by entry:
/// adding the same object twice takes two removals.
#[derive(Debug)]
pub struct RootTable {
    refs: Vec<GapRef>,
}

impl View for RootTable {
    type V = Multiset<GapRef>;

    closed spec fn view(&self) -> Multiset<GapRef> {
        self.refs@.to_multiset()
    }
}

impl RootTable {
    /// The entries in the order in which they are marked.
    pub closed spec fn entries(&self) -> Seq<GapRef> {
        self.refs@
    }

    /// The table holds its entries, each as often as it was added.
    pub proof fn law_entries_are_roots(&self)
        ensures
            self@ == self.entries().to_multiset(),
    {
    }

    /// An empty table.
    pub fn new() -> (table: RootTable)
        ensures
            table.entries() == Seq::<GapRef>::empty(),
            table@ == Multiset::<GapRef>::empty(),
    {
        broadcast use vstd::seq_lib::group_to_multiset_ensures;

        let table = RootTable { refs: Vec::new() };
        assert(table@.len() == 0);
        assert(table@ =~= Multiset::empty());
        table
    }

    /// Adds `obj` to the table.
    pub fn root_obj(&mut self, obj: &GapRef)
        ensures
            final(self).entries() == old(self).entries().push(*obj),
            final(self)@ == old(self)@.insert(*obj),
    {
        broadcast use vstd::seq_lib::group_to_multiset_ensures;

        self.refs.push(*obj);
    }

    /// Removes one matching entry for `obj`. Missing roots are ignored.
    pub fn unroot_obj(&mut self, obj: &GapRef)
        ensures
            final(self)@ == old(self)@.remove(*obj),
            final(self).entries() == (match old(self).entries().index_of_first(*obj) {
                Some(i) => old(self).entries().remove(i),
                None => old(self).entries(),
            }),
    {
        broadcast use vstd::seq_lib::group_to_multiset_ensures;

        let mut i: usize = 0;
        while i < self.refs.len()
            invariant
                i <= self.refs.len(),
                self.refs@ == old(self).refs@,
                forall|j: int| 0 <= j < i ==> self.refs@[j] != *obj,
            decreases self.refs.len() - i,
        {
            if self.refs[i].obj == obj.obj {
                let ghost before = self.refs@;
                proof {
                    assert(before[i as int] == *obj);
                    before.index_of_first_ensures(*obj);
                    assert(before.index_of_first(*obj) == Some(i as int));
                    vstd::seq_lib::to_multiset_remove(before, i as int);
                }
                self.refs.remove(i);
                return;
            }
            i = i + 1;
        }
        proof {
            self.refs@.index_of_first_ensures(*obj);
            assert(!self.refs@.contains(*obj));
            assert(self@.count(*obj) == 0);
            assert(self@ =~= old(self)@.remove(*obj));
        }
    }

    /// The objects to mark during a GAP garbage collection, in order.
    pub fn mark_bag(&self) -> (objects: Vec<GapRef>)
        ensures
            objects@ == self.entries(),
            objects@.to_multiset() == self@,
    {
        let mut objects: Vec<GapRef> = Vec::new();
        let mut i: usize = 0;
        while i < self.refs.len()
            invariant
                i <= self.refs.len(),
                objects@ == self.refs@.take(i as int),
            decreases self.refs.len() - i,
        {
            objects.push(self.refs[i]);
            assert(self.refs@.take(i + 1) =~= self.refs@.take(i as int).push(self.refs@[i as int]));
            i = i + 1;
        }
        assert(self.refs@.take(i as int) =~= self.refs@);
        objects
    }
}

/// An owned, garbage-collector-rooted GAP value.
///
/// Each value owns one entry in the root table: duplicating it adds another entry,
/// and releasing it removes one. This makes the wrapped object safe to keep
/// across GAP allocations.
#[derive(Debug)]
pub struct GapValue {
    reference: GapRef,
}

impl View for GapValue {
    type V = GapRef;

    closed spec fn view(&self) -> GapRef {
        self.reference
    }
}

impl GapValue {
    /// Roots `reference` and returns an owned GAP value.
    pub fn new(reference: GapRef, roots: &mut RootTable) -> (value: GapValue)
        ensures
            value@ == reference,
            final(roots)@ == old(roots)@.insert(reference),
            final(roots).entries() == old(roots).entries().push(reference),
    {
        roots.root_obj(&reference);
        GapValue { reference }
    }

    /// Returns the unrooted handle for an explicitly low-level operation.
    ///
    /// The returned handle remains protected by this value's root for as long as
    /// this value is retained.
    pub fn as_unrooted(&self) -> (reference: GapRef)
        ensures
            reference == self@,
    {
        self.reference
    }

    /// Another value for the same object, with an entry of its own.
    pub fn duplicate(&self, roots: &mut RootTable) -> (value: GapValue)
        ensures
            value@ == self@,
            final(roots)@ == old(roots)@.insert(self@),
            final(roots).entries() == old(roots).entries().push(self@),
    {
        GapValue::new(self.reference, roots)
    }

    /// Gives the value up and removes its entry.
    pub fn release(self, roots: &mut RootTable)
        ensures
            final(roots)@ == old(roots)@.remove(self@),
            final(roots).entries() == (match old(roots).entries().index_of_first(self@) {
                Some(i) => old(roots).entries().remove(i),
                None => old(roots).entries(),
            }),
    {
        roots.unroot_obj(&self.reference);
    }
}

/// Rooting an object `count` times.
pub open spec fn rooted_times(roots: Multiset<GapRef>, obj: GapRef, count: nat) -> Multiset<GapRef>
    decreases count,
{
    if count == 0 {
        roots
    } else {
        rooted_times(roots, obj, (count - 1) as nat).insert(obj)
    }
}

/// Unrooting an object `count` times.
pub open spec fn unrooted_times(roots: Multiset<GapRef>, obj: GapRef, count: nat) -> Multiset<
    GapRef,
>
    decreases count,
{
    if count == 0 {
        roots
    } else {
        unrooted_times(roots, obj, (count - 1) as nat).remove(obj)
    }
}

/// Rooting an object several times takes as many removals to undo: with fewer it is
/// still rooted, with as many the table is as before.
pub proof fn law_roots_count(roots: Multiset<GapRef>, obj: GapRef, times: nat, removals: nat)
    requires
        removals <= times,
    ensures
        unrooted_times(rooted_times(roots, obj, times), obj, removals) == rooted_times(
            roots,
            obj,
            (times - removals) as nat,
        ),
        removals < times ==> unrooted_times(
            rooted_times(roots, obj, times),
            obj,
            removals,
        ).contains(obj),
    decreases removals,
{
    if removals > 0 {
        law_roots_count(roots, obj, times, (removals - 1) as nat);
        let left = rooted_times(roots, obj, (times - removals) as nat);
        assert(left.insert(obj).remove(obj) =~= left);
    }
}

/// Removing a root that is not there changes nothing.
pub proof fn law_missing_root_ignored(roots: Multiset<GapRef>, obj: GapRef)
    requires
        !roots.contains(obj),
    ensures
        roots.remove(obj) == roots,
{
    assert(roots.remove(obj) =~= roots);
}

/// Rooting or unrooting one object leaves the entries of every other object alone.
pub proof fn law_other_roots_kept(roots: Multiset<GapRef>, obj: GapRef, other: GapRef)
    requires
        obj != other,
    ensures
        roots.insert(obj).count(other) == roots.count(other),
        roots.remove(obj).count(other) == roots.count(other),
{
}

}
