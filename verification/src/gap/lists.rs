//! GAP lists.

use crate::error::GapError;
use crate::gap::{plain, roots_with, Gap, GapView};
use crate::handle::{GapRef, Obj};
use crate::kernel::{Answer, Call, Event, Kernel};
use crate::roots::GapValue;
use crate::session::{asked, lemma_asked, lemma_silent};
use vstd::prelude::*;

verus! {

/// What reading a list element comes to: GAP counts positions from one.
pub open spec fn element_read(
    before: GapView,
    after: GapView,
    list: GapRef,
    idx: usize,
    result: Result<GapRef, GapError>,
) -> bool {
    &&& after.handles == before.handles
    &&& result is Ok
    &&& asked(
        before.session,
        after.session,
        Call::ListElement { list: list.obj, position: (idx + 1) as usize },
        Answer::Object(result->Ok_0.obj),
    )
}

/// The calls that build the plain list `list` with the given elements.
pub open spec fn list_calls(events: Seq<Event>, elements: Seq<Obj>, list: Obj) -> bool {
    let n = elements.len() as int;
    &&& events.len() == n + 3
    &&& events[0].call == (Call::NewPlist { capacity: n as usize })
    &&& events[0].answer == Answer::Object(list)
    &&& events[1].call == (Call::SetPlistLength { list, length: n as usize })
    &&& forall|i: int|
        2 <= i < n + 2 ==> (#[trigger] events[i]).call == (Call::SetPlistElement {
            list,
            position: (i - 1) as usize,
            element: elements[i - 2],
        })
    &&& events[n + 2].call == (Call::ChangedBag { list })
}

/// What building a list comes to.
pub open spec fn list_made(
    before: GapView,
    after: GapView,
    elements: Seq<Obj>,
    list: GapRef,
) -> bool {
    let events = after.session.since(before.session);
    &&& after.handles == before.handles
    &&& after.session.spoke(before.session, events)
    &&& list_calls(events, elements, list.obj)
}

/// What asking for a list's length comes to.
pub open spec fn length_read(
    before: GapView,
    after: GapView,
    list: GapRef,
    length: usize,
) -> bool {
    let event = after.session.trace.last();
    &&& after.handles == before.handles
    &&& asked(
        before.session,
        after.session,
        Call::ListLength { list: list.obj },
        event.answer,
    )
    &&& event.answer is Integer
    &&& length == event.integer() as usize
}

/// The object words of handles.
pub open spec fn ref_objs(refs: Seq<GapRef>) -> Seq<Obj> {
    refs.map_values(|r: GapRef| r.obj)
}

/// The object words of owned values.
pub open spec fn value_objs(values: Seq<GapValue>) -> Seq<Obj> {
    values.map_values(|v: GapValue| v@.obj)
}

impl<K: Kernel> Gap<K> {
    /// Returns a GC-rooted value from a GAP list using a zero-based index.
    pub fn list_get(&mut self, list: &GapValue, idx: usize) -> (result: Result<GapValue, GapError>)
        requires
            idx < usize::MAX,
        ensures
            element_read(
                old(self)@,
                final(self)@.with_roots(old(self)@.roots()),
                list@,
                idx,
                plain(result),
            ),
            final(self)@.roots() == roots_with(old(self)@.roots(), result),
    {
        match self.list_get_unrooted(list.as_unrooted(), idx) {
            Ok(reference) => Ok(self.session.root(reference)),
            Err(e) => Err(e),
        }
    }

    /// Returns an unrooted value from a GAP list using a zero-based index.
    ///
    /// Prefer [`Gap::list_get`].
    pub fn list_get_unrooted(&mut self, list: GapRef, idx: usize) -> (result: Result<
        GapRef,
        GapError,
    >)
        requires
            idx < usize::MAX,
        ensures
            element_read(old(self)@, final(self)@, list, idx, result),
    {
        let obj = self.session.list_element(list.obj, idx + 1);
        Ok(GapRef { obj })
    }

    /// Deprecated alias for [`Gap::list_get_unrooted`].
    pub fn get_list_elem(&mut self, list: &GapRef, idx: usize) -> (result: Result<
        GapRef,
        GapError,
    >)
        requires
            idx < usize::MAX,
        ensures
            element_read(old(self)@, final(self)@, *list, idx, result),
    {
        self.list_get_unrooted(*list, idx)
    }

    /// Builds a GC-rooted mutable GAP plain list from already-created values.
    ///
    /// GAP lists are one-based, so each slice element is written at position
    /// `idx + 1`.
    pub fn list(&mut self, elements: &[GapValue]) -> (result: GapValue)
        ensures
            list_made(
                old(self)@,
                final(self)@.with_roots(old(self)@.roots()),
                value_objs(elements@),
                result@,
            ),
            final(self)@.roots() == old(self)@.roots().insert(result@),
    {
        let mut refs: Vec<GapRef> = Vec::new();
        let mut i: usize = 0;
        while i < elements.len()
            invariant
                i <= elements.len(),
                refs@.len() == i,
                forall|j: int| 0 <= j < i ==> refs@[j] == (#[trigger] elements@[j])@,
            decreases elements.len() - i,
        {
            refs.push(elements[i].as_unrooted());
            i = i + 1;
        }
        assert(ref_objs(refs@) =~= value_objs(elements@));
        let reference = self.list_unrooted(refs.as_slice());
        self.session.root(reference)
    }

    /// Builds an unrooted mutable GAP plain list from unrooted handles.
    ///
    /// Prefer [`Gap::list`].
    pub fn list_unrooted(&mut self, elements: &[GapRef]) -> (result: GapRef)
        ensures
            list_made(old(self)@, final(self)@, ref_objs(elements@), result),
    {
        broadcast use lemma_asked;

        let ghost start = self.session@;
        proof {
            lemma_silent(start);
        }
        let n: usize = elements.len();
        let list = self.session.new_plist(n);
        self.session.set_plist_length(list, n);
        let mut idx: usize = 0;
        while idx < n
            invariant
                idx <= n == elements@.len(),
                self.handles == old(self).handles,
                self.session@.spoke(start, self.session@.since(start)),
                ({
                    let events = self.session@.since(start);
                    &&& events.len() == idx + 2
                    &&& events[0].call == (Call::NewPlist { capacity: n })
                    &&& events[0].answer == Answer::Object(list)
                    &&& events[1].call == (Call::SetPlistLength { list, length: n })
                    &&& forall|i: int|
                        2 <= i < idx + 2 ==> (#[trigger] events[i]).call == (Call::SetPlistElement {
                            list,
                            position: (i - 1) as usize,
                            element: elements@[i - 2].obj,
                        })
                }),
            decreases n - idx,
        {
            let ghost middle = self.session@;
            let position: usize = idx + 1;
            self.session.set_plist_element(list, position, elements[idx].obj);
            proof {
                lemma_asked(
                    start,
                    middle,
                    self.session@,
                    Call::SetPlistElement { list, position, element: elements@[idx as int].obj },
                    Answer::Nothing,
                );
            }
            idx = idx + 1;
        }
        self.session.changed_bag(list);
        GapRef { obj: list }
    }

    /// Deprecated alias for [`Gap::list`], on unrooted handles.
    pub fn list_rooted(&mut self, elements: &[GapRef]) -> (result: GapValue)
        ensures
            list_made(
                old(self)@,
                final(self)@.with_roots(old(self)@.roots()),
                ref_objs(elements@),
                result@,
            ),
            final(self)@.roots() == old(self)@.roots().insert(result@),
    {
        let reference = self.list_unrooted(elements);
        self.session.root(reference)
    }

    /// Returns the length of a GAP list.
    pub fn list_len(&mut self, list: &GapValue) -> (length: usize)
        ensures
            length_read(old(self)@, final(self)@, list@, length),
    {
        self.list_len_unrooted(list.as_unrooted())
    }

    /// Returns the length of a list referenced by an unrooted handle.
    pub fn list_len_unrooted(&mut self, list: GapRef) -> (length: usize)
        ensures
            length_read(old(self)@, final(self)@, list, length),
    {
        self.session.list_length(list.obj) as usize
    }
}

}
