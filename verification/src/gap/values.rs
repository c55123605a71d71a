//! Rooting handles, and converting integers and booleans.

use crate::error::GapError;
use crate::gap::{Gap, GapView};
use crate::handle::GapRef;
use crate::kernel::{Answer, Call, Constants, Kernel};
use crate::roots::GapValue;
use crate::session::asked;
use vstd::prelude::*;

verus! {

/// The count that a GAP integer stands for, if it is not negative.
pub open spec fn count_of(value: i64) -> Result<usize, GapError> {
    if value < 0 {
        Err(GapError::NegativeInteger(value))
    } else {
        Ok(value as usize)
    }
}

/// What converting an integer object to a count comes to.
pub open spec fn counted(
    before: GapView,
    after: GapView,
    value: GapRef,
    result: Result<usize, GapError>,
) -> bool {
    let event = after.session.trace.last();
    &&& after.handles == before.handles
    &&& asked(
        before.session,
        after.session,
        Call::IntegerOfObject { object: value.obj },
        event.answer,
    )
    &&& event.answer is Integer
    &&& result == count_of(event.integer())
}

/// What making an integer object comes to.
pub open spec fn made_integer(
    before: GapView,
    after: GapView,
    value: isize,
    result: GapRef,
) -> bool {
    &&& after.handles == before.handles
    &&& asked(
        before.session,
        after.session,
        Call::ObjectOfInteger { value: value as i64 },
        Answer::Object(result.obj),
    )
}

/// The boolean that an object is, if it is one.
pub open spec fn bool_of(constants: Constants, value: GapRef) -> Result<bool, GapError> {
    if value.obj == constants.true_obj {
        Ok(true)
    } else if value.obj == constants.false_obj {
        Ok(false)
    } else {
        Err(GapError::NotABoolean)
    }
}

/// Whether an object is GAP's `fail`, under either of its names.
pub open spec fn is_fail_object(constants: Constants, value: GapRef) -> bool {
    value.obj == constants.fail_obj || value.obj == constants.kernel_fail_obj
}

impl<K: Kernel> Gap<K> {
    /// Roots an unrooted GAP handle and returns an owned value.
    pub fn root(&mut self, reference: GapRef) -> (value: GapValue)
        ensures
            value@ == reference,
            final(self)@ == old(self)@.with_roots(old(self)@.roots().insert(reference)),
            final(self).kernel() == old(self).kernel(),
    {
        self.session.root(reference)
    }

    /// Another value for the same object, with a root of its own.
    pub fn duplicate(&mut self, value: &GapValue) -> (copy: GapValue)
        ensures
            copy@ == value@,
            final(self)@ == old(self)@.with_roots(old(self)@.roots().insert(value@)),
            final(self).kernel() == old(self).kernel(),
    {
        self.session.duplicate(value)
    }

    /// Gives a value up and removes its root.
    pub fn release(&mut self, value: GapValue)
        ensures
            final(self)@ == old(self)@.with_roots(old(self)@.roots().remove(value@)),
            final(self).kernel() == old(self).kernel(),
    {
        self.session.release(value);
    }

    /// Adds a GC root for a handle.
    ///
    /// Each call should be paired with [`Gap::unroot_ref`]. Rooting is required for
    /// non-immediate GAP objects that outlive the GAP call that produced them.
    pub fn root_ref(&mut self, reference: GapRef)
        ensures
            final(self)@ == old(self)@.with_roots(old(self)@.roots().insert(reference)),
            final(self).kernel() == old(self).kernel(),
    {
        self.session.root_ref(reference);
    }

    /// Deprecated alias for [`Gap::root_ref`].
    pub fn alloc_ref(&mut self, value: &GapRef)
        ensures
            final(self)@ == old(self)@.with_roots(old(self)@.roots().insert(*value)),
            final(self).kernel() == old(self).kernel(),
    {
        self.root_ref(*value);
    }

    /// Removes one manually-added GC root for an unrooted handle.
    ///
    /// This is the manual counterpart to [`Gap::root_ref`].
    pub fn unroot_ref(&mut self, reference: GapRef)
        ensures
            final(self)@ == old(self)@.with_roots(old(self)@.roots().remove(reference)),
            final(self).kernel() == old(self).kernel(),
    {
        self.session.unroot_ref(reference);
    }

    /// Deprecated alias for [`Gap::unroot_ref`].
    pub fn free(&mut self, value: &GapRef)
        ensures
            final(self)@ == old(self)@.with_roots(old(self)@.roots().remove(*value)),
            final(self).kernel() == old(self).kernel(),
    {
        self.unroot_ref(*value);
    }

    /// Converts a signed integer into GAP's immediate integer format.
    pub fn integer(&mut self, value: isize) -> (result: GapValue)
        ensures
            made_integer(
                old(self)@,
                final(self)@.with_roots(old(self)@.roots()),
                value,
                result@,
            ),
            final(self)@.roots() == old(self)@.roots().insert(result@),
    {
        let reference = self.int_unrooted(value);
        self.session.root(reference)
    }

    /// Converts a signed integer into an unrooted GAP immediate integer.
    pub fn int_unrooted(&mut self, value: isize) -> (result: GapRef)
        ensures
            made_integer(old(self)@, final(self)@, value, result),
    {
        GapRef { obj: self.session.object_of_integer(value as i64) }
    }

    /// Converts a GAP integer object into a `usize`.
    ///
    /// Returns an error if GAP produces a negative integer. This is intended for
    /// values known to fit in GAP's immediate integer representation.
    pub fn to_usize(&mut self, value: &GapValue) -> (result: Result<usize, GapError>)
        ensures
            counted(old(self)@, final(self)@, value@, result),
    {
        self.to_usize_unrooted(value.as_unrooted())
    }

    /// Converts an unrooted GAP integer into a `usize`.
    pub fn to_usize_unrooted(&mut self, value: GapRef) -> (result: Result<usize, GapError>)
        ensures
            counted(old(self)@, final(self)@, value, result),
    {
        let value = self.session.integer_of_object(value.obj);
        if value < 0 {
            return Err(GapError::NegativeInteger(value));
        }
        Ok(value as usize)
    }

    /// Deprecated alias for [`Gap::to_usize_unrooted`].
    pub fn integer_usize(&mut self, value: &GapRef) -> (result: Result<usize, GapError>)
        ensures
            counted(old(self)@, final(self)@, *value, result),
    {
        self.to_usize_unrooted(*value)
    }

    /// Converts GAP's `true` and `false` objects into a `bool`.
    ///
    /// Returns an error for any non-boolean GAP object.
    pub fn to_bool(&self, value: &GapValue) -> (result: Result<bool, GapError>)
        ensures
            result == bool_of(self@.handles.constants, value@),
    {
        self.to_bool_unrooted(value.as_unrooted())
    }

    /// Converts an unrooted GAP boolean into a `bool`.
    pub fn to_bool_unrooted(&self, value: GapRef) -> (result: Result<bool, GapError>)
        ensures
            result == bool_of(self@.handles.constants, value),
    {
        if value.obj == self.handles.constants.true_obj {
            Ok(true)
        } else if value.obj == self.handles.constants.false_obj {
            Ok(false)
        } else {
            Err(GapError::NotABoolean)
        }
    }

    /// Deprecated alias for [`Gap::to_bool_unrooted`].
    pub fn boolean(&self, value: &GapRef) -> (result: Result<bool, GapError>)
        ensures
            result == bool_of(self@.handles.constants, *value),
    {
        self.to_bool_unrooted(*value)
    }

    /// Returns whether a value is GAP's distinguished `fail` value.
    pub fn is_fail(&self, value: &GapValue) -> (b: bool)
        ensures
            b == is_fail_object(self@.handles.constants, value@),
    {
        self.is_fail_unrooted(value.as_unrooted())
    }

    /// Returns whether an unrooted handle is GAP's distinguished `fail` value.
    pub fn is_fail_unrooted(&self, value: GapRef) -> (b: bool)
        ensures
            b == is_fail_object(self@.handles.constants, value),
    {
        value.obj == self.handles.constants.fail_obj || value.obj
            == self.handles.constants.kernel_fail_obj
    }
}

}
