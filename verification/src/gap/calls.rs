//! Looking up GAP globals and calling GAP functions.

use crate::error::{Activity, GapError};
use crate::gap::lists::ref_objs;
use crate::gap::{plain, roots_with, Gap, GapView};
use crate::handle::{GapRef, Obj};
use crate::kernel::{Call, Kernel};
use crate::roots::GapValue;
use crate::session::SessionView;
use crate::text::has_nul;
use vstd::prelude::*;

verus! {

/// Whether `after` is `before` with one more call, `call`, that returned an object,
/// and with the error flag cleared afterwards.
pub open spec fn settled(before: SessionView, after: SessionView, call: Call) -> bool {
    let event = after.trace.last();
    &&& after == before.after(event).with_error(false)
    &&& event.call == call
    &&& event.answer is Object
    &&& event.roots == before.roots
}

/// What looking up a global variable comes to. The error flag is not cleared
/// beforehand, so an error that nobody took notice of counts here.
pub open spec fn looked_up(
    before: GapView,
    after: GapView,
    name: Seq<char>,
    result: Result<GapRef, GapError>,
) -> bool {
    if name.contains('\0') {
        after == before && result == Err::<GapRef, GapError>(GapError::NulInName)
    } else {
        let event = after.session.trace.last();
        &&& after.handles == before.handles
        &&& settled(before.session, after.session, Call::GlobalVariable { name })
        &&& result == (if before.session.error || event.raised {
            Err::<GapRef, GapError>(GapError::Reported(Activity::GlobalLookup))
        } else {
            Ok(event.handle())
        })
    }
}

/// What calling a function comes to: an error that libgap reports during the call is
/// the result, and no earlier one.
pub open spec fn called(
    before: GapView,
    after: GapView,
    function: GapRef,
    args: Seq<Obj>,
    result: Result<GapRef, GapError>,
) -> bool {
    let event = after.session.trace.last();
    &&& after.handles == before.handles
    &&& settled(
        before.session,
        after.session,
        Call::CallArray { function: function.obj, args },
    )
    &&& result == (if event.raised {
        Err::<GapRef, GapError>(GapError::Reported(Activity::FunctionCall))
    } else {
        Ok(event.handle())
    })
}

/// What calling a global function comes to: a lookup, and a call of what it gave.
/// `rooted` tells whether the function is rooted while the call runs.
pub open spec fn called_global(
    before: GapView,
    after: GapView,
    name: Seq<char>,
    args: Seq<Obj>,
    rooted: bool,
    result: Result<GapRef, GapError>,
) -> bool {
    let events = after.session.since(before.session);
    if name.contains('\0') {
        after == before && result == Err::<GapRef, GapError>(GapError::NulInName)
    } else {
        &&& after.handles == before.handles
        &&& after.session.continues(before.session, events)
        &&& after.roots() == before.roots()
        &&& !after.session.error
        &&& events.len() >= 1
        &&& events[0].call == (Call::GlobalVariable { name })
        &&& events[0].answer is Object
        &&& events[0].roots == before.roots()
        &&& if before.session.error || events[0].raised {
            &&& events.len() == 1
            &&& result == Err::<GapRef, GapError>(GapError::Reported(Activity::GlobalLookup))
        } else {
            &&& events.len() == 2
            &&& events[1].call == (Call::CallArray { function: events[0].obj(), args })
            &&& events[1].answer is Object
            &&& events[1].roots == (if rooted {
                before.roots().insert(events[0].handle())
            } else {
                before.roots()
            })
            &&& result == (if events[1].raised {
                Err::<GapRef, GapError>(GapError::Reported(Activity::FunctionCall))
            } else {
                Ok(events[1].handle())
            })
        }
    }
}

/// A lookup that failed is all there is of a call.
proof fn lemma_lookup_failed(
    before: GapView,
    after: GapView,
    name: Seq<char>,
    args: Seq<Obj>,
    rooted: bool,
    e: GapError,
)
    requires
        looked_up(before, after, name, Err(e)),
    ensures
        called_global(before, after, name, args, rooted, Err(e)),
{
    if !name.contains('\0') {
        let events = after.session.since(before.session);
        assert(events =~= seq![after.session.trace.last()]);
        assert(after.session.trace =~= before.session.trace + events);
    }
}

/// A lookup and a call of what it gave make a call of a global function.
proof fn lemma_lookup_and_call(
    before: GapView,
    middle: GapView,
    after: GapView,
    name: Seq<char>,
    args: Seq<Obj>,
    rooted: bool,
    function: GapRef,
    result: Result<GapRef, GapError>,
)
    requires
        looked_up(before, middle.with_roots(before.roots()), name, Ok(function)),
        middle.roots() == (if rooted {
            before.roots().insert(function)
        } else {
            before.roots()
        }),
        called(middle, after.with_roots(middle.roots()), function, args, result),
    ensures
        called_global(before, after.with_roots(before.roots()), name, args, rooted, result),
{
    let events = after.session.since(before.session);
    assert(events =~= seq![middle.session.trace.last(), after.session.trace.last()]);
    assert(after.session.trace =~= before.session.trace + events);
}

/// The object words of borrowed values.
pub open spec fn argument_objs(args: Seq<&GapValue>) -> Seq<Obj> {
    args.map_values(|v: &GapValue| v@.obj)
}

/// The handles behind borrowed handles.
pub open spec fn argument_refs(args: Seq<&GapRef>) -> Seq<GapRef> {
    args.map_values(|r: &GapRef| *r)
}

impl<K: Kernel> Gap<K> {
    /// Turns libgap's error flag into an error, and clears it.
    fn check_gap_error(&mut self, activity: Activity) -> (result: Result<(), GapError>)
        ensures
            final(self)@ == old(self)@.with_session(old(self)@.session.with_error(false)),
            result == (if old(self)@.session.error {
                Err::<(), GapError>(GapError::Reported(activity))
            } else {
                Ok(())
            }),
            final(self).kernel() == old(self).kernel(),
    {
        if self.session.take_error() {
            Err(GapError::Reported(activity))
        } else {
            Ok(())
        }
    }

    /// Looks up a GAP global variable by name.
    ///
    /// The returned value is rooted and can be retained across later GAP calls.
    pub fn get_global(&mut self, name: &str) -> (result: Result<GapValue, GapError>)
        ensures
            looked_up(
                old(self)@,
                final(self)@.with_roots(old(self)@.roots()),
                name@,
                plain(result),
            ),
            final(self)@.roots() == roots_with(old(self)@.roots(), result),
    {
        match self.get_global_unrooted(name) {
            Ok(reference) => Ok(self.session.root(reference)),
            Err(e) => Err(e),
        }
    }

    /// Looks up a GAP global variable by name without rooting it.
    ///
    /// Prefer [`Gap::get_global`].
    pub fn get_global_unrooted(&mut self, name: &str) -> (result: Result<GapRef, GapError>)
        ensures
            looked_up(old(self)@, final(self)@, name@, result),
    {
        if has_nul(name) {
            return Err(GapError::NulInName);
        }
        let obj = self.session.global_variable(name);
        match self.check_gap_error(Activity::GlobalLookup) {
            Ok(_) => Ok(GapRef { obj }),
            Err(e) => Err(e),
        }
    }

    /// Deprecated alias for [`Gap::get_global_unrooted`].
    pub fn global(&mut self, name: &str) -> (result: Result<GapRef, GapError>)
        ensures
            looked_up(old(self)@, final(self)@, name@, result),
    {
        self.get_global_unrooted(name)
    }

    /// Deprecated alias for [`Gap::get_global`].
    pub fn global_rooted(&mut self, name: &str) -> (result: Result<GapValue, GapError>)
        ensures
            looked_up(
                old(self)@,
                final(self)@.with_roots(old(self)@.roots()),
                name@,
                plain(result),
            ),
            final(self)@.roots() == roots_with(old(self)@.roots(), result),
    {
        self.get_global(name)
    }

    /// Calls a GAP function object with positional arguments.
    ///
    /// `function` must be a callable GAP value. The result is GC-rooted.
    pub fn call(&mut self, function: &GapValue, args: &[&GapValue]) -> (result: Result<
        GapValue,
        GapError,
    >)
        ensures
            called(
                old(self)@,
                final(self)@.with_roots(old(self)@.roots()),
                function@,
                argument_objs(args@),
                plain(result),
            ),
            final(self)@.roots() == roots_with(old(self)@.roots(), result),
    {
        let refs = unrooted_arguments(args);
        match self.call_unrooted(function.as_unrooted(), refs.as_slice()) {
            Ok(reference) => Ok(self.session.root(reference)),
            Err(e) => Err(e),
        }
    }

    /// Calls a GAP function with unrooted handles and returns an unrooted handle.
    ///
    /// Prefer [`Gap::call`].
    pub fn call_unrooted(&mut self, function: GapRef, args: &[GapRef]) -> (result: Result<
        GapRef,
        GapError,
    >)
        ensures
            called(old(self)@, final(self)@, function, ref_objs(args@), result),
    {
        let mut raw_args: Vec<Obj> = Vec::new();
        let mut i: usize = 0;
        while i < args.len()
            invariant
                i <= args.len(),
                raw_args@.len() == i,
                forall|j: int| 0 <= j < i ==> raw_args@[j] == (#[trigger] args@[j]).obj,
            decreases args.len() - i,
        {
            raw_args.push(args[i].obj);
            i = i + 1;
        }
        assert(raw_args@ =~= ref_objs(args@));
        self.session.take_error();
        let obj = self.session.call_array(function.obj, &raw_args);
        match self.check_gap_error(Activity::FunctionCall) {
            Ok(_) => Ok(GapRef { obj }),
            Err(e) => Err(e),
        }
    }

    /// Deprecated alias for [`Gap::call_unrooted`].
    pub fn call_function(&mut self, function: &GapRef, args: &[&GapRef]) -> (result: Result<
        GapRef,
        GapError,
    >)
        ensures
            called(
                old(self)@,
                final(self)@,
                *function,
                ref_objs(argument_refs(args@)),
                result,
            ),
    {
        let refs = copied_arguments(args);
        self.call_unrooted(*function, refs.as_slice())
    }

    /// Looks up a GAP global function by name and calls it.
    ///
    /// The function is rooted while the call runs.
    pub fn call_global(&mut self, name: &str, args: &[&GapValue]) -> (result: Result<
        GapValue,
        GapError,
    >)
        ensures
            called_global(
                old(self)@,
                final(self)@.with_roots(old(self)@.roots()),
                name@,
                argument_objs(args@),
                true,
                plain(result),
            ),
            final(self)@.roots() == roots_with(old(self)@.roots(), result),
    {
        let function = match self.get_global(name) {
            Ok(function) => function,
            Err(e) => {
                proof {
                    lemma_lookup_failed(
                        old(self)@,
                        self@.with_roots(old(self)@.roots()),
                        name@,
                        argument_objs(args@),
                        true,
                        e,
                    );
                }
                return Err(e);
            },
        };
        let ghost f = function@;
        let ghost middle = self@;
        let result = self.call(&function, args);
        let ghost after = self@;
        self.session.release(function);
        proof {
            let roots = old(self)@.roots();
            lemma_lookup_and_call(
                old(self)@,
                middle,
                after,
                name@,
                argument_objs(args@),
                true,
                f,
                plain(result),
            );
            assert(self@.with_roots(roots) == after.with_roots(roots));
            assert(roots_with(roots.insert(f), result).remove(f) =~= roots_with(roots, result));
        }
        result
    }

    /// Calls a GAP global function without rooting its result.
    ///
    /// Prefer [`Gap::call_global`].
    pub fn call_global_unrooted(&mut self, name: &str, args: &[GapRef]) -> (result: Result<
        GapRef,
        GapError,
    >)
        ensures
            called_global(old(self)@, final(self)@, name@, ref_objs(args@), false, result),
    {
        match self.get_global_unrooted(name) {
            Ok(function) => {
                let ghost middle = self@;
                let result = self.call_unrooted(function, args);
                proof {
                    assert(middle.with_roots(old(self)@.roots()) == middle);
                    assert(self@.with_roots(middle.roots()) == self@);
                    lemma_lookup_and_call(
                        old(self)@,
                        middle,
                        self@,
                        name@,
                        ref_objs(args@),
                        false,
                        function,
                        result,
                    );
                }
                result
            },
            Err(e) => {
                proof {
                    lemma_lookup_failed(old(self)@, self@, name@, ref_objs(args@), false, e);
                }
                Err(e)
            },
        }
    }
}

impl<K: Kernel> Gap<K> {
    /// Roots each handle, in order.
    pub(crate) fn root_all(&mut self, refs: &Vec<GapRef>) -> (values: Vec<GapValue>)
        ensures
            value_refs(values@) == refs@,
            final(self)@ == old(self)@.with_roots(
                old(self)@.roots().add(refs@.to_multiset()),
            ),
            final(self).kernel() == old(self).kernel(),
    {
        let mut values: Vec<GapValue> = Vec::new();
        let mut i: usize = 0;
        proof {
            broadcast use vstd::seq_lib::group_to_multiset_ensures;

            assert(refs@.take(0).to_multiset().len() == 0);
            assert(self@.roots() =~= self@.roots().add(refs@.take(0).to_multiset()));
        }
        while i < refs.len()
            invariant
                i <= refs.len(),
                self.kernel() == old(self).kernel(),
                value_refs(values@) == refs@.take(i as int),
                self@ == old(self)@.with_roots(
                    old(self)@.roots().add(refs@.take(i as int).to_multiset()),
                ),
            decreases refs.len() - i,
        {
            let ghost before = values@;
            let value = self.session.root(refs[i]);
            proof {
                broadcast use vstd::seq_lib::group_to_multiset_ensures;

                assert(refs@.take(i + 1) =~= refs@.take(i as int).push(refs@[i as int]));
                assert(value_refs(before.push(value)) =~= value_refs(before).push(value@));
                assert(self@.roots() =~= old(self)@.roots().add(
                    refs@.take(i + 1).to_multiset(),
                ));
            }
            values.push(value);
            i = i + 1;
        }
        assert(refs@.take(i as int) =~= refs@);
        values
    }

    /// Releases each value.
    pub(crate) fn release_all(&mut self, values: Vec<GapValue>)
        ensures
            final(self)@ == old(self)@.with_roots(
                old(self)@.roots().sub(value_refs(values@).to_multiset()),
            ),
            final(self).kernel() == old(self).kernel(),
    {
        let ghost refs = value_refs(values@);
        let mut values = values;
        proof {
            broadcast use vstd::seq_lib::group_to_multiset_ensures;

            let none = refs.skip(refs.len() as int);
            assert(none.to_multiset().len() == 0);
            assert(self@.roots() =~= self@.roots().sub(none.to_multiset()));
        }
        while values.len() > 0
            invariant
                values@.len() <= refs.len(),
                self.kernel() == old(self).kernel(),
                value_refs(values@) == refs.take(values@.len() as int),
                self@ == old(self)@.with_roots(
                    old(self)@.roots().sub(refs.skip(values@.len() as int).to_multiset()),
                ),
            decreases values.len(),
        {
            let ghost n = values@.len() as int;
            let ghost before = values@;
            if let Some(value) = values.pop() {
                proof {
                    broadcast use vstd::seq_lib::group_to_multiset_ensures;

                    assert(value_refs(before)[n - 1] == value@);
                    assert(value_refs(values@) =~= refs.take(n - 1));
                    assert(refs.skip(n - 1) =~= refs.skip(n).insert(0, value@));
                    let rest = refs.skip(n).to_multiset();
                    assert(refs.skip(n - 1).to_multiset() =~= rest.insert(value@));
                    let roots = old(self)@.roots();
                    assert(roots.sub(rest).remove(value@) =~= roots.sub(rest.insert(value@)));
                }
                self.session.release(value);
            }
        }
        assert(refs.skip(0) =~= refs);
    }

    /// Roots the arguments, then looks up a GAP global function by name and calls it.
    pub fn call_global_rooted(&mut self, name: &str, args: &[&GapRef]) -> (result: Result<
        GapValue,
        GapError,
    >)
        ensures
            ({
                let held = old(self)@.roots().add(argument_refs(args@).to_multiset());
                called_global(
                    old(self)@.with_roots(held),
                    final(self)@.with_roots(held),
                    name@,
                    ref_objs(argument_refs(args@)),
                    true,
                    plain(result),
                )
            }),
            final(self)@.roots() == roots_with(old(self)@.roots(), result),
    {
        let refs = copied_arguments(args);
        let values = self.root_all(&refs);
        let ghost held = self@.roots();
        let borrowed = borrowed_values(&values);
        assert(argument_objs(borrowed@) =~= ref_objs(refs@)) by {
            assert forall|j: int| 0 <= j < refs@.len() implies #[trigger] values@[j]@
                == refs@[j] by {
                assert(value_refs(values@)[j] == refs@[j]);
            }
            assert(value_refs(values@).len() == refs@.len());
        }
        let result = self.call_global(name, borrowed.as_slice());
        let ghost after = self@;
        self.release_all(values);
        proof {
            assert(self@.with_roots(held) == after.with_roots(held));
            let roots = old(self)@.roots();
            let added = refs@.to_multiset();
            assert(roots_with(roots.add(added), result).sub(added) =~= roots_with(roots, result));
        }
        result
    }
}

/// The handles of owned values.
pub open spec fn value_refs(values: Seq<GapValue>) -> Seq<GapRef> {
    values.map_values(|v: GapValue| v@)
}

/// Borrows of owned values.
fn borrowed_values<'a>(values: &'a Vec<GapValue>) -> (borrowed: Vec<&'a GapValue>)
    ensures
        borrowed@.len() == values@.len(),
        forall|j: int| 0 <= j < values@.len() ==> *(#[trigger] borrowed@[j]) == values@[j],
{
    let mut borrowed: Vec<&'a GapValue> = Vec::new();
    let mut i: usize = 0;
    while i < values.len()
        invariant
            i <= values.len(),
            borrowed@.len() == i,
            forall|j: int| 0 <= j < i ==> *(#[trigger] borrowed@[j]) == values@[j],
        decreases values.len() - i,
    {
        borrowed.push(&values[i]);
        i = i + 1;
    }
    borrowed
}

/// The handles of borrowed values.
fn unrooted_arguments(args: &[&GapValue]) -> (refs: Vec<GapRef>)
    ensures
        ref_objs(refs@) == argument_objs(args@),
{
    let mut refs: Vec<GapRef> = Vec::new();
    let mut i: usize = 0;
    while i < args.len()
        invariant
            i <= args.len(),
            refs@.len() == i,
            forall|j: int| 0 <= j < i ==> refs@[j] == (#[trigger] args@[j])@,
        decreases args.len() - i,
    {
        refs.push(args[i].as_unrooted());
        i = i + 1;
    }
    assert(ref_objs(refs@) =~= argument_objs(args@));
    refs
}

/// Copies of borrowed handles.
fn copied_arguments(args: &[&GapRef]) -> (refs: Vec<GapRef>)
    ensures
        refs@ == argument_refs(args@),
{
    let mut refs: Vec<GapRef> = Vec::new();
    let mut i: usize = 0;
    while i < args.len()
        invariant
            i <= args.len(),
            refs@.len() == i,
            forall|j: int| 0 <= j < i ==> refs@[j] == *#[trigger] args@[j],
        decreases args.len() - i,
    {
        refs.push(*args[i]);
        i = i + 1;
    }
    assert(refs@ =~= argument_refs(args@));
    refs
}

}
