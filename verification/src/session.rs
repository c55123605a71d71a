//! A conversation with libgap: calls, rooted objects and the error flag.

use crate::handle::{GapRef, Obj};
use crate::kernel::{any_raised, Answer, Call, Constants, Event, Kernel, Reply};
use crate::roots::{GapValue, RootTable};
use vstd::multiset::Multiset;
use vstd::prelude::*;

verus! {

/// A conversation with libgap, as contracts speak of it.
#[verifier::ext_equal]
pub struct SessionView {
    /// The rooted objects, each as often as it is rooted.
    pub roots: Multiset<GapRef>,
    /// Whether libgap reported an error that nobody has taken notice of.
    pub error: bool,
    /// All calls that were made on the kernel so far, in order.
    pub trace: Seq<Event>,
}

impl SessionView {
    /// The conversation after one more call.
    pub open spec fn after(self, event: Event) -> SessionView {
        SessionView {
            roots: self.roots,
            error: self.error || event.raised,
            trace: self.trace.push(event),
        }
    }

    /// The calls made since the conversation was at `before`.
    pub open spec fn since(self, before: SessionView) -> Seq<Event> {
        self.trace.skip(before.trace.len() as int)
    }

    /// Whether the conversation went on from `before` with the calls `events`.
    pub open spec fn continues(self, before: SessionView, events: Seq<Event>) -> bool {
        self.trace == before.trace + events
    }

    /// Whether the conversation went on from `before` with the calls `events`, all made
    /// with the same roots, which are the roots still, and with the error flag set by
    /// whatever call reported an error.
    pub open spec fn spoke(self, before: SessionView, events: Seq<Event>) -> bool {
        &&& self.continues(before, events)
        &&& self.roots == before.roots
        &&& self.error == (before.error || any_raised(events))
        &&& forall|i: int| 0 <= i < events.len() ==> (#[trigger] events[i]).roots == before.roots
    }

    /// The conversation with other roots.
    pub open spec fn with_roots(self, roots: Multiset<GapRef>) -> SessionView {
        SessionView { roots, error: self.error, trace: self.trace }
    }

    /// The conversation with nothing rooted and the error flag clear.
    pub open spec fn reset(self) -> SessionView {
        SessionView { roots: Multiset::empty(), error: false, trace: self.trace }
    }

    /// The conversation with the error flag at `error`.
    pub open spec fn with_error(self, error: bool) -> SessionView {
        SessionView { roots: self.roots, error, trace: self.trace }
    }
}

/// Whether `after` is `before` with one more call, `call`, that returned `answer`.
pub open spec fn asked(
    before: SessionView,
    after: SessionView,
    call: Call,
    answer: Answer,
) -> bool {
    after == before.after(
        Event { call, answer, raised: after.trace.last().raised, roots: before.roots },
    )
}

/// A conversation goes on from itself without a call.
pub(crate) proof fn lemma_silent(session: SessionView)
    ensures
        session.since(session).len() == 0,
        session.spoke(session, session.since(session)),
{
    let none = session.since(session);
    assert(session.trace + none =~= session.trace);
}

/// One more call adds its event to the calls made since an earlier point.
pub(crate) broadcast proof fn lemma_asked(
    before: SessionView,
    middle: SessionView,
    after: SessionView,
    call: Call,
    answer: Answer,
)
    requires
        middle.spoke(before, middle.since(before)),
        asked(middle, after, call, answer),
    ensures
        #![trigger middle.since(before), asked(middle, after, call, answer)]
        after.since(before) == middle.since(before).push(after.trace.last()),
        after.spoke(before, after.since(before)),
{
    let events = middle.since(before);
    let more = after.since(before);
    assert(middle.trace == before.trace + events);
    assert(more =~= events.push(after.trace.last()));
    assert(after.trace =~= before.trace + more);
    if any_raised(events) {
        let i = choose|i: int| 0 <= i < events.len() && (#[trigger] events[i]).raised;
        assert(more[i].raised);
    }
    if after.trace.last().raised {
        assert(more[events.len() as int].raised);
    }
    if any_raised(more) {
        let i = choose|i: int| 0 <= i < more.len() && (#[trigger] more[i]).raised;
        if i < events.len() {
            assert(events[i].raised);
        }
    }
    assert forall|i: int| 0 <= i < more.len() implies (#[trigger] more[i]).roots == before.roots by {
        if i < events.len() {
            assert(events[i].roots == before.roots);
        }
    }
}

/// A conversation with libgap.
///
/// It owns the kernel, the table of rooted objects, and the sticky flag that
/// libgap's error callback sets. The kernel can be reached through it alone, and every
/// call adds to the record: each method for a call says that the kernel is what that one
/// call made of it, and each other method that the kernel is as before.
pub struct Session<K: Kernel> {
    kernel: K,
    roots: RootTable,
    error_occurred: bool,
    trace: Ghost<Seq<Event>>,
}

impl<K: Kernel> View for Session<K> {
    type V = SessionView;

    closed spec fn view(&self) -> SessionView {
        SessionView { roots: self.roots@, error: self.error_occurred, trace: self.trace@ }
    }
}

impl<K: Kernel> Session<K> {
    /// The kernel that is spoken to, as the calls so far left it.
    pub closed spec fn kernel(&self) -> K {
        self.kernel
    }

    /// A conversation in which nothing has been said.
    pub fn new(kernel: K) -> (session: Session<K>)
        ensures
            session@ == (SessionView {
                roots: Multiset::empty(),
                error: false,
                trace: Seq::empty(),
            }),
            session.kernel() == kernel,
    {
        Session {
            kernel,
            roots: RootTable::new(),
            error_occurred: false,
            trace: Ghost(Seq::empty()),
        }
    }

    /// Empties the table of rooted objects and clears the error flag.
    pub(crate) fn reset(&mut self)
        ensures
            final(self)@ == old(self)@.reset(),
            final(self).kernel() == old(self).kernel(),
    {
        self.roots = RootTable::new();
        self.error_occurred = false;
    }

    /// Takes notice of libgap's error flag and clears it.
    pub fn take_error(&mut self) -> (error: bool)
        ensures
            error == old(self)@.error,
            final(self)@ == old(self)@.with_error(false),
            final(self).kernel() == old(self).kernel(),
    {
        let error = self.error_occurred;
        self.error_occurred = false;
        error
    }

    /// Adds a root for a handle.
    pub fn root_ref(&mut self, reference: GapRef)
        ensures
            final(self)@ == old(self)@.with_roots(old(self)@.roots.insert(reference)),
            final(self).kernel() == old(self).kernel(),
    {
        self.roots.root_obj(&reference);
    }

    /// Removes one root of a handle, if there is one.
    pub fn unroot_ref(&mut self, reference: GapRef)
        ensures
            final(self)@ == old(self)@.with_roots(old(self)@.roots.remove(reference)),
            final(self).kernel() == old(self).kernel(),
    {
        self.roots.unroot_obj(&reference);
    }

    /// Roots a handle and returns an owned value.
    pub fn root(&mut self, reference: GapRef) -> (value: GapValue)
        ensures
            value@ == reference,
            final(self)@ == old(self)@.with_roots(old(self)@.roots.insert(reference)),
            final(self).kernel() == old(self).kernel(),
    {
        GapValue::new(reference, &mut self.roots)
    }

    /// Another value for the same object, with a root of its own.
    pub fn duplicate(&mut self, value: &GapValue) -> (copy: GapValue)
        ensures
            copy@ == value@,
            final(self)@ == old(self)@.with_roots(old(self)@.roots.insert(value@)),
            final(self).kernel() == old(self).kernel(),
    {
        value.duplicate(&mut self.roots)
    }

    /// Gives a value up and removes its root.
    pub fn release(&mut self, value: GapValue)
        ensures
            final(self)@ == old(self)@.with_roots(old(self)@.roots.remove(value@)),
            final(self).kernel() == old(self).kernel(),
    {
        value.release(&mut self.roots);
    }

    /// Records a call, and that libgap ran its error callback if it did.
    fn record(&mut self, raised: bool, event: Ghost<Event>)
        requires
            event@.raised == raised,
        ensures
            final(self)@ == old(self)@.after(event@),
            final(self).kernel() == old(self).kernel(),
    {
        if raised {
            self.gap_error_callback();
        }
        proof {
            self.trace@ = self.trace@.push(event@);
        }
    }

    /// Records that GAP reported an error.
    fn gap_error_callback(&mut self)
        ensures
            final(self)@ == old(self)@.with_error(true),
            final(self).kernel() == old(self).kernel(),
    {
        self.error_occurred = true;
    }

    /// Calls `SYSGAP_Initialize`.
    pub(crate) fn initialize(&mut self, args: &Vec<String>) -> (constants: Constants)
        ensures
            asked(
                old(self)@,
                final(self)@,
                Call::Initialize { argv: args.deep_view() },
                Answer::Constants(constants),
            ),
            exists|kernel: &mut K, roots: &RootTable, reply: Reply<Constants>| #[trigger]
                call_ensures(K::initialize, (kernel, roots, args), reply)
                && *kernel == old(self).kernel() && *final(kernel) == final(self).kernel()
                && roots@ == old(self)@.roots
                && reply.value == constants
                && reply.raised == final(self)@.trace.last().raised,
    {
        let reply = self.kernel.initialize(&self.roots, args);
        self.record(
            reply.raised,
            Ghost(
                Event {
                    call: Call::Initialize { argv: args.deep_view() },
                    answer: Answer::Constants(reply.value),
                    raised: reply.raised,
                    roots: self@.roots,
                },
            ),
        );
        reply.value
    }

    /// Calls `ValGVar`.
    pub(crate) fn variable_value(&mut self, name: &str) -> (object: Obj)
        ensures
            asked(
                old(self)@,
                final(self)@,
                Call::VariableValue { name: name@ },
                Answer::Object(object),
            ),
            exists|kernel: &mut K, roots: &RootTable, reply: Reply<Obj>| #[trigger]
                call_ensures(K::variable_value, (kernel, roots, name), reply)
                && *kernel == old(self).kernel() && *final(kernel) == final(self).kernel()
                && roots@ == old(self)@.roots
                && reply.value == object
                && reply.raised == final(self)@.trace.last().raised,
    {
        let reply = self.kernel.variable_value(&self.roots, name);
        self.record(
            reply.raised,
            Ghost(
                Event {
                    call: Call::VariableValue { name: name@ },
                    answer: Answer::Object(reply.value),
                    raised: reply.raised,
                    roots: self@.roots,
                },
            ),
        );
        reply.value
    }

    /// Calls `GAP_ValueGlobalVariable`.
    pub(crate) fn global_variable(&mut self, name: &str) -> (object: Obj)
        ensures
            asked(
                old(self)@,
                final(self)@,
                Call::GlobalVariable { name: name@ },
                Answer::Object(object),
            ),
            exists|kernel: &mut K, roots: &RootTable, reply: Reply<Obj>| #[trigger]
                call_ensures(K::global_variable, (kernel, roots, name), reply)
                && *kernel == old(self).kernel() && *final(kernel) == final(self).kernel()
                && roots@ == old(self)@.roots
                && reply.value == object
                && reply.raised == final(self)@.trace.last().raised,
    {
        let reply = self.kernel.global_variable(&self.roots, name);
        self.record(
            reply.raised,
            Ghost(
                Event {
                    call: Call::GlobalVariable { name: name@ },
                    answer: Answer::Object(reply.value),
                    raised: reply.raised,
                    roots: self@.roots,
                },
            ),
        );
        reply.value
    }

    /// Calls `NEW_STRING`.
    pub(crate) fn new_string(&mut self, length: usize) -> (object: Obj)
        ensures
            asked(
                old(self)@,
                final(self)@,
                Call::NewString { length },
                Answer::Object(object),
            ),
            exists|kernel: &mut K, roots: &RootTable, reply: Reply<Obj>| #[trigger]
                call_ensures(K::new_string, (kernel, roots, length), reply)
                && *kernel == old(self).kernel() && *final(kernel) == final(self).kernel()
                && roots@ == old(self)@.roots
                && reply.value == object
                && reply.raised == final(self)@.trace.last().raised,
    {
        let reply = self.kernel.new_string(&self.roots, length);
        self.record(
            reply.raised,
            Ghost(
                Event {
                    call: Call::NewString { length },
                    answer: Answer::Object(reply.value),
                    raised: reply.raised,
                    roots: self@.roots,
                },
            ),
        );
        reply.value
    }

    /// Calls `MakeString`.
    pub(crate) fn make_string(&mut self, text: &str) -> (object: Obj)
        ensures
            asked(
                old(self)@,
                final(self)@,
                Call::MakeString { text: text@ },
                Answer::Object(object),
            ),
            exists|kernel: &mut K, roots: &RootTable, reply: Reply<Obj>| #[trigger]
                call_ensures(K::make_string, (kernel, roots, text), reply)
                && *kernel == old(self).kernel() && *final(kernel) == final(self).kernel()
                && roots@ == old(self)@.roots
                && reply.value == object
                && reply.raised == final(self)@.trace.last().raised,
    {
        let reply = self.kernel.make_string(&self.roots, text);
        self.record(
            reply.raised,
            Ghost(
                Event {
                    call: Call::MakeString { text: text@ },
                    answer: Answer::Object(reply.value),
                    raised: reply.raised,
                    roots: self@.roots,
                },
            ),
        );
        reply.value
    }

    /// Calls `DoOperation1Args`.
    pub(crate) fn operation_1(&mut self, operation: Obj, arg: Obj) -> (object: Obj)
        ensures
            asked(
                old(self)@,
                final(self)@,
                Call::Operation1 { operation, arg },
                Answer::Object(object),
            ),
            exists|kernel: &mut K, roots: &RootTable, reply: Reply<Obj>| #[trigger]
                call_ensures(K::operation_1, (kernel, roots, operation, arg), reply)
                && *kernel == old(self).kernel() && *final(kernel) == final(self).kernel()
                && roots@ == old(self)@.roots
                && reply.value == object
                && reply.raised == final(self)@.trace.last().raised,
    {
        let reply = self.kernel.operation_1(&self.roots, operation, arg);
        self.record(
            reply.raised,
            Ghost(
                Event {
                    call: Call::Operation1 { operation, arg },
                    answer: Answer::Object(reply.value),
                    raised: reply.raised,
                    roots: self@.roots,
                },
            ),
        );
        reply.value
    }

    /// Calls `DoOperation2Args`.
    pub(crate) fn operation_2(&mut self, operation: Obj, first: Obj, second: Obj) -> (object: Obj)
        ensures
            asked(
                old(self)@,
                final(self)@,
                Call::Operation2 { operation, first, second },
                Answer::Object(object),
            ),
            exists|kernel: &mut K, roots: &RootTable, reply: Reply<Obj>| #[trigger]
                call_ensures(K::operation_2, (kernel, roots, operation, first, second), reply)
                && *kernel == old(self).kernel() && *final(kernel) == final(self).kernel()
                && roots@ == old(self)@.roots
                && reply.value == object
                && reply.raised == final(self)@.trace.last().raised,
    {
        let reply = self.kernel.operation_2(&self.roots, operation, first, second);
        self.record(
            reply.raised,
            Ghost(
                Event {
                    call: Call::Operation2 { operation, first, second },
                    answer: Answer::Object(reply.value),
                    raised: reply.raised,
                    roots: self@.roots,
                },
            ),
        );
        reply.value
    }

    /// Calls `SYSGAP_OpenOutputStream`.
    pub(crate) fn open_output_stream(&mut self, stream: Obj) -> (count: u64)
        ensures
            asked(
                old(self)@,
                final(self)@,
                Call::OpenOutputStream { stream },
                Answer::Count(count),
            ),
            exists|kernel: &mut K, roots: &RootTable, reply: Reply<u64>| #[trigger]
                call_ensures(K::open_output_stream, (kernel, roots, stream), reply)
                && *kernel == old(self).kernel() && *final(kernel) == final(self).kernel()
                && roots@ == old(self)@.roots
                && reply.value == count
                && reply.raised == final(self)@.trace.last().raised,
    {
        let reply = self.kernel.open_output_stream(&self.roots, stream);
        self.record(
            reply.raised,
            Ghost(
                Event {
                    call: Call::OpenOutputStream { stream },
                    answer: Answer::Count(reply.value),
                    raised: reply.raised,
                    roots: self@.roots,
                },
            ),
        );
        reply.value
    }

    /// Calls `SYSGAP_CloseOutput`.
    pub(crate) fn close_output(&mut self) -> (count: u64)
        ensures
            asked(
                old(self)@,
                final(self)@,
                Call::CloseOutput,
                Answer::Count(count),
            ),
            exists|kernel: &mut K, roots: &RootTable, reply: Reply<u64>| #[trigger]
                call_ensures(K::close_output, (kernel, roots), reply)
                && *kernel == old(self).kernel() && *final(kernel) == final(self).kernel()
                && roots@ == old(self)@.roots
                && reply.value == count
                && reply.raised == final(self)@.trace.last().raised,
    {
        let reply = self.kernel.close_output(&self.roots);
        self.record(
            reply.raised,
            Ghost(
                Event {
                    call: Call::CloseOutput,
                    answer: Answer::Count(reply.value),
                    raised: reply.raised,
                    roots: self@.roots,
                },
            ),
        );
        reply.value
    }

    /// Calls `READ_ALL_COMMANDS`.
    pub(crate) fn read_all_commands(
        &mut self,
        stream: Obj,
        echo: Obj,
        capture: Obj,
        callback: Obj,
    ) -> (object: Obj)
        ensures
            asked(
                old(self)@,
                final(self)@,
                Call::ReadAllCommands { stream, echo, capture, callback },
                Answer::Object(object),
            ),
            exists|kernel: &mut K, roots: &RootTable, reply: Reply<Obj>| #[trigger]
                call_ensures(K::read_all_commands, (kernel, roots, stream, echo, capture, callback), reply)
                && *kernel == old(self).kernel() && *final(kernel) == final(self).kernel()
                && roots@ == old(self)@.roots
                && reply.value == object
                && reply.raised == final(self)@.trace.last().raised,
    {
        let reply = self.kernel.read_all_commands(&self.roots, stream, echo, capture, callback);
        self.record(
            reply.raised,
            Ghost(
                Event {
                    call: Call::ReadAllCommands { stream, echo, capture, callback },
                    answer: Answer::Object(reply.value),
                    raised: reply.raised,
                    roots: self@.roots,
                },
            ),
        );
        reply.value
    }

    /// Calls `GAP_ElmList`.
    pub(crate) fn list_element(&mut self, list: Obj, position: usize) -> (object: Obj)
        ensures
            asked(
                old(self)@,
                final(self)@,
                Call::ListElement { list, position },
                Answer::Object(object),
            ),
            exists|kernel: &mut K, roots: &RootTable, reply: Reply<Obj>| #[trigger]
                call_ensures(K::list_element, (kernel, roots, list, position), reply)
                && *kernel == old(self).kernel() && *final(kernel) == final(self).kernel()
                && roots@ == old(self)@.roots
                && reply.value == object
                && reply.raised == final(self)@.trace.last().raised,
    {
        let reply = self.kernel.list_element(&self.roots, list, position);
        self.record(
            reply.raised,
            Ghost(
                Event {
                    call: Call::ListElement { list, position },
                    answer: Answer::Object(reply.value),
                    raised: reply.raised,
                    roots: self@.roots,
                },
            ),
        );
        reply.value
    }

    /// Calls `LEN_LIST`.
    pub(crate) fn list_length(&mut self, list: Obj) -> (integer: i64)
        ensures
            asked(
                old(self)@,
                final(self)@,
                Call::ListLength { list },
                Answer::Integer(integer),
            ),
            exists|kernel: &mut K, roots: &RootTable, reply: Reply<i64>| #[trigger]
                call_ensures(K::list_length, (kernel, roots, list), reply)
                && *kernel == old(self).kernel() && *final(kernel) == final(self).kernel()
                && roots@ == old(self)@.roots
                && reply.value == integer
                && reply.raised == final(self)@.trace.last().raised,
    {
        let reply = self.kernel.list_length(&self.roots, list);
        self.record(
            reply.raised,
            Ghost(
                Event {
                    call: Call::ListLength { list },
                    answer: Answer::Integer(reply.value),
                    raised: reply.raised,
                    roots: self@.roots,
                },
            ),
        );
        reply.value
    }

    /// Calls `SYSGAP_CallFunc2Args`.
    pub(crate) fn call_2(&mut self, function: Obj, first: Obj, second: Obj) -> (object: Obj)
        ensures
            asked(
                old(self)@,
                final(self)@,
                Call::Call2 { function, first, second },
                Answer::Object(object),
            ),
            exists|kernel: &mut K, roots: &RootTable, reply: Reply<Obj>| #[trigger]
                call_ensures(K::call_2, (kernel, roots, function, first, second), reply)
                && *kernel == old(self).kernel() && *final(kernel) == final(self).kernel()
                && roots@ == old(self)@.roots
                && reply.value == object
                && reply.raised == final(self)@.trace.last().raised,
    {
        let reply = self.kernel.call_2(&self.roots, function, first, second);
        self.record(
            reply.raised,
            Ghost(
                Event {
                    call: Call::Call2 { function, first, second },
                    answer: Answer::Object(reply.value),
                    raised: reply.raised,
                    roots: self@.roots,
                },
            ),
        );
        reply.value
    }

    /// Calls `GAP_CallFuncArray`.
    pub(crate) fn call_array(&mut self, function: Obj, args: &Vec<Obj>) -> (object: Obj)
        ensures
            asked(
                old(self)@,
                final(self)@,
                Call::CallArray { function, args: args@ },
                Answer::Object(object),
            ),
            exists|kernel: &mut K, roots: &RootTable, reply: Reply<Obj>| #[trigger]
                call_ensures(K::call_array, (kernel, roots, function, args), reply)
                && *kernel == old(self).kernel() && *final(kernel) == final(self).kernel()
                && roots@ == old(self)@.roots
                && reply.value == object
                && reply.raised == final(self)@.trace.last().raised,
    {
        let reply = self.kernel.call_array(&self.roots, function, args);
        self.record(
            reply.raised,
            Ghost(
                Event {
                    call: Call::CallArray { function, args: args@ },
                    answer: Answer::Object(reply.value),
                    raised: reply.raised,
                    roots: self@.roots,
                },
            ),
        );
        reply.value
    }

    /// Calls `GET_LEN_STRING`.
    pub(crate) fn string_length(&mut self, string: Obj) -> (length: u64)
        ensures
            asked(
                old(self)@,
                final(self)@,
                Call::StringLength { string },
                Answer::Count(length),
            ),
            exists|kernel: &mut K, roots: &RootTable, reply: Reply<u64>| #[trigger]
                call_ensures(K::string_length, (kernel, roots, string), reply)
                && *kernel == old(self).kernel() && *final(kernel) == final(self).kernel()
                && roots@ == old(self)@.roots
                && reply.value == length
                && reply.raised == final(self)@.trace.last().raised,
    {
        let reply = self.kernel.string_length(&self.roots, string);
        self.record(
            reply.raised,
            Ghost(
                Event {
                    call: Call::StringLength { string },
                    answer: Answer::Count(reply.value),
                    raised: reply.raised,
                    roots: self@.roots,
                },
            ),
        );
        reply.value
    }

    /// Calls `GAP_CSTR_STRING`.
    pub(crate) fn string_bytes(&mut self, string: Obj, length: u64) -> (bytes: Vec<u8>)
        ensures
            asked(
                old(self)@,
                final(self)@,
                Call::StringBytes { string, length },
                Answer::Bytes(bytes@),
            ),
            exists|kernel: &mut K, roots: &RootTable, reply: Reply<Vec<u8>>| #[trigger]
                call_ensures(K::string_bytes, (kernel, roots, string, length), reply)
                && *kernel == old(self).kernel() && *final(kernel) == final(self).kernel()
                && roots@ == old(self)@.roots
                && reply.value == bytes
                && reply.raised == final(self)@.trace.last().raised,
    {
        let reply = self.kernel.string_bytes(&self.roots, string, length);
        self.record(
            reply.raised,
            Ghost(
                Event {
                    call: Call::StringBytes { string, length },
                    answer: Answer::Bytes(reply.value@),
                    raised: reply.raised,
                    roots: self@.roots,
                },
            ),
        );
        reply.value
    }

    /// Calls `SET_LEN_STRING`.
    pub(crate) fn set_string_length(&mut self, string: Obj, length: usize)
        ensures
            asked(
                old(self)@,
                final(self)@,
                Call::SetStringLength { string, length },
                Answer::Nothing,
            ),
            exists|kernel: &mut K, roots: &RootTable, reply: Reply<()>| #[trigger]
                call_ensures(K::set_string_length, (kernel, roots, string, length), reply)
                && *kernel == old(self).kernel() && *final(kernel) == final(self).kernel()
                && roots@ == old(self)@.roots
                && reply.raised == final(self)@.trace.last().raised,
    {
        let reply = self.kernel.set_string_length(&self.roots, string, length);
        self.record(
            reply.raised,
            Ghost(
                Event {
                    call: Call::SetStringLength { string, length },
                    answer: Answer::Nothing,
                    raised: reply.raised,
                    roots: self@.roots,
                },
            ),
        );
    }

    /// Calls `INTOBJ_INT`.
    pub(crate) fn object_of_integer(&mut self, value: i64) -> (object: Obj)
        ensures
            asked(
                old(self)@,
                final(self)@,
                Call::ObjectOfInteger { value },
                Answer::Object(object),
            ),
            exists|kernel: &mut K, roots: &RootTable, reply: Reply<Obj>| #[trigger]
                call_ensures(K::object_of_integer, (kernel, roots, value), reply)
                && *kernel == old(self).kernel() && *final(kernel) == final(self).kernel()
                && roots@ == old(self)@.roots
                && reply.value == object
                && reply.raised == final(self)@.trace.last().raised,
    {
        let reply = self.kernel.object_of_integer(&self.roots, value);
        self.record(
            reply.raised,
            Ghost(
                Event {
                    call: Call::ObjectOfInteger { value },
                    answer: Answer::Object(reply.value),
                    raised: reply.raised,
                    roots: self@.roots,
                },
            ),
        );
        reply.value
    }

    /// Calls `Int_ObjInt`.
    pub(crate) fn integer_of_object(&mut self, object: Obj) -> (integer: i64)
        ensures
            asked(
                old(self)@,
                final(self)@,
                Call::IntegerOfObject { object },
                Answer::Integer(integer),
            ),
            exists|kernel: &mut K, roots: &RootTable, reply: Reply<i64>| #[trigger]
                call_ensures(K::integer_of_object, (kernel, roots, object), reply)
                && *kernel == old(self).kernel() && *final(kernel) == final(self).kernel()
                && roots@ == old(self)@.roots
                && reply.value == integer
                && reply.raised == final(self)@.trace.last().raised,
    {
        let reply = self.kernel.integer_of_object(&self.roots, object);
        self.record(
            reply.raised,
            Ghost(
                Event {
                    call: Call::IntegerOfObject { object },
                    answer: Answer::Integer(reply.value),
                    raised: reply.raised,
                    roots: self@.roots,
                },
            ),
        );
        reply.value
    }

    /// Calls `NEW_PLIST`.
    pub(crate) fn new_plist(&mut self, capacity: usize) -> (object: Obj)
        ensures
            asked(
                old(self)@,
                final(self)@,
                Call::NewPlist { capacity },
                Answer::Object(object),
            ),
            exists|kernel: &mut K, roots: &RootTable, reply: Reply<Obj>| #[trigger]
                call_ensures(K::new_plist, (kernel, roots, capacity), reply)
                && *kernel == old(self).kernel() && *final(kernel) == final(self).kernel()
                && roots@ == old(self)@.roots
                && reply.value == object
                && reply.raised == final(self)@.trace.last().raised,
    {
        let reply = self.kernel.new_plist(&self.roots, capacity);
        self.record(
            reply.raised,
            Ghost(
                Event {
                    call: Call::NewPlist { capacity },
                    answer: Answer::Object(reply.value),
                    raised: reply.raised,
                    roots: self@.roots,
                },
            ),
        );
        reply.value
    }

    /// Calls `SET_LEN_PLIST`.
    pub(crate) fn set_plist_length(&mut self, list: Obj, length: usize)
        ensures
            asked(
                old(self)@,
                final(self)@,
                Call::SetPlistLength { list, length },
                Answer::Nothing,
            ),
            exists|kernel: &mut K, roots: &RootTable, reply: Reply<()>| #[trigger]
                call_ensures(K::set_plist_length, (kernel, roots, list, length), reply)
                && *kernel == old(self).kernel() && *final(kernel) == final(self).kernel()
                && roots@ == old(self)@.roots
                && reply.raised == final(self)@.trace.last().raised,
    {
        let reply = self.kernel.set_plist_length(&self.roots, list, length);
        self.record(
            reply.raised,
            Ghost(
                Event {
                    call: Call::SetPlistLength { list, length },
                    answer: Answer::Nothing,
                    raised: reply.raised,
                    roots: self@.roots,
                },
            ),
        );
    }

    /// Calls `SET_ELM_PLIST`.
    pub(crate) fn set_plist_element(&mut self, list: Obj, position: usize, element: Obj)
        ensures
            asked(
                old(self)@,
                final(self)@,
                Call::SetPlistElement { list, position, element },
                Answer::Nothing,
            ),
            exists|kernel: &mut K, roots: &RootTable, reply: Reply<()>| #[trigger]
                call_ensures(K::set_plist_element, (kernel, roots, list, position, element), reply)
                && *kernel == old(self).kernel() && *final(kernel) == final(self).kernel()
                && roots@ == old(self)@.roots
                && reply.raised == final(self)@.trace.last().raised,
    {
        let reply = self.kernel.set_plist_element(&self.roots, list, position, element);
        self.record(
            reply.raised,
            Ghost(
                Event {
                    call: Call::SetPlistElement { list, position, element },
                    answer: Answer::Nothing,
                    raised: reply.raised,
                    roots: self@.roots,
                },
            ),
        );
    }

    /// Calls `CHANGED_BAG`.
    pub(crate) fn changed_bag(&mut self, list: Obj)
        ensures
            asked(
                old(self)@,
                final(self)@,
                Call::ChangedBag { list },
                Answer::Nothing,
            ),
            exists|kernel: &mut K, roots: &RootTable, reply: Reply<()>| #[trigger]
                call_ensures(K::changed_bag, (kernel, roots, list), reply)
                && *kernel == old(self).kernel() && *final(kernel) == final(self).kernel()
                && roots@ == old(self)@.roots
                && reply.raised == final(self)@.trace.last().raised,
    {
        let reply = self.kernel.changed_bag(&self.roots, list);
        self.record(
            reply.raised,
            Ghost(
                Event {
                    call: Call::ChangedBag { list },
                    answer: Answer::Nothing,
                    raised: reply.raised,
                    roots: self@.roots,
                },
            ),
        );
    }
}

}
