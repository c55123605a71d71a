//! What each operation of the interpreter says to libgap, call by call, and what it
//! makes of the answers.

use crate::error::{Activity, GapError};
use crate::gap::calls::{
    argument_objs, argument_refs, called, called_global, looked_up, value_refs,
};
use crate::gap::evaluation::{displayed, evaluated, string_read};
use crate::gap::lists::{
    element_read, length_read, list_calls, list_made, ref_objs, value_objs,
};
use crate::gap::permutations::{
    handles_of, images_read, list_stages, permutation_made, point_read, points_read, stopped_at,
    with_lists,
};
use crate::gap::values::{bool_of, counted, is_fail_object, made_integer};
use crate::gap::{plain, roots_with, start_outcome, GapView, Handles, Host};
use crate::handle::{GapRef, Obj};
use crate::kernel::{any_raised, Answer, Call, Constants, Event};
use crate::path::joined;
use crate::roots::GapValue;
use crate::runtime_roots::root_arg_text;
use crate::session::{asked, SessionView};
use crate::text::lossy_text;
use crate::tree::TreeView;
use vstd::multiset::Multiset;
use vstd::prelude::*;
use vstd::utf8::{decode_utf8, encode_utf8, valid_utf8};

verus! {

// --- The record ---
/// Whether the record at `after` is the one at `before` with `count` more calls.
pub open spec fn grown(before: SessionView, after: SessionView, count: int) -> bool {
    &&& after.trace.len() == before.trace.len() + count
    &&& forall|i: int|
        0 <= i < before.trace.len() ==> #[trigger] after.trace[i] == before.trace[i]
}

/// Whether the calls after `before` were all made with its roots, which are the roots
/// still, and the error flag is set if it was or if libgap reported an error in one of
/// them.
pub open spec fn undisturbed(before: SessionView, after: SessionView) -> bool {
    &&& after.roots == before.roots
    &&& forall|i: int|
        before.trace.len() <= i < after.trace.len() ==> (#[trigger] after.trace[i]).roots
            == before.roots
    &&& after.error <==> before.error || exists|i: int|
        before.trace.len() <= i < after.trace.len() && (#[trigger] after.trace[i]).raised
}

proof fn lemma_undisturbed(before: SessionView, after: SessionView)
    requires
        after.spoke(before, after.since(before)),
    ensures
        grown(before, after, after.since(before).len() as int),
        undisturbed(before, after),
        forall|i: int|
            0 <= i < after.since(before).len() ==> #[trigger] after.since(before)[i]
                == after.trace[before.trace.len() + i],
{
    let events = after.since(before);
    let n = before.trace.len();
    assert forall|i: int| n <= i < after.trace.len() implies (#[trigger] after.trace[i]).roots
        == before.roots by {
        assert(events[i - n] == after.trace[i]);
    }
    if any_raised(events) {
        let i = choose|i: int| 0 <= i < events.len() && (#[trigger] events[i]).raised;
        assert(after.trace[n + i].raised);
    }
    if exists|i: int| n <= i < after.trace.len() && (#[trigger] after.trace[i]).raised {
        let i = choose|i: int| n <= i < after.trace.len() && (#[trigger] after.trace[i]).raised;
        assert(events[i - n].raised);
    }
}

/// One more call adds one event, with the call and its answer, to the end of the record,
/// and sets the error flag if libgap reported an error.
pub proof fn law_call_is_recorded(
    before: SessionView,
    after: SessionView,
    call: Call,
    answer: Answer,
)
    requires
        asked(before, after, call, answer),
    ensures
        grown(before, after, 1),
        undisturbed(before, after),
        after.trace[before.trace.len() as int].call == call,
        after.trace[before.trace.len() as int].answer == answer,
{
    let n = before.trace.len() as int;
    assert(after.trace[n] == after.trace.last());
}

/// Another multiset of roots leaves the rest of the interpreter as it is.
pub proof fn law_other_roots_alone(gap: GapView, roots: Multiset<GapRef>)
    ensures
        gap.with_roots(roots).handles == gap.handles,
        gap.with_roots(roots).session.roots == roots,
        gap.with_roots(roots).session.error == gap.session.error,
        gap.with_roots(roots).session.trace == gap.session.trace,
        gap.roots() == gap.session.roots,
{
}

/// The bare result is the owned one without its root: the same handle, or the same error;
/// and only a handle is rooted, once.
pub proof fn law_plain_result(result: Result<GapValue, GapError>, roots: Multiset<GapRef>)
    ensures
        result matches Ok(value) ==> roots_with(roots, result) == roots.insert(value@),
        result is Err ==> roots_with(roots, result) == roots,
        result is Ok <==> plain(result) is Ok,
        result matches Ok(value) ==> plain(result) == Ok::<GapRef, GapError>(value@),
        result matches Err(error) ==> plain(result) == Err::<GapRef, GapError>(error),
{
}

// --- Evaluating and rendering ---
/// An evaluation hands the command to GAP's reader character for character. Of the first
/// entry that the reader gives back, the first element decides, and the second is the
/// value. There are no other calls.
pub proof fn law_evaluation_reads_whole_text(
    before: GapView,
    after: GapView,
    cmd: Seq<char>,
    result: Result<GapRef, GapError>,
)
    requires
        evaluated(before, after, cmd, result),
    ensures
        ({
            let n = before.session.trace.len() as int;
            let t = after.session.trace;
            let no = before.handles.constants.false_obj;
            &&& after.handles == before.handles
            &&& undisturbed(before.session, after.session)
            &&& t.len() >= n + 5
            &&& t[n].call matches Call::MakeString { text } && text.len() == cmd.len() && forall|
                i: int,
            |
                0 <= i < cmd.len() ==> #[trigger] text[i] == cmd[i]
            &&& t[n].answer matches Answer::Object(string) && t[n + 1].call == (Call::Operation1 {
                operation: before.handles.input_stream,
                arg: string,
            })
            &&& t[n + 1].answer matches Answer::Object(stream) && t[n + 2].call == (
            Call::ReadAllCommands { stream, echo: no, capture: no, callback: no })
            &&& t[n + 2].answer matches Answer::Object(all) && t[n + 3].call == (
            Call::ListElement { list: all, position: 1 })
            &&& t[n + 3].answer matches Answer::Object(entry) && t[n + 4].call == (
            Call::ListElement { list: entry, position: 1 }) && (t[n + 4].answer == Answer::Object(
                before.handles.constants.true_obj,
            ) ==> t.len() == n + 6 && t[n + 5].call == (Call::ListElement {
                list: entry,
                position: 2,
            }))
            &&& if t[n + 4].answer == Answer::Object(before.handles.constants.true_obj) {
                &&& grown(before.session, after.session, 6)
                &&& t[n + 5].answer matches Answer::Object(obj) && result == Ok::<
                    GapRef,
                    GapError,
                >(GapRef { obj })
            } else {
                &&& grown(before.session, after.session, 5)
                &&& result == Err::<GapRef, GapError>(GapError::EvaluationFailed)
            }
        }),
{
    lemma_undisturbed(before.session, after.session);
    let events = after.session.since(before.session);
    assert(events[0].answer is Object && events[1].answer is Object && events[2].answer is Object
        && events[3].answer is Object && events[4].answer is Object);
    assert(events[0] == after.session.trace[before.session.trace.len() as int]);
    assert(events.len() == 6 ==> events[5].answer is Object);
}

/// Different commands are different texts to GAP's reader.
pub proof fn law_different_commands_differ(
    before: GapView,
    after: GapView,
    other_before: GapView,
    other_after: GapView,
    cmd: Seq<char>,
    other: Seq<char>,
    result: Result<GapRef, GapError>,
    other_result: Result<GapRef, GapError>,
)
    requires
        evaluated(before, after, cmd, result),
        evaluated(other_before, other_after, other, other_result),
        after.session.trace[before.session.trace.len() as int].call
            == other_after.session.trace[other_before.session.trace.len() as int].call,
    ensures
        cmd == other,
{
    lemma_undisturbed(before.session, after.session);
    lemma_undisturbed(other_before.session, other_after.session);
    assert(after.session.since(before.session)[0]
        == after.session.trace[before.session.trace.len() as int]);
    assert(other_after.session.since(other_before.session)[0]
        == other_after.session.trace[other_before.session.trace.len() as int]);
}

/// Whether `text` is what all of `bytes` stand for.
pub open spec fn whole_text(bytes: Seq<u8>, text: Seq<char>) -> bool {
    &&& valid_utf8(bytes) ==> text == decode_utf8(bytes)
    &&& !valid_utf8(bytes) ==> text == lossy_text(bytes)
}

/// A rendering prints the object to the output stream, reads all of the output string,
/// by the length that the string has then, and empties it.
pub proof fn law_display_reads_output(
    before: GapView,
    after: GapView,
    value: GapRef,
    text: Seq<char>,
)
    requires
        displayed(before, after, value, text),
    ensures
        ({
            let n = before.session.trace.len() as int;
            let t = after.session.trace;
            let string = before.handles.output_str_obj;
            &&& after.handles == before.handles
            &&& undisturbed(before.session, after.session)
            &&& grown(before.session, after.session, 4)
            &&& t[n].call == (Call::Call2 {
                function: before.handles.print_fn,
                first: before.handles.output_stream_handle,
                second: value.obj,
            })
            &&& t[n + 1].call == (Call::StringLength { string })
            &&& t[n + 1].answer matches Answer::Count(length) && t[n + 2].call == (
            Call::StringBytes { string, length })
            &&& t[n + 2].answer matches Answer::Bytes(bytes) && whole_text(bytes, text)
            &&& t[n + 3].call == (Call::SetStringLength { string, length: 0 })
        }),
{
    lemma_undisturbed(before.session, after.session);
}

/// Reading a string reads all of it, and its text is what stands before the first NUL.
pub proof fn law_string_ends_at_nul(
    before: SessionView,
    after: SessionView,
    value: GapRef,
    text: Seq<char>,
)
    requires
        string_read(before, after, value, text),
    ensures
        ({
            let n = before.trace.len() as int;
            let t = after.trace;
            &&& undisturbed(before, after)
            &&& grown(before, after, 2)
            &&& t[n].call == (Call::StringLength { string: value.obj })
            &&& t[n].answer matches Answer::Count(length) && t[n + 1].call == (Call::StringBytes {
                string: value.obj,
                length,
            })
            &&& t[n + 1].answer matches Answer::Bytes(bytes) && exists|end: int|
                0 <= end <= bytes.len() && (end < bytes.len() ==> bytes[end] == 0) && (forall|
                    i: int,
                |
                    0 <= i < end ==> bytes[i] != 0) && #[trigger] whole_text(
                    bytes.take(end),
                    text,
                )
        }),
{
    lemma_undisturbed(before, after);
    let bytes = after.since(before)[1].answer->Bytes_0;
    bytes.index_of_first_ensures(0);
    match bytes.index_of_first(0) {
        Some(end) => {
            assert(whole_text(bytes.take(end), text));
        },
        None => {
            assert(bytes.take(bytes.len() as int) =~= bytes);
            assert forall|i: int| 0 <= i < bytes.len() implies bytes[i] != 0 by {
                assert(bytes.contains(bytes[i]));
            }
            assert(whole_text(bytes.take(bytes.len() as int), text));
        },
    }
}

// --- Lookups and calls ---
/// A name with a NUL is refused without a call. Any other name is handed over as it is,
/// in one call; an error that libgap reports, then or earlier, is the result, and the
/// error flag is clear afterwards.
pub proof fn law_lookup_asks_for_name(
    before: GapView,
    after: GapView,
    name: Seq<char>,
    result: Result<GapRef, GapError>,
)
    requires
        looked_up(before, after, name, result),
    ensures
        ({
            let n = before.session.trace.len() as int;
            let event = after.session.trace[n];
            if exists|i: int| 0 <= i < name.len() && name[i] == '\0' {
                after == before && result == Err::<GapRef, GapError>(GapError::NulInName)
            } else {
                &&& after.handles == before.handles
                &&& after.session.roots == before.session.roots
                &&& !after.session.error
                &&& grown(before.session, after.session, 1)
                &&& event.roots == before.session.roots
                &&& event.call matches Call::GlobalVariable { name: asked } && asked == name
                &&& if before.session.error || event.raised {
                    result == Err::<GapRef, GapError>(GapError::Reported(Activity::GlobalLookup))
                } else {
                    event.answer matches Answer::Object(obj) && result == Ok::<GapRef, GapError>(
                        GapRef { obj },
                    )
                }
            }
        }),
{
    let n = before.session.trace.len() as int;
    if exists|i: int| 0 <= i < name.len() && name[i] == '\0' {
        let i = choose|i: int| 0 <= i < name.len() && name[i] == '\0';
        assert(name.contains(name[i]));
    } else {
        assert(!name.contains('\0'));
        assert(after.session.trace[n] == after.session.trace.last());
    }
}

/// Every argument of a slice is handed over, in order, and nothing else.
pub proof fn law_every_argument_is_passed(args: Seq<&GapValue>, refs: Seq<&GapRef>)
    ensures
        argument_objs(args).len() == args.len(),
        forall|i: int| 0 <= i < args.len() ==> #[trigger] argument_objs(args)[i] == args[i]@.obj,
        argument_refs(refs).len() == refs.len(),
        forall|i: int| 0 <= i < refs.len() ==> #[trigger] argument_refs(refs)[i] == *refs[i],
{
}

/// Every handle and every value gives its object word, in order, and nothing else does.
pub proof fn law_every_element_is_passed(refs: Seq<GapRef>, values: Seq<GapValue>)
    ensures
        ref_objs(refs).len() == refs.len(),
        forall|i: int| 0 <= i < refs.len() ==> #[trigger] ref_objs(refs)[i] == refs[i].obj,
        value_objs(values).len() == values.len(),
        forall|i: int| 0 <= i < values.len() ==> #[trigger] value_objs(values)[i] == values[i]@.obj,
        value_refs(values).len() == values.len(),
        forall|i: int| 0 <= i < values.len() ==> #[trigger] value_refs(values)[i] == values[i]@,
{
}

/// A call of a function is one call, with the function and with all of the arguments;
/// an error that libgap reports during it is the result, and no earlier one; and the
/// error flag is clear afterwards.
pub proof fn law_call_passes_arguments(
    before: GapView,
    after: GapView,
    function: GapRef,
    args: Seq<Obj>,
    result: Result<GapRef, GapError>,
)
    requires
        called(before, after, function, args, result),
    ensures
        ({
            let n = before.session.trace.len() as int;
            let event = after.session.trace[n];
            &&& after.handles == before.handles
            &&& after.session.roots == before.session.roots
            &&& !after.session.error
            &&& grown(before.session, after.session, 1)
            &&& event.roots == before.session.roots
            &&& event.call matches Call::CallArray { function: asked, args: passed } && asked
                == function.obj && passed.len() == args.len() && forall|i: int|
                0 <= i < args.len() ==> #[trigger] passed[i] == args[i]
            &&& if event.raised {
                result == Err::<GapRef, GapError>(GapError::Reported(Activity::FunctionCall))
            } else {
                event.answer matches Answer::Object(obj) && result == Ok::<GapRef, GapError>(
                    GapRef { obj },
                )
            }
        }),
{
    let n = before.session.trace.len() as int;
    assert(after.session.trace[n] == after.session.trace.last());
}

/// A call with a slice of values passes as many arguments as the slice has, each the
/// object of the value at its place.
pub proof fn law_call_passes_values(
    before: GapView,
    after: GapView,
    function: GapRef,
    args: Seq<&GapValue>,
    result: Result<GapRef, GapError>,
)
    requires
        called(before, after, function, argument_objs(args), result),
    ensures
        after.session.trace[before.session.trace.len() as int].call matches Call::CallArray {
            function: asked,
            args: passed,
        } && asked == function.obj && passed.len() == args.len() && forall|i: int|
            0 <= i < args.len() ==> #[trigger] passed[i] == args[i]@.obj,
{
    law_call_passes_arguments(before, after, function, argument_objs(args), result);
    law_every_argument_is_passed(args, seq![]);
}

/// A call of a global function looks the name up and, unless that failed, calls what was
/// found with all of the arguments. If asked to, it keeps the function rooted meanwhile.
pub proof fn law_global_call_passes_arguments(
    before: GapView,
    after: GapView,
    name: Seq<char>,
    args: Seq<Obj>,
    rooted: bool,
    result: Result<GapRef, GapError>,
)
    requires
        called_global(before, after, name, args, rooted, result),
    ensures
        ({
            let n = before.session.trace.len() as int;
            let t = after.session.trace;
            let roots = before.session.roots;
            if exists|i: int| 0 <= i < name.len() && name[i] == '\0' {
                after == before && result == Err::<GapRef, GapError>(GapError::NulInName)
            } else {
                &&& after.handles == before.handles
                &&& after.session.roots == roots
                &&& !after.session.error
                &&& t.len() > n
                &&& t[n].roots == roots
                &&& t[n].call matches Call::GlobalVariable { name: asked } && asked == name
                &&& if before.session.error || t[n].raised {
                    &&& grown(before.session, after.session, 1)
                    &&& result == Err::<GapRef, GapError>(
                        GapError::Reported(Activity::GlobalLookup),
                    )
                } else {
                    &&& grown(before.session, after.session, 2)
                    &&& t[n].answer matches Answer::Object(function) && t[n + 1].call matches
                        Call::CallArray { function: asked, args: passed } && asked == function
                        && passed.len() == args.len() && (forall|i: int|
                        0 <= i < args.len() ==> #[trigger] passed[i] == args[i]) && t[n + 1].roots
                        == (if rooted {
                        roots.insert(GapRef { obj: function })
                    } else {
                        roots
                    })
                    &&& if t[n + 1].raised {
                        result == Err::<GapRef, GapError>(
                            GapError::Reported(Activity::FunctionCall),
                        )
                    } else {
                        t[n + 1].answer matches Answer::Object(obj) && result == Ok::<
                            GapRef,
                            GapError,
                        >(GapRef { obj })
                    }
                }
            }
        }),
{
    let n = before.session.trace.len() as int;
    let events = after.session.since(before.session);
    if exists|i: int| 0 <= i < name.len() && name[i] == '\0' {
        let i = choose|i: int| 0 <= i < name.len() && name[i] == '\0';
        assert(name.contains(name[i]));
    } else {
        assert(!name.contains('\0'));
        assert(events[0] == after.session.trace[n]);
        if events.len() == 2 {
            assert(events[1] == after.session.trace[n + 1]);
        }
    }
}

/// A call of a global function with a slice of values passes as many arguments as the
/// slice has, each the object of the value at its place.
pub proof fn law_global_call_passes_values(
    before: GapView,
    after: GapView,
    name: Seq<char>,
    args: Seq<&GapValue>,
    rooted: bool,
    result: Result<GapRef, GapError>,
)
    requires
        called_global(before, after, name, argument_objs(args), rooted, result),
        forall|i: int| 0 <= i < name.len() ==> name[i] != '\0',
        !before.session.error,
        !after.session.trace[before.session.trace.len() as int].raised,
    ensures
        after.session.trace[before.session.trace.len() as int + 1].call matches Call::CallArray {
            function: asked,
            args: passed,
        } && passed.len() == args.len() && forall|i: int|
            0 <= i < args.len() ==> #[trigger] passed[i] == args[i]@.obj,
{
    law_global_call_passes_arguments(before, after, name, argument_objs(args), rooted, result);
    law_every_argument_is_passed(args, seq![]);
}

// --- Integers and booleans ---
/// An integer object is made in one call, of exactly the number.
pub proof fn law_integer_is_handed_over(
    before: GapView,
    after: GapView,
    value: isize,
    result: GapRef,
)
    requires
        made_integer(before, after, value, result),
    ensures
        ({
            let event = after.session.trace[before.session.trace.len() as int];
            &&& after.handles == before.handles
            &&& grown(before.session, after.session, 1)
            &&& undisturbed(before.session, after.session)
            &&& event.call matches Call::ObjectOfInteger { value: asked } && asked == value
            &&& event.answer == Answer::Object(result.obj)
        }),
{
    law_call_is_recorded(
        before.session,
        after.session,
        Call::ObjectOfInteger { value: value as i64 },
        Answer::Object(result.obj),
    );
}

/// A count is the number that libgap gives for the object, or an error that names it if
/// it is negative.
pub proof fn law_count_is_the_number(
    before: GapView,
    after: GapView,
    value: GapRef,
    result: Result<usize, GapError>,
)
    requires
        counted(before, after, value, result),
    ensures
        ({
            let event = after.session.trace[before.session.trace.len() as int];
            &&& after.handles == before.handles
            &&& grown(before.session, after.session, 1)
            &&& undisturbed(before.session, after.session)
            &&& event.call == (Call::IntegerOfObject { object: value.obj })
            &&& event.answer matches Answer::Integer(number) && (if number < 0 {
                result == Err::<usize, GapError>(GapError::NegativeInteger(number))
            } else {
                number <= usize::MAX ==> (result matches Ok(count) && count == number)
            })
        }),
{
    let event = after.session.trace.last();
    law_call_is_recorded(
        before.session,
        after.session,
        Call::IntegerOfObject { object: value.obj },
        event.answer,
    );
    assert(after.session.trace[before.session.trace.len() as int] == event);
}

/// An object is `true` if it is GAP's `true`, `false` if it is GAP's `false` and not
/// `true`, and otherwise no boolean.
pub proof fn law_boolean_is_the_object(constants: Constants, value: GapRef)
    ensures
        bool_of(constants, value) == Ok::<bool, GapError>(true) <==> value.obj
            == constants.true_obj,
        bool_of(constants, value) == Ok::<bool, GapError>(false) <==> value.obj
            == constants.false_obj && value.obj != constants.true_obj,
        bool_of(constants, value) == Err::<bool, GapError>(GapError::NotABoolean) <==> value.obj
            != constants.true_obj && value.obj != constants.false_obj,
        is_fail_object(constants, value) <==> value.obj == constants.fail_obj || value.obj
            == constants.kernel_fail_obj,
{
}

// --- Lists ---
/// The element at a zero-based index is asked for at the position after it.
pub proof fn law_element_is_at_next_position(
    before: GapView,
    after: GapView,
    list: GapRef,
    idx: usize,
    result: Result<GapRef, GapError>,
)
    requires
        idx < usize::MAX,
        element_read(before, after, list, idx, result),
    ensures
        ({
            let event = after.session.trace[before.session.trace.len() as int];
            &&& after.handles == before.handles
            &&& grown(before.session, after.session, 1)
            &&& undisturbed(before.session, after.session)
            &&& event.call matches Call::ListElement { list: asked, position } && asked == list.obj
                && position == idx + 1
            &&& event.answer matches Answer::Object(obj) && result == Ok::<GapRef, GapError>(
                GapRef { obj },
            )
        }),
{
    law_call_is_recorded(
        before.session,
        after.session,
        Call::ListElement { list: list.obj, position: (idx + 1) as usize },
        Answer::Object(result->Ok_0.obj),
    );
}

/// A list's length is the number that libgap gives.
pub proof fn law_length_is_the_number(
    before: GapView,
    after: GapView,
    list: GapRef,
    length: usize,
)
    requires
        length_read(before, after, list, length),
    ensures
        ({
            let event = after.session.trace[before.session.trace.len() as int];
            &&& after.handles == before.handles
            &&& grown(before.session, after.session, 1)
            &&& undisturbed(before.session, after.session)
            &&& event.call == (Call::ListLength { list: list.obj })
            &&& event.answer matches Answer::Integer(number) && (0 <= number <= usize::MAX
                ==> length == number)
        }),
{
    let event = after.session.trace.last();
    law_call_is_recorded(
        before.session,
        after.session,
        Call::ListLength { list: list.obj },
        event.answer,
    );
    assert(after.session.trace[before.session.trace.len() as int] == event);
}

/// A list is made with room for all of its elements, gets their number as its length, and
/// gets each of them at the position after its index, in order; the garbage collector is
/// told at the end.
pub proof fn law_list_holds_every_element(
    before: GapView,
    after: GapView,
    elements: Seq<Obj>,
    list: GapRef,
)
    requires
        elements.len() <= usize::MAX - 2,
        list_made(before, after, elements, list),
    ensures
        ({
            let n = before.session.trace.len() as int;
            let t = after.session.trace;
            &&& after.handles == before.handles
            &&& undisturbed(before.session, after.session)
            &&& grown(before.session, after.session, elements.len() as int + 3)
            &&& t[n].call matches Call::NewPlist { capacity } && capacity == elements.len()
            &&& t[n].answer == Answer::Object(list.obj)
            &&& t[n + 1].call matches Call::SetPlistLength { list: made, length } && made
                == list.obj && length == elements.len()
            &&& forall|k: int|
                0 <= k < elements.len() ==> (#[trigger] t[n + 2 + k].call matches
                    Call::SetPlistElement { list: made, position, element } && made == list.obj
                    && position == k + 1 && element == elements[k])
            &&& t[n + 2 + elements.len()].call == (Call::ChangedBag { list: list.obj })
        }),
{
    lemma_undisturbed(before.session, after.session);
    let n = before.session.trace.len() as int;
    let t = after.session.trace;
    let events = after.session.since(before.session);
    assert(events[0] == t[n + 0] && events[1] == t[n + 1]);
    assert forall|k: int| 0 <= k < elements.len() implies (#[trigger] t[n + 2 + k].call matches
        Call::SetPlistElement { list: made, position, element } && made == list.obj && position
        == k + 1 && element == elements[k]) by {
        assert(events[k + 2] == t[n + (k + 2)]);
    }
    let m = elements.len() as int;
    assert(events[m + 2] == t[n + (m + 2)]);
}


// --- Permutations ---
/// Whether the `m + 3` calls from `at` on build `list` with, at the position after each
/// index, the object that the call at `from` plus the index returned.
pub open spec fn builds_list(t: Seq<Event>, at: int, m: int, from: int, list: Obj) -> bool {
    &&& t[at].call matches Call::NewPlist { capacity } && capacity == m
    &&& t[at].answer == Answer::Object(list)
    &&& t[at + 1].call matches Call::SetPlistLength { list: made, length } && made == list
        && length == m
    &&& forall|i: int|
        at + 2 <= i < at + 2 + m ==> ((#[trigger] t[i]).call matches Call::SetPlistElement {
            list: made,
            position,
            element,
        } && made == list && position == i - at - 1 && t[from + i - at - 2].answer
            == Answer::Object(element))
    &&& t[at + 2 + m].call == (Call::ChangedBag { list })
}

/// The same calls further on in a longer record.
proof fn lemma_builds_list(
    events: Seq<Event>,
    stage: Seq<Event>,
    elements: Seq<Obj>,
    list: Obj,
    at: int,
    from: int,
    n: int,
    t: Seq<Event>,
)
    requires
        list_calls(stage, elements, list),
        elements.len() <= usize::MAX - 2,
        0 <= n,
        0 <= from,
        0 <= at,
        at + elements.len() + 3 <= events.len(),
        from + elements.len() <= events.len(),
        stage == events.subrange(at, at + elements.len() + 3),
        t.len() == n + events.len(),
        forall|i: int| n <= i < t.len() ==> #[trigger] t[i] == events[i - n],
        forall|i: int|
            from <= i < from + elements.len() ==> (#[trigger] events[i]).answer == Answer::Object(
                elements[i - from],
            ),
    ensures
        builds_list(t, n + at, elements.len() as int, n + from, list),
{
    let m = elements.len() as int;
    assert(stage[0] == t[n + at] && stage[1] == t[n + at + 1] && stage[m + 2] == t[n + at + 2 + m]);
    assert forall|i: int| n + at + 2 <= i < n + at + 2 + m implies ((#[trigger] t[i]).call matches
        Call::SetPlistElement { list: made, position, element } && made == list && position == i
        - (n + at) - 1 && t[n + from + i - (n + at) - 2].answer == Answer::Object(element)) by {
        let k = i - (n + at) - 2;
        assert(stage[k + 2] == t[i]);
        assert(events[from + k].answer == Answer::Object(elements[k]));
        assert(t[n + from + k] == events[from + k]);
    }
}

/// Where the stages of making a permutation lie, and what the points returned.
proof fn lemma_stages_apart(roots: Multiset<GapRef>, events: Seq<Event>, images: Seq<usize>)
    requires
        list_stages(roots, events, images),
    ensures
        ({
            let m = images.len() as int;
            let sources = ref_objs(handles_of(events.take(m)));
            let targets = ref_objs(handles_of(events.subrange(m, 2 * m)));
            let source_list = events.subrange(2 * m, 3 * m + 3);
            let target_list = events.subrange(3 * m + 3, 4 * m + 6);
            &&& events.len() >= 4 * m + 6
            &&& sources.len() == m
            &&& targets.len() == m
            &&& forall|i: int|
                0 <= i < m ==> (#[trigger] events[i]).answer == Answer::Object(sources[i])
            &&& forall|i: int|
                m <= i < 2 * m ==> (#[trigger] events[i]).answer == Answer::Object(targets[i - m])
            &&& list_calls(source_list, sources, source_list[0].obj())
            &&& list_calls(target_list, targets, target_list[0].obj())
            &&& source_list[0] == events[2 * m]
            &&& target_list[0] == events[3 * m + 3]
            &&& events[2 * m].answer is Object
            &&& events[3 * m + 3].answer is Object
        }),
{
    let m = images.len() as int;
    let first = events.take(m);
    let second = events.subrange(m, 2 * m);
    assert forall|i: int| 0 <= i < m implies (#[trigger] events[i]).answer == Answer::Object(
        ref_objs(handles_of(first))[i],
    ) by {
        assert(first[i] == events[i]);
    }
    assert forall|i: int| m <= i < 2 * m implies (#[trigger] events[i]).answer == Answer::Object(
        ref_objs(handles_of(second))[i - m],
    ) by {
        assert(second[i - m] == events[i]);
    }
}

/// A permutation is made of all of its images: there is an integer object for each point,
/// counted from one, and then one for each image, counted from one.
#[verifier::spinoff_prover]
#[verifier::rlimit(60)]
pub proof fn law_permutation_has_every_point(
    before: GapView,
    after: GapView,
    images: Seq<usize>,
    result: Result<GapRef, GapError>,
)
    requires
        images.len() < isize::MAX,
        forall|k: int| 0 <= k < images.len() ==> #[trigger] images[k] < isize::MAX,
        permutation_made(before, after, images, result),
    ensures
        ({
            let n = before.session.trace.len() as int;
            let m = images.len() as int;
            let t = after.session.trace;
            &&& after.handles == before.handles
            &&& t.len() >= n + 4 * m + 7
            &&& forall|i: int| 0 <= i < n ==> #[trigger] t[i] == before.session.trace[i]
            &&& forall|i: int|
                n <= i < n + m ==> ((#[trigger] t[i]).call matches Call::ObjectOfInteger { value }
                    && value == i - n + 1)
            &&& forall|i: int|
                n + m <= i < n + 2 * m ==> ((#[trigger] t[i]).call matches
                    Call::ObjectOfInteger { value } && value == images[i - n - m] + 1)
        }),
{
    let n = before.session.trace.len() as int;
    let m = images.len() as int;
    let t = after.session.trace;
    let events = after.session.since(before.session);
    assert(t == before.session.trace + events);
    lemma_mapping_call(before, after, images, result);
    let sources = events.take(m);
    let targets = events.subrange(m, 2 * m);
    assert forall|i: int| n <= i < n + m implies ((#[trigger] t[i]).call matches
        Call::ObjectOfInteger { value } && value == i - n + 1) by {
        assert(sources[i - n] == t[i]);
    }
    assert forall|i: int| n + m <= i < n + 2 * m implies ((#[trigger] t[i]).call matches
        Call::ObjectOfInteger { value } && value == images[i - n - m] + 1) by {
        assert(targets[i - n - m] == t[i]);
    }
}

/// A permutation is made of two lists: one of all the points, and one of all the images,
/// each in order.
#[verifier::spinoff_prover]
#[verifier::rlimit(60)]
pub proof fn law_permutation_lists_every_point(
    before: GapView,
    after: GapView,
    images: Seq<usize>,
    result: Result<GapRef, GapError>,
)
    requires
        images.len() < isize::MAX,
        permutation_made(before, after, images, result),
    ensures
        ({
            let n = before.session.trace.len() as int;
            let m = images.len() as int;
            let t = after.session.trace;
            &&& t[n + 2 * m].answer matches Answer::Object(source) && builds_list(
                t,
                n + 2 * m,
                m,
                n,
                source,
            )
            &&& t[n + 3 * m + 3].answer matches Answer::Object(target) && builds_list(
                t,
                n + 3 * m + 3,
                m,
                n + m,
                target,
            )
        }),
{
    let n = before.session.trace.len() as int;
    let m = images.len() as int;
    let t = after.session.trace;
    let events = after.session.since(before.session);
    assert(t == before.session.trace + events);
    lemma_stages_apart(before.roots(), events, images);
    let sources = ref_objs(handles_of(events.take(m)));
    let targets = ref_objs(handles_of(events.subrange(m, 2 * m)));
    let source_list = events.subrange(2 * m, 3 * m + 3);
    let target_list = events.subrange(3 * m + 3, 4 * m + 6);
    assert(source_list[0] == t[n + 2 * m]);
    assert(target_list[0] == t[n + 3 * m + 3]);
    lemma_builds_list(
        events,
        source_list,
        sources,
        source_list[0].obj(),
        2 * m,
        0,
        n,
        t,
    );
    lemma_builds_list(
        events,
        target_list,
        targets,
        target_list[0].obj(),
        3 * m + 3,
        m,
        n,
        t,
    );
}

/// The integer objects of all points and images stay rooted while the lists are made of
/// them, and the first list stays rooted while the second is made.
#[verifier::spinoff_prover]
#[verifier::rlimit(60)]
pub proof fn law_points_stay_rooted(
    before: GapView,
    after: GapView,
    images: Seq<usize>,
    result: Result<GapRef, GapError>,
    i: int,
    j: int,
)
    requires
        permutation_made(before, after, images, result),
        0 <= j < 2 * images.len(),
        2 * images.len() <= i < 4 * images.len() + 6,
    ensures
        ({
            let n = before.session.trace.len() as int;
            let m = images.len() as int;
            let t = after.session.trace;
            &&& t[n + j].answer matches Answer::Object(point) && t[n + i].roots.contains(
                GapRef { obj: point },
            )
            &&& i >= 3 * m + 3 ==> (t[n + 2 * m].answer matches Answer::Object(source) && t[n
                + i].roots.contains(GapRef { obj: source }))
        }),
{
    let n = before.session.trace.len() as int;
    let t = after.session.trace;
    let events = after.session.since(before.session);
    assert(t == before.session.trace + events);
    lemma_points_rooted(before.roots(), events, images, i, j);
    assert(t[n + j] == events[j]);
    assert(t[n + i] == events[i]);
    let m = images.len() as int;
    assert(t[n + 2 * m] == events[2 * m]);
}

proof fn lemma_points_rooted(
    roots: Multiset<GapRef>,
    events: Seq<Event>,
    images: Seq<usize>,
    i: int,
    j: int,
)
    requires
        list_stages(roots, events, images),
        0 <= j < 2 * images.len(),
        2 * images.len() <= i < 4 * images.len() + 6,
    ensures
        events[j].answer matches Answer::Object(point) && events[i].roots.contains(
            GapRef { obj: point },
        ),
        i >= 3 * images.len() + 3 ==> (events[2 * images.len() as int].answer matches
            Answer::Object(source) && events[i].roots.contains(GapRef { obj: source })),
{
    broadcast use vstd::seq_lib::group_to_multiset_ensures;

    let m = images.len() as int;
    lemma_stages_apart(roots, events, images);
    let made = handles_of(events.take(2 * m));
    assert(made[j] == events[j].handle());
    assert(made.contains(made[j]));
    assert(made.to_multiset().contains(made[j]));
    if i < 3 * m + 3 {
        assert(events.subrange(2 * m, 3 * m + 3)[i - 2 * m] == events[i]);
    } else {
        assert(events.subrange(3 * m + 3, 4 * m + 6)[i - (3 * m + 3)] == events[i]);
    }
}

/// Whether the calls from `at` on look `MappingPermListList` up and call it with what the
/// calls at `first` and `second` returned, in this order, and `result` is what comes of
/// it. `pending` tells whether libgap had reported an error before the calls from `start`
/// on.
pub open spec fn mapped(
    t: Seq<Event>,
    pending: bool,
    start: int,
    at: int,
    first: int,
    second: int,
    result: Result<GapRef, GapError>,
) -> bool {
    &&& t.len() > at
    &&& t[at].call == (Call::GlobalVariable { name: "MappingPermListList"@ })
    &&& if pending || exists|i: int| start <= i <= at && (#[trigger] t[i]).raised {
        &&& t.len() == at + 1
        &&& result == Err::<GapRef, GapError>(GapError::Reported(Activity::GlobalLookup))
    } else {
        &&& t.len() == at + 2
        &&& t[at].answer matches Answer::Object(function) && t[first].answer matches
            Answer::Object(source) && t[second].answer matches Answer::Object(target) && t[at
            + 1].call == (Call::CallArray { function, args: seq![source, target] })
        &&& if t[at + 1].raised {
            result == Err::<GapRef, GapError>(GapError::Reported(Activity::FunctionCall))
        } else {
            t[at + 1].answer matches Answer::Object(obj) && result == Ok::<GapRef, GapError>(
                GapRef { obj },
            )
        }
    }
}

/// A permutation is what `MappingPermListList` makes of the list of points and the list
/// of images, in this order; an error that libgap reports is the result.
#[verifier::spinoff_prover]
#[verifier::rlimit(60)]
pub proof fn law_permutation_maps_lists(
    before: GapView,
    after: GapView,
    images: Seq<usize>,
    result: Result<GapRef, GapError>,
)
    requires
        permutation_made(before, after, images, result),
    ensures
        ({
            let n = before.session.trace.len() as int;
            let m = images.len() as int;
            mapped(
                after.session.trace,
                before.session.error,
                n,
                n + 4 * m + 6,
                n + 2 * m,
                n + 3 * m + 3,
                result,
            )
        }),
        !after.session.error,
{
    let n = before.session.trace.len() as int;
    let m = images.len() as int;
    let t = after.session.trace;
    let events = after.session.since(before.session);
    lemma_mapping_call(before, after, images, result);
    lemma_list_objects(before, after, images, result);
    lemma_raised_in_part(before.session.trace, events, 4 * m + 6);
    assert(t == before.session.trace + events);
}

/// The calls that make the two lists return objects.
#[verifier::spinoff_prover]
#[verifier::rlimit(60)]
proof fn lemma_list_objects(
    before: GapView,
    after: GapView,
    images: Seq<usize>,
    result: Result<GapRef, GapError>,
)
    requires
        permutation_made(before, after, images, result),
    ensures
        ({
            let n = before.session.trace.len() as int;
            let m = images.len() as int;
            let t = after.session.trace;
            &&& t == before.session.trace + after.session.since(before.session)
            &&& t[n + 2 * m].answer is Object
            &&& t[n + 3 * m + 3].answer is Object
        }),
{
    let n = before.session.trace.len() as int;
    let m = images.len() as int;
    let t = after.session.trace;
    let events = after.session.since(before.session);
    lemma_stages_apart(before.roots(), events, images);
    assert(events[2 * m] == t[n + 2 * m]);
    assert(events[3 * m + 3] == t[n + 3 * m + 3]);
}

/// An error was reported in the first calls after a record if one of them says so.
proof fn lemma_raised_in_part(earlier: Seq<Event>, events: Seq<Event>, count: int)
    requires
        0 <= count < events.len(),
    ensures
        ({
            let n = earlier.len() as int;
            let t = earlier + events;
            any_raised(events.take(count)) || t[n + count].raised <==> exists|i: int|
                n <= i <= n + count && (#[trigger] t[i]).raised
        }),
{
    let n = earlier.len() as int;
    let t = earlier + events;
    let part = events.take(count);
    if any_raised(part) {
        let i = choose|i: int| 0 <= i < part.len() && (#[trigger] part[i]).raised;
        assert(t[n + i].raised);
    }
    if exists|i: int| n <= i <= n + count && (#[trigger] t[i]).raised {
        let i = choose|i: int| n <= i <= n + count && (#[trigger] t[i]).raised;
        if i < n + count {
            assert(part[i - n].raised);
        }
    }
}

/// The lookup and the call at the end of making a permutation.
#[verifier::spinoff_prover]
#[verifier::rlimit(60)]
proof fn lemma_mapping_call(
    before: GapView,
    after: GapView,
    images: Seq<usize>,
    result: Result<GapRef, GapError>,
)
    requires
        permutation_made(before, after, images, result),
    ensures
        ({
            let n = before.session.trace.len() as int;
            let m = images.len() as int;
            let t = after.session.trace;
            let at = n + 4 * m + 6;
            let events = after.session.since(before.session);
            &&& t.len() > at
            &&& t[at].call == (Call::GlobalVariable { name: "MappingPermListList"@ })
            &&& !after.session.error
            &&& if before.session.error || any_raised(events.take(4 * m + 6)) || t[at].raised {
                &&& t.len() == at + 1
                &&& result == Err::<GapRef, GapError>(GapError::Reported(Activity::GlobalLookup))
            } else {
                &&& t.len() == at + 2
                &&& t[at].answer matches Answer::Object(function) && t[at + 1].call == (
                Call::CallArray {
                    function,
                    args: seq![t[n + 2 * m].obj(), t[n + 3 * m + 3].obj()],
                })
                &&& if t[at + 1].raised {
                    result == Err::<GapRef, GapError>(GapError::Reported(Activity::FunctionCall))
                } else {
                    t[at + 1].answer matches Answer::Object(obj) && result == Ok::<
                        GapRef,
                        GapError,
                    >(GapRef { obj })
                }
            }
        }),
{
    let n = before.session.trace.len() as int;
    let m = images.len() as int;
    let t = after.session.trace;
    let at = n + 4 * m + 6;
    let events = after.session.since(before.session);
    let prepared = with_lists(before, events, m);
    let args = seq![events[2 * m].obj(), events[3 * m + 3].obj()];
    assert(t == before.session.trace + events);
    assert(prepared.session.trace.len() == at);
    assert(events[2 * m] == t[n + 2 * m]);
    assert(events[3 * m + 3] == t[n + 3 * m + 3]);
    law_global_call_passes_arguments(
        prepared,
        after.with_roots(prepared.roots()),
        "MappingPermListList"@,
        args,
        true,
        result,
    );
    lemma_no_nul_in_mapping_name();
    if t.len() == at + 2 {
        assert(t[at + 1].call->CallArray_args =~= args);
    }
}

proof fn lemma_no_nul_in_mapping_name()
    ensures
        forall|i: int|
            0 <= i < "MappingPermListList"@.len() ==> "MappingPermListList"@[i] != '\0',
{
    reveal_strlit("MappingPermListList");
}

/// Reading images asks for each point in turn, counted from one: the point's integer
/// object and the permutation are handed to `OnPoints`, and the image is one less than
/// the number of the object that came back. There are as many images as points were
/// asked for.
pub proof fn law_images_are_read_in_turn(
    before: GapView,
    after: GapView,
    permutation: GapRef,
    degree: usize,
    result: Result<Vec<usize>, GapError>,
)
    requires
        degree < isize::MAX,
        images_read(before, after, permutation, degree, result),
        result is Ok,
    ensures
        ({
            let n = before.session.trace.len() as int;
            let t = after.session.trace;
            let images = result->Ok_0@;
            &&& after.handles == before.handles
            &&& after.session.roots == before.session.roots
            &&& images.len() == degree
            &&& grown(before.session, after.session, 1 + 3 * degree)
            &&& after.session.error <==> degree > 0 && t[t.len() - 1].raised
            &&& t[n].call == (Call::GlobalVariable { name: "OnPoints"@ })
            &&& t[n].answer is Object
            &&& forall|k: int|
                0 <= k < degree ==> {
                    &&& #[trigger] t[n + 1 + 3 * k].call matches Call::ObjectOfInteger { value }
                        && value == k + 1
                    &&& t[n + 1 + 3 * k].answer matches Answer::Object(point) && t[n + 2 + 3
                        * k].call matches Call::CallArray { function, args } && t[n].answer
                        == Answer::Object(function) && args == seq![point, permutation.obj]
                    &&& !t[n + 2 + 3 * k].raised
                    &&& t[n + 2 + 3 * k].answer matches Answer::Object(image) && t[n + 3 + 3
                        * k].call == (Call::IntegerOfObject { object: image })
                    &&& t[n + 3 + 3 * k].answer matches Answer::Integer(number) && (number
                        <= usize::MAX ==> number == images[k] + 1)
                    &&& t[n].answer matches Answer::Object(function) && t[n + 1 + 3
                        * k].roots.contains(GapRef { obj: function }) && t[n + 2 + 3
                        * k].roots.contains(GapRef { obj: function })
                    &&& t[n + 1 + 3 * k].answer matches Answer::Object(point) && t[n + 2 + 3
                        * k].roots.contains(GapRef { obj: point })
                    &&& t[n + 2 + 3 * k].answer matches Answer::Object(image) && t[n + 3 + 3
                        * k].roots.contains(GapRef { obj: image })
                }
        }),
{
    let n = before.session.trace.len() as int;
    let t = after.session.trace;
    let images = result->Ok_0@;
    let events = after.session.since(before.session);
    let function = events[0].handle();
    let roots = before.roots().insert(function);
    assert(t == before.session.trace + events);
    assert(events[0] == t[n]);
    assert forall|k: int| 0 <= k < degree implies {
        &&& #[trigger] t[n + 1 + 3 * k].call matches Call::ObjectOfInteger { value } && value == k
            + 1
        &&& t[n + 1 + 3 * k].answer matches Answer::Object(point) && t[n + 2 + 3 * k].call matches
            Call::CallArray { function, args } && t[n].answer == Answer::Object(function) && args
            == seq![point, permutation.obj]
        &&& !t[n + 2 + 3 * k].raised
        &&& t[n + 2 + 3 * k].answer matches Answer::Object(image) && t[n + 3 + 3 * k].call == (
        Call::IntegerOfObject { object: image })
        &&& t[n + 3 + 3 * k].answer matches Answer::Integer(number) && (number <= usize::MAX
            ==> number == images[k] + 1)
        &&& t[n].answer matches Answer::Object(function) && t[n + 1 + 3 * k].roots.contains(
            GapRef { obj: function },
        ) && t[n + 2 + 3 * k].roots.contains(GapRef { obj: function })
        &&& t[n + 1 + 3 * k].answer matches Answer::Object(point) && t[n + 2 + 3
            * k].roots.contains(GapRef { obj: point })
        &&& t[n + 2 + 3 * k].answer matches Answer::Object(image) && t[n + 3 + 3
            * k].roots.contains(GapRef { obj: image })
    } by {
        assert(point_read(events, k, function, permutation, roots));
        assert(events[1 + 3 * k] == t[n + 1 + 3 * k]);
        assert(events[1 + 3 * k + 1] == t[n + 2 + 3 * k]);
        assert(events[1 + 3 * k + 2] == t[n + 3 + 3 * k]);
        assert(events[3 + 3 * k] == t[n + 3 + 3 * k]);
    }
    if degree > 0 {
        let last = degree - 1;
        assert(point_read(events, last, function, permutation, roots));
        assert(events.last() == events[1 + 3 * last + 2]);
        assert(events.last() == t[t.len() - 1]);
    } else {
        assert(events.last() == events[0]);
    }
}

/// Reading images that ends with an error ends at the lookup, if an error was pending or
/// libgap reported one; at a call, if libgap reported an error; or at a number, if that is
/// negative or zero. It ends at one of the points that were asked for, and not before.
pub proof fn law_images_end_at_first_error(
    before: GapView,
    after: GapView,
    permutation: GapRef,
    degree: usize,
    result: Result<Vec<usize>, GapError>,
)
    requires
        images_read(before, after, permutation, degree, result),
        result is Err,
    ensures
        ({
            let n = before.session.trace.len() as int;
            let t = after.session.trace;
            let error = result->Err_0;
            &&& after.handles == before.handles
            &&& after.session.roots == before.session.roots
            &&& t.len() > n
            &&& t[n].call == (Call::GlobalVariable { name: "OnPoints"@ })
            &&& if before.session.error || t[n].raised {
                &&& t.len() == n + 1
                &&& error == GapError::Reported(Activity::GlobalLookup)
            } else {
                exists|k: int| #![trigger t[n + 2 + 3 * k]]
                    0 <= k < degree && (forall|j: int|
                        0 <= j < k ==> !(#[trigger] t[n + 2 + 3 * j]).raised) && (if t[n + 2 + 3
                        * k].raised {
                        t.len() == n + 3 + 3 * k && error == GapError::Reported(
                            Activity::FunctionCall,
                        )
                    } else {
                        t.len() == n + 4 + 3 * k && (t[n + 3 + 3 * k].answer matches
                            Answer::Integer(number) && (if number < 0 {
                            error == GapError::NegativeInteger(number)
                        } else {
                            error == GapError::OutsideDegree && (number <= usize::MAX ==> number
                                == 0)
                        }))
                    })
            }
        }),
{
    let n = before.session.trace.len() as int;
    let t = after.session.trace;
    let error = result->Err_0;
    let events = after.session.since(before.session);
    let function = events[0].handle();
    let roots = before.roots().insert(function);
    assert(t == before.session.trace + events);
    assert(events[0] == t[n]);
    if !(before.session.error || t[n].raised) {
        let (k, images) = choose|k: int, images: Seq<usize>|
            0 <= k < degree && #[trigger] points_read(
                events,
                k,
                function,
                permutation,
                roots,
                images,
            ) && stopped_at(events, k, function, permutation, roots, error);
        assert(events[2 + 3 * k] == t[n + 2 + 3 * k]);
        assert(events.len() == 4 + 3 * k ==> events[3 + 3 * k] == t[n + 3 + 3 * k]);
        assert(events[1 + 3 * k + 1] == t[n + 2 + 3 * k]);
        assert(events.len() == 4 + 3 * k ==> events[1 + 3 * k + 2] == t[n + 3 + 3 * k]);
        assert forall|j: int| 0 <= j < k implies !(#[trigger] t[n + 2 + 3 * j]).raised by {
            assert(point_read(events, j, function, permutation, roots));
            assert(events[1 + 3 * j + 1] == t[n + 2 + 3 * j]);
        }
    }
}

// --- Starting ---
/// Starting GAP at a root that is not refused hands libgap the eight arguments, the root
/// list third; opens an output stream on a new string; and looks up what rendering and
/// evaluating need. The interpreter keeps the objects that these calls returned.
pub proof fn law_start_call_by_call(
    tree: TreeView,
    root: Seq<u8>,
    before: SessionView,
    after: SessionView,
    result: Result<Handles, GapError>,
)
    requires
        start_outcome(tree, root, before, after, result),
        after.trace.len() > before.trace.len(),
    ensures
        ({
            let n = before.trace.len() as int;
            let t = after.trace;
            &&& forall|i: int| 0 <= i < n ==> #[trigger] t[i] == before.trace[i]
            &&& forall|i: int|
                n <= i < t.len() ==> (#[trigger] t[i]).roots == Multiset::<GapRef>::empty()
            &&& after.roots == Multiset::<GapRef>::empty()
            &&& after.error <==> exists|i: int| n < i < t.len() && (#[trigger] t[i]).raised
            &&& t[n].call matches Call::Initialize { argv } && argv.len() == 8 && argv[0] == "gap"@
                && argv[1] == "-l"@ && argv[2] == root_arg_text(tree, root) && argv[3] == "-q"@
                && argv[4] == "-E"@ && argv[5] == "--nointeract"@ && argv[6] == "-x"@ && argv[7]
                == "4096"@
            &&& if t[n].raised {
                &&& t.len() == n + 1
                &&& result == Err::<Handles, GapError>(GapError::InitializationReported)
            } else {
                &&& t.len() >= n + 5
                &&& t[n + 1].call == (Call::VariableValue { name: "OutputTextString"@ })
                &&& t[n + 2].call == (Call::NewString { length: 0 })
                &&& t[n].answer matches Answer::Constants(constants) && t[n + 1].answer matches
                    Answer::Object(operation) && t[n + 2].answer matches Answer::Object(string)
                    && t[n + 3].call == (Call::Operation2 {
                    operation,
                    first: string,
                    second: constants.true_obj,
                })
                &&& t[n + 3].answer matches Answer::Object(stream) && t[n + 4].call == (
                Call::OpenOutputStream { stream })
                &&& if t[n + 4].answer != Answer::Count(1) {
                    &&& t.len() == n + 5
                    &&& result == Err::<Handles, GapError>(GapError::NoOutputStream)
                } else {
                    &&& t.len() == n + 7
                    &&& t[n + 5].call == (Call::GlobalVariable { name: "PrintTo"@ })
                    &&& t[n + 6].call == (Call::GlobalVariable { name: "InputTextString"@ })
                    &&& result matches Ok(handles) && t[n].answer == Answer::Constants(
                        handles.constants,
                    ) && t[n + 2].answer == Answer::Object(handles.output_str_obj) && t[n
                        + 3].answer == Answer::Object(handles.output_stream_handle) && t[n
                        + 5].answer == Answer::Object(handles.print_fn) && t[n + 6].answer
                        == Answer::Object(handles.input_stream)
                }
            }
        }),
{
    let n = before.trace.len() as int;
    let t = after.trace;
    let events = after.since(before);
    assert(t =~= before.trace + events);
    assert forall|i: int| n <= i < t.len() implies #[trigger] t[i] == events[i - n] by {}
    let later = events.skip(1);
    if any_raised(later) {
        let i = choose|i: int| 0 <= i < later.len() && (#[trigger] later[i]).raised;
        assert(t[n + 1 + i].raised);
    }
    if exists|i: int| n < i < t.len() && (#[trigger] t[i]).raised {
        let i = choose|i: int| n < i < t.len() && (#[trigger] t[i]).raised;
        assert(later[i - n - 1].raised);
    }
    assert(events[0] == t[n]);
}


/// A root without `lib/init.g` below it is refused by name, and one whose root list holds
/// a NUL is refused too; nothing is said to libgap then, and nothing changes. No other
/// root is refused.
pub proof fn law_refused_start_says_nothing(
    tree: TreeView,
    root: Seq<u8>,
    before: SessionView,
    after: SessionView,
    result: Result<Handles, GapError>,
)
    requires
        start_outcome(tree, root, before, after, result),
    ensures
        ({
            let core = joined(joined(root, encode_utf8("lib"@)), encode_utf8("init.g"@));
            let arg = root_arg_text(tree, root);
            if !tree.is_file(core) {
                &&& after == before
                &&& result matches Err(GapError::InvalidRoot(named)) && named@ == root
            } else if exists|i: int| 0 <= i < arg.len() && arg[i] == '\0' {
                &&& after == before
                &&& result == Err::<Handles, GapError>(GapError::NulInRoot)
            } else {
                after.trace.len() > before.trace.len()
            }
        }),
{
    let arg = root_arg_text(tree, root);
    if arg.contains('\0') {
        let i = arg.index_of('\0');
        assert(arg[i] == '\0');
    }
}


/// The root that is used by default is the one that the environment names, if it names
/// one, and otherwise the one that was found at build time.
pub proof fn law_default_root(host: Host)
    ensures
        host.env_root matches Some(root) ==> host.default_root() == root@,
        host.env_root is None ==> host.default_root() == host.build_root@,
{
}

}
