//! What comes back over several operations, where libgap keeps what it is told.

use crate::error::GapError;
use crate::gap::evaluation::displayed;
use crate::gap::lists::{element_read, length_read, list_made};
use crate::gap::values::{counted, made_integer};
use crate::gap::{start_outcome, GapView, Handles};
use crate::handle::{GapRef, Obj};
use crate::kernel::{Answer, Call, Event};
use crate::session::SessionView;
use crate::text::text_of;
use crate::tree::TreeView;
use vstd::prelude::*;
use vstd::utf8::{decode_utf8, valid_utf8};

verus! {

/// Whether a conversation at `later` is one at `earlier` that went on.
pub open spec fn follows(earlier: GapView, later: GapView) -> bool {
    earlier.session.trace.is_prefix_of(later.session.trace)
}

proof fn lemma_follows(earlier: GapView, later: GapView, i: int)
    requires
        follows(earlier, later),
        0 <= i < earlier.session.trace.len(),
    ensures
        later.session.trace[i] == earlier.session.trace[i],
        earlier.session.trace.len() <= later.session.trace.len(),
{
    let n = earlier.session.trace.len() as int;
    assert(later.session.trace.subrange(0, n)[i] == later.session.trace[i]);
}

// --- Integers ---
/// Whether a number fits GAP's immediate integers.
pub open spec fn is_immediate(value: int) -> bool {
    -0x1000_0000_0000_0000 <= value < 0x1000_0000_0000_0000
}

/// Whether libgap gives the number back for each immediate integer that it made.
pub open spec fn keeps_integers(trace: Seq<Event>) -> bool {
    forall|i: int, j: int|
        0 <= i < j < trace.len() && (#[trigger] trace[i]).call is ObjectOfInteger && is_immediate(
            trace[i].call->ObjectOfInteger_value as int,
        ) && (#[trigger] trace[j]).call == (Call::IntegerOfObject { object: trace[i].obj() })
            ==> trace[j].answer == Answer::Integer(trace[i].call->ObjectOfInteger_value)
}

/// An integer object of an immediate number converts back to that number, or is refused
/// if the number is negative; it is never taken for another count.
pub proof fn law_integer_comes_back(
    before: GapView,
    made: GapView,
    later: GapView,
    after: GapView,
    value: isize,
    object: GapRef,
    result: Result<usize, GapError>,
)
    requires
        is_immediate(value as int),
        made_integer(before, made.with_roots(before.roots()), value, object),
        follows(made, later),
        counted(later, after, object, result),
        keeps_integers(after.session.trace),
    ensures
        result == (if value >= 0 {
            Ok::<usize, GapError>(value as usize)
        } else {
            Err(GapError::NegativeInteger(value as i64))
        }),
{
    let i = made.session.trace.len() - 1;
    let j = after.session.trace.len() - 1;
    lemma_follows(made, later, i);
    assert(after.session.trace[i] == made.session.trace[i]);
    assert(after.session.trace[j] == after.session.trace.last());
}

// --- Lists ---
/// What a call leaves at a list's position that held `held`.
pub open spec fn element_after(
    held: Option<Obj>,
    event: Event,
    list: Obj,
    position: usize,
) -> Option<Obj> {
    match event.call {
        Call::SetPlistElement { list: l, position: p, element } if l == list && p == position =>
            Some(element),
        Call::NewPlist { .. } if event.obj() == list => None,
        _ => held,
    }
}

/// The element that was written last at a list's position since the list was made.
pub open spec fn element_at(trace: Seq<Event>, list: Obj, position: usize) -> Option<Obj>
    decreases trace.len(),
{
    if trace.len() == 0 {
        None
    } else {
        element_after(element_at(trace.drop_last(), list, position), trace.last(), list, position)
    }
}

/// What a call leaves of a list's length that was `held`.
pub open spec fn length_after(held: Option<usize>, event: Event, list: Obj) -> Option<usize> {
    match event.call {
        Call::SetPlistLength { list: l, length } if l == list => Some(length),
        Call::NewPlist { .. } if event.obj() == list => None,
        _ => held,
    }
}

/// The length that was set last for a list since the list was made.
pub open spec fn length_of(trace: Seq<Event>, list: Obj) -> Option<usize>
    decreases trace.len(),
{
    if trace.len() == 0 {
        None
    } else {
        length_after(length_of(trace.drop_last(), list), trace.last(), list)
    }
}

/// Whether libgap answers with the elements that were written and the lengths that were
/// set.
pub open spec fn keeps_lists(trace: Seq<Event>) -> bool {
    forall|j: int|
        0 <= j < trace.len() ==> list_answer_kept(trace.take(j), #[trigger] trace[j])
}

/// Whether a question about a list is answered as the calls before it left the list.
pub open spec fn list_answer_kept(earlier: Seq<Event>, event: Event) -> bool {
    match event.call {
        Call::ListElement { list, position } => element_at(earlier, list, position) matches Some(
            element,
        ) ==> event.answer == Answer::Object(element),
        Call::ListLength { list } => length_of(earlier, list) matches Some(length) ==> event.answer
            is Integer && event.integer() == length,
        _ => true,
    }
}

/// Whether no call between the points writes to the list.
pub open spec fn list_untouched(earlier: GapView, later: GapView, list: Obj) -> bool {
    forall|i: int|
        earlier.session.trace.len() <= i < later.session.trace.len() ==> !writes_to(
            #[trigger] later.session.trace[i],
            list,
        )
}

/// Whether a call writes to the list, or makes a new list of that name.
pub open spec fn writes_to(event: Event, list: Obj) -> bool {
    match event.call {
        Call::SetPlistElement { list: l, .. } => l == list,
        Call::SetPlistLength { list: l, .. } => l == list,
        Call::NewPlist { .. } => event.obj() == list,
        _ => false,
    }
}

/// An element stays where it was written until the position is written again.
proof fn lemma_element_at(trace: Seq<Event>, k: int, list: Obj, position: usize, element: Obj)
    requires
        0 <= k < trace.len(),
        trace[k].call == (Call::SetPlistElement { list, position, element }),
        forall|i: int|
            k < i < trace.len() ==> element_after(Some(element), #[trigger] trace[i], list, position)
                == Some(element),
    ensures
        element_at(trace, list, position) == Some(element),
    decreases trace.len(),
{
    if k < trace.len() - 1 {
        let shorter = trace.drop_last();
        assert forall|i: int| k < i < shorter.len() implies element_after(
            Some(element),
            #[trigger] shorter[i],
            list,
            position,
        ) == Some(element) by {
            assert(shorter[i] == trace[i]);
        }
        lemma_element_at(shorter, k, list, position, element);
        assert(trace.last() == trace[trace.len() - 1]);
    }
}

/// A length stays as it was set until it is set again.
proof fn lemma_length_of(trace: Seq<Event>, k: int, list: Obj, length: usize)
    requires
        0 <= k < trace.len(),
        trace[k].call == (Call::SetPlistLength { list, length }),
        forall|i: int|
            k < i < trace.len() ==> length_after(Some(length), #[trigger] trace[i], list) == Some(
                length,
            ),
    ensures
        length_of(trace, list) == Some(length),
    decreases trace.len(),
{
    if k < trace.len() - 1 {
        let shorter = trace.drop_last();
        assert forall|i: int| k < i < shorter.len() implies length_after(
            Some(length),
            #[trigger] shorter[i],
            list,
        ) == Some(length) by {
            assert(shorter[i] == trace[i]);
        }
        lemma_length_of(shorter, k, list, length);
        assert(trace.last() == trace[trace.len() - 1]);
    }
}

/// The calls that build a list, found in a later record.
proof fn lemma_list_record(
    before: GapView,
    made: GapView,
    later: GapView,
    elements: Seq<Obj>,
    list: GapRef,
    i: int,
)
    requires
        elements.len() <= usize::MAX,
        list_made(before, made.with_roots(before.roots()), elements, list),
        follows(made, later),
        before.session.trace.len() + 1 <= i < made.session.trace.len(),
    ensures
        made.session.trace.len() == before.session.trace.len() + elements.len() + 3,
        ({
            let at = i - before.session.trace.len();
            let n = elements.len();
            later.session.trace[i].call == (if at == 1 {
                Call::SetPlistLength { list: list.obj, length: n as usize }
            } else if at < n + 2 {
                Call::SetPlistElement {
                    list: list.obj,
                    position: (at - 1) as usize,
                    element: elements[at - 2],
                }
            } else {
                Call::ChangedBag { list: list.obj }
            })
        }),
{
    let events = made.session.since(before.session);
    lemma_follows(made, later, i);
    assert(made.session.trace[i] == events[i - before.session.trace.len()]);
}

/// The elements of a list that was built come back in order.
pub proof fn law_list_elements_come_back(
    before: GapView,
    made: GapView,
    later: GapView,
    after: GapView,
    elements: Seq<Obj>,
    list: GapRef,
    idx: usize,
    result: Result<GapRef, GapError>,
)
    requires
        idx < elements.len() <= usize::MAX,
        list_made(before, made.with_roots(before.roots()), elements, list),
        follows(made, later),
        list_untouched(made, later, list.obj),
        element_read(later, after.with_roots(later.roots()), list, idx, result),
        keeps_lists(after.session.trace),
    ensures
        result == Ok::<GapRef, GapError>(GapRef { obj: elements[idx as int] }),
{
    let start = before.session.trace.len() as int;
    let n = elements.len() as int;
    let k = start + 2 + idx;
    let trace = later.session.trace;
    let position = (idx + 1) as usize;
    let element = elements[idx as int];
    lemma_follows(made, later, made.session.trace.len() - 1);
    lemma_list_record(before, made, later, elements, list, start + 1);
    lemma_list_record(before, made, later, elements, list, k);
    assert forall|i: int| k < i < trace.len() implies element_after(
        Some(element),
        #[trigger] trace[i],
        list.obj,
        position,
    ) == Some(element) by {
        if i < made.session.trace.len() {
            lemma_list_record(before, made, later, elements, list, i);
        } else {
            assert(!writes_to(trace[i], list.obj));
        }
    }
    lemma_element_at(trace, k, list.obj, position, element);
    let all = after.session.trace;
    assert(all.take(all.len() - 1) =~= trace);
    assert(list_answer_kept(all.take(all.len() - 1), all[all.len() - 1]));
}

/// The length of a list that was built is the number of its elements.
pub proof fn law_list_length_comes_back(
    before: GapView,
    made: GapView,
    later: GapView,
    after: GapView,
    elements: Seq<Obj>,
    list: GapRef,
    length: usize,
)
    requires
        elements.len() <= usize::MAX,
        list_made(before, made.with_roots(before.roots()), elements, list),
        follows(made, later),
        list_untouched(made, later, list.obj),
        length_read(later, after, list, length),
        keeps_lists(after.session.trace),
    ensures
        length == elements.len(),
{
    let start = before.session.trace.len() as int;
    let k = start + 1;
    let trace = later.session.trace;
    let n = elements.len() as usize;
    lemma_follows(made, later, made.session.trace.len() - 1);
    lemma_list_record(before, made, later, elements, list, k);
    assert forall|i: int| k < i < trace.len() implies length_after(
        Some(n),
        #[trigger] trace[i],
        list.obj,
    ) == Some(n) by {
        if i < made.session.trace.len() {
            lemma_list_record(before, made, later, elements, list, i);
        } else {
            assert(!writes_to(trace[i], list.obj));
        }
    }
    lemma_length_of(trace, k, list.obj, n);
    let all = after.session.trace;
    assert(all.take(all.len() - 1) =~= trace);
    assert(list_answer_kept(all.take(all.len() - 1), all[all.len() - 1]));
}

// --- Rendering ---
/// What a call leaves in the string behind the output stream: it is empty when it is new,
/// printing an object adds what `printed` gives for it, and setting the length cuts the
/// string.
pub open spec fn output_after(
    handles: Handles,
    printed: spec_fn(Obj) -> Seq<u8>,
    content: Seq<u8>,
    event: Event,
) -> Seq<u8> {
    match event.call {
        Call::NewString { length } if length == 0 && event.answer == Answer::Object(
            handles.output_str_obj,
        ) => seq![],
        Call::Call2 { function, first, second } if function == handles.print_fn && first
            == handles.output_stream_handle => content + printed(second),
        Call::SetStringLength { string, length } if string == handles.output_str_obj && length
            <= content.len() => content.take(length as int),
        _ => content,
    }
}

/// What the string behind the output stream holds after the calls.
pub open spec fn output_of(
    handles: Handles,
    printed: spec_fn(Obj) -> Seq<u8>,
    trace: Seq<Event>,
) -> Seq<u8>
    decreases trace.len(),
{
    if trace.len() == 0 {
        seq![]
    } else {
        output_after(handles, printed, output_of(handles, printed, trace.drop_last()), trace.last())
    }
}

/// Whether a question about the output string is answered with what the string holds.
pub open spec fn output_answer_kept(handles: Handles, content: Seq<u8>, event: Event) -> bool {
    match event.call {
        Call::StringLength { string } if string == handles.output_str_obj => event.answer is Count
            && event.answer->Count_0 == content.len(),
        Call::StringBytes { string, length } if string == handles.output_str_obj && length
            <= content.len() => event.answer == Answer::Bytes(content.take(length as int)),
        _ => true,
    }
}

/// Whether libgap answers with what was printed to the output string.
pub open spec fn keeps_output(
    handles: Handles,
    printed: spec_fn(Obj) -> Seq<u8>,
    trace: Seq<Event>,
) -> bool {
    forall|j: int|
        0 <= j < trace.len() ==> output_answer_kept(
            handles,
            output_of(handles, printed, trace.take(j)),
            #[trigger] trace[j],
        )
}

/// The output string is empty once GAP is started, whatever was said before.
pub proof fn law_output_starts_empty(
    tree: TreeView,
    root: Seq<u8>,
    before: SessionView,
    gap: GapView,
    printed: spec_fn(Obj) -> Seq<u8>,
)
    requires
        start_outcome(tree, root, before, gap.session, Ok(gap.handles)),
    ensures
        output_of(gap.handles, printed, gap.session.trace) == Seq::<u8>::empty(),
{
    let handles = gap.handles;
    let all = gap.session.trace;
    let n = before.trace.len() as int;
    let events = gap.session.since(before);
    assert(all.len() == n + 7);
    assert(all[n + 2] == events[2] && all[n + 3] == events[3] && all[n + 4] == events[4] && all[n
        + 5] == events[5] && all[n + 6] == events[6]);
    lemma_output_step(handles, printed, all, n + 2);
    lemma_output_step(handles, printed, all, n + 3);
    lemma_output_step(handles, printed, all, n + 4);
    lemma_output_step(handles, printed, all, n + 5);
    lemma_output_step(handles, printed, all, n + 6);
    assert(all.take(n + 7) =~= all);
}

/// Rendering an object gives exactly what printing it gives, and leaves nothing behind.
pub proof fn law_display_is_print(
    before: GapView,
    after: GapView,
    value: GapRef,
    text: Seq<char>,
    printed: spec_fn(Obj) -> Seq<u8>,
)
    requires
        displayed(before, after, value, text),
        keeps_output(before.handles, printed, after.session.trace),
        output_of(before.handles, printed, before.session.trace) == Seq::<u8>::empty(),
    ensures
        text == text_of(printed(value.obj)),
        output_of(after.handles, printed, after.session.trace) == Seq::<u8>::empty(),
        follows(before, after),
{
    let handles = before.handles;
    let start = before.session.trace;
    let all = after.session.trace;
    let n = start.len() as int;
    let events = after.session.since(before.session);
    let bytes = printed(value.obj);
    assert(all.len() == n + 4);
    assert(all[n] == events[0] && all[n + 1] == events[1] && all[n + 2] == events[2] && all[n + 3]
        == events[3]);
    assert(all.subrange(0, n) =~= start);
    assert(all.take(n) =~= start);
    lemma_output_step(handles, printed, all, n);
    assert(Seq::<u8>::empty() + bytes =~= bytes);
    lemma_output_step(handles, printed, all, n + 1);
    lemma_output_step(handles, printed, all, n + 2);
    lemma_output_step(handles, printed, all, n + 3);
    assert(output_answer_kept(handles, output_of(handles, printed, all.take(n + 1)), all[n + 1]));
    assert(output_answer_kept(handles, output_of(handles, printed, all.take(n + 2)), all[n + 2]));
    assert(bytes.take(bytes.len() as int) =~= bytes);
    assert(bytes.take(0) =~= Seq::<u8>::empty());
    assert(all.take(n + 4) =~= all);
}

proof fn lemma_output_step(
    handles: Handles,
    printed: spec_fn(Obj) -> Seq<u8>,
    trace: Seq<Event>,
    k: int,
)
    requires
        0 <= k < trace.len(),
    ensures
        output_of(handles, printed, trace.take(k + 1)) == output_after(
            handles,
            printed,
            output_of(handles, printed, trace.take(k)),
            trace[k],
        ),
{
    assert(trace.take(k + 1).drop_last() =~= trace.take(k));
    assert(trace.take(k + 1).last() == trace[k]);
}

/// However many objects are rendered one after the other, nothing of an earlier
/// rendering is left in a later one: each text is exactly what printing the object gives,
/// so equal objects give equal texts, and an object that prints as nothing gives an empty
/// text.
pub proof fn law_displays_do_not_mix(
    states: Seq<GapView>,
    values: Seq<GapRef>,
    texts: Seq<Seq<char>>,
    printed: spec_fn(Obj) -> Seq<u8>,
)
    requires
        states.len() == values.len() + 1,
        texts.len() == values.len(),
        forall|i: int|
            0 <= i < values.len() ==> #[trigger] displayed(
                states[i],
                states[i + 1],
                values[i],
                texts[i],
            ),
        keeps_output(states[0].handles, printed, states.last().session.trace),
        output_of(states[0].handles, printed, states[0].session.trace) == Seq::<u8>::empty(),
    ensures
        forall|i: int|
            0 <= i < values.len() ==> texts[i] == text_of(printed((#[trigger] values[i]).obj)),
        forall|i: int, j: int|
            0 <= i < values.len() && 0 <= j < values.len() && #[trigger] values[i]
                == #[trigger] values[j] ==> texts[i] == texts[j],
        forall|i: int|
            0 <= i < values.len() && printed((#[trigger] values[i]).obj).len() == 0
                ==> texts[i].len() == 0,
        output_of(states[0].handles, printed, states.last().session.trace) == Seq::<u8>::empty(),
    decreases values.len(),
{
    if values.len() > 0 {
        let n = values.len() - 1;
        let shorter = states.drop_last();
        assert(displayed(states[n], states[n + 1], values[n], texts[n]));
        lemma_display_follows(states[n], states[n + 1], values[n], texts[n]);
        lemma_output_kept_before(
            states[0].handles,
            printed,
            states[n].session.trace,
            states[n + 1].session.trace,
        );
        assert forall|i: int| 0 <= i < n implies #[trigger] displayed(
            shorter[i],
            shorter[i + 1],
            values.drop_last()[i],
            texts.drop_last()[i],
        ) by {
            assert(displayed(states[i], states[i + 1], values[i], texts[i]));
        }
        law_displays_do_not_mix(shorter, values.drop_last(), texts.drop_last(), printed);
        lemma_handles_kept(states, values, texts, n);
        law_display_is_print(states[n], states[n + 1], values[n], texts[n], printed);
        assert forall|i: int| 0 <= i < values.len() implies texts[i] == text_of(
            printed((#[trigger] values[i]).obj),
        ) by {
            if i < n {
                assert(values.drop_last()[i] == values[i]);
                assert(texts.drop_last()[i] == texts[i]);
            }
        }
        assert forall|i: int|
            0 <= i < values.len() && printed((#[trigger] values[i]).obj).len() == 0 implies texts[i].len()
            == 0 by {
            lemma_nothing_is_empty_text(printed(values[i].obj));
        }
    }
}

proof fn lemma_display_follows(
    before: GapView,
    after: GapView,
    value: GapRef,
    text: Seq<char>,
)
    requires
        displayed(before, after, value, text),
    ensures
        follows(before, after),
{
    let n = before.session.trace.len() as int;
    assert(after.session.trace.subrange(0, n) =~= before.session.trace);
}

proof fn lemma_output_kept_before(
    handles: Handles,
    printed: spec_fn(Obj) -> Seq<u8>,
    earlier: Seq<Event>,
    later: Seq<Event>,
)
    requires
        earlier.is_prefix_of(later),
        keeps_output(handles, printed, later),
    ensures
        keeps_output(handles, printed, earlier),
{
    let n = earlier.len() as int;
    assert forall|j: int| 0 <= j < n implies output_answer_kept(
        handles,
        output_of(handles, printed, earlier.take(j)),
        #[trigger] earlier[j],
    ) by {
        assert(later.subrange(0, n)[j] == later[j]);
        assert(earlier.take(j) =~= later.take(j));
    }
}

proof fn lemma_handles_kept(
    states: Seq<GapView>,
    values: Seq<GapRef>,
    texts: Seq<Seq<char>>,
    n: int,
)
    requires
        0 <= n <= values.len(),
        states.len() == values.len() + 1,
        forall|i: int|
            0 <= i < values.len() ==> #[trigger] displayed(
                states[i],
                states[i + 1],
                values[i],
                texts[i],
            ),
    ensures
        states[n].handles == states[0].handles,
    decreases n,
{
    if n > 0 {
        lemma_handles_kept(states, values, texts, n - 1);
        assert(displayed(states[n - 1], states[n - 1 + 1], values[n - 1], texts[n - 1]));
    }
}

proof fn lemma_nothing_is_empty_text(bytes: Seq<u8>)
    requires
        bytes.len() == 0,
    ensures
        text_of(bytes).len() == 0,
{
    assert(valid_utf8(bytes));
    assert(decode_utf8(bytes).len() == 0);
}

}
