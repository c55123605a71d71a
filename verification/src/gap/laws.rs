//! What holds of the interpreter over several operations.

use crate::error::{Activity, GapError};
use crate::gap::calls::{called, called_global, looked_up};
use crate::gap::evaluation::{displayed, evaluated, string_read};
use crate::gap::lists::{element_read, length_read, list_made};
use crate::gap::permutations::{
    image_of, images_read, list_stages, permutation_made, point_read, points_read, source_points,
    stopped_at, target_points, with_lists,
};
use crate::gap::values::{bool_of, counted, is_fail_object, made_integer};
use crate::gap::{lemma_starts_of_others, roots_with, starts, GapView};
use crate::handle::{GapRef, Obj};
use crate::kernel::{any_raised, Answer, Call, Constants, Event};
use crate::roots::GapValue;
use crate::session::asked;
use vstd::multiset::Multiset;
use vstd::prelude::*;

verus! {

// --- Rooted objects ---
/// Whether all that is rooted at `before` was rooted during each of the calls made up to
/// `after`, and is rooted still.
pub open spec fn protected(before: GapView, after: GapView) -> bool {
    &&& before.session.trace.len() <= after.session.trace.len()
    &&& before.roots().subset_of(after.roots())
    &&& forall|i: int|
        before.session.trace.len() <= i < after.session.trace.len() ==> before.roots().subset_of(
            (#[trigger] after.session.trace[i]).roots,
        )
}

/// Whether libgap was not started again in any of the calls made up to `after`.
pub open spec fn runs_on(before: GapView, after: GapView) -> bool {
    forall|i: int|
        before.session.trace.len() <= i < after.session.trace.len() ==> !((
        #[trigger] after.session.trace[i]).call is Initialize)
}

/// While libgap is not started again, the number of its starts stays the same.
pub proof fn law_running_starts_nothing(before: GapView, after: GapView)
    requires
        before.session.trace.is_prefix_of(after.session.trace),
        runs_on(before, after),
    ensures
        starts(after.session.trace) == starts(before.session.trace),
{
    let n = before.session.trace.len() as int;
    let events = after.session.trace.skip(n);
    let is_start = |event: Event| event.call is Initialize;
    assert(after.session.trace.subrange(0, n) == before.session.trace);
    assert(after.session.trace =~= before.session.trace + events);
    Seq::filter_distributes_over_add(before.session.trace, events, is_start);
    lemma_starts_of_others(events);
}

/// Operations one after the other do not start libgap again if none of them does.
pub proof fn law_running_goes_on(before: GapView, middle: GapView, after: GapView)
    requires
        runs_on(before, middle),
        runs_on(middle, after),
        middle.session.trace.is_prefix_of(after.session.trace),
    ensures
        runs_on(before, after),
{
    assert forall|i: int|
        before.session.trace.len() <= i < after.session.trace.len() implies !((
    #[trigger] after.session.trace[i]).call is Initialize) by {
        if i < middle.session.trace.len() {
            assert(middle.session.trace[i] == after.session.trace[i]);
        }
    }
}

/// A rooted object stays rooted as long as operations protect what is rooted.
pub proof fn law_rooted_object_survives(before: GapView, after: GapView, object: GapRef)
    requires
        before.roots().contains(object),
        protected(before, after),
    ensures
        after.roots().contains(object),
        forall|i: int|
            before.session.trace.len() <= i < after.session.trace.len() ==> (
            #[trigger] after.session.trace[i]).roots.contains(object),
{
}

/// Operations that protect what is rooted do so one after the other.
pub proof fn law_protection_goes_on(before: GapView, middle: GapView, after: GapView)
    requires
        protected(before, middle),
        protected(middle, after),
        middle.session.trace.is_prefix_of(after.session.trace),
    ensures
        protected(before, after),
{
    assert forall|i: int|
        before.session.trace.len() <= i < after.session.trace.len() implies before.roots().subset_of(
        (#[trigger] after.session.trace[i]).roots,
    ) by {
        if i < middle.session.trace.len() {
            assert(middle.session.trace[i] == after.session.trace[i]);
        }
    }
}

/// Rooting a result keeps what was rooted, and the result's object is rooted once more.
pub proof fn law_result_is_rooted(
    roots: Multiset<GapRef>,
    result: Result<GapValue, GapError>,
    other: GapRef,
)
    ensures
        roots.subset_of(roots_with(roots, result)),
        result matches Ok(value) ==> roots_with(roots, result).count(value@) == roots.count(value@)
            + 1,
        result matches Ok(value) && value@ != other ==> roots_with(roots, result).count(other)
            == roots.count(other),
{
}

/// What protects some roots protects fewer.
pub proof fn law_fewer_roots_protected(
    before: GapView,
    after: GapView,
    held: Multiset<GapRef>,
)
    requires
        protected(before.with_roots(held), after.with_roots(held)),
        before.roots().subset_of(held),
        before.roots().subset_of(after.roots()),
    ensures
        protected(before, after),
{
    let wide = after.with_roots(held);
    assert forall|i: int|
        before.session.trace.len() <= i < after.session.trace.len() implies before.roots().subset_of(
        (#[trigger] after.session.trace[i]).roots,
    ) by {
        assert(held.subset_of(wide.session.trace[i].roots));
    }
}

/// Calls that were all made with the roots at hand, or more, protect what is rooted; if
/// libgap is not started in any of them, it runs on.
proof fn lemma_protected(before: GapView, after: GapView, events: Seq<Event>)
    requires
        after.session.trace == before.session.trace + events,
        before.roots().subset_of(after.roots()),
        forall|i: int|
            0 <= i < events.len() ==> before.roots().subset_of((#[trigger] events[i]).roots),
    ensures
        protected(before, after),
        starts_no_libgap(events) ==> runs_on(before, after),
        before.session.trace.is_prefix_of(after.session.trace),
{
    let n = before.session.trace.len();
    assert forall|i: int| n <= i < after.session.trace.len() implies before.roots().subset_of(
        (#[trigger] after.session.trace[i]).roots,
    ) by {
        assert(after.session.trace[i] == events[i - n]);
    }
    if starts_no_libgap(events) {
        assert forall|i: int| n <= i < after.session.trace.len() implies !((
        #[trigger] after.session.trace[i]).call is Initialize) by {
            assert(after.session.trace[i] == events[i - n]);
        }
    }
    assert(after.session.trace.subrange(0, n as int) =~= before.session.trace);
}

/// Whether libgap is not started in any of the calls.
pub open spec fn starts_no_libgap(events: Seq<Event>) -> bool {
    forall|i: int| 0 <= i < events.len() ==> !((#[trigger] events[i]).call is Initialize)
}

/// One call that was made with the roots at hand protects what is rooted.
proof fn lemma_protected_by_one(before: GapView, after: GapView)
    requires
        after.session.trace == before.session.trace.push(after.session.trace.last()),
        after.session.trace.last().roots == before.roots(),
        before.roots().subset_of(after.roots()),
    ensures
        protected(before, after),
        !(after.session.trace.last().call is Initialize) ==> runs_on(before, after),
        before.session.trace.is_prefix_of(after.session.trace),
{
    let events = seq![after.session.trace.last()];
    assert(after.session.trace =~= before.session.trace + events);
    lemma_protected(before, after, events);
}

/// A single call, such as closing the output, protects what is rooted, and does not start
/// libgap again unless it is the call that starts it.
pub proof fn law_single_call_protects(
    before: GapView,
    after: GapView,
    call: Call,
    answer: Answer,
)
    requires
        asked(before.session, after.session, call, answer),
    ensures
        protected(before, after),
        !(call is Initialize) ==> runs_on(before, after),
        before.session.trace.is_prefix_of(after.session.trace),
{
    lemma_protected_by_one(before, after);
}

/// Evaluating text protects what is rooted and does not start libgap again.
pub proof fn law_evaluation_protects(
    before: GapView,
    after: GapView,
    cmd: Seq<char>,
    result: Result<GapRef, GapError>,
)
    requires
        evaluated(before, after.with_roots(before.roots()), cmd, result),
        before.roots().subset_of(after.roots()),
    ensures
        protected(before, after),
        runs_on(before, after),
        before.session.trace.is_prefix_of(after.session.trace),
{
    lemma_protected(before, after, after.session.since(before.session));
}

/// Rendering an object protects what is rooted and does not start libgap again.
pub proof fn law_display_protects(
    before: GapView,
    after: GapView,
    value: GapRef,
    text: Seq<char>,
)
    requires
        displayed(before, after, value, text),
    ensures
        protected(before, after),
        runs_on(before, after),
        before.session.trace.is_prefix_of(after.session.trace),
{
    lemma_protected(before, after, after.session.since(before.session));
}

/// Reading a string protects what is rooted and does not start libgap again.
pub proof fn law_string_protects(
    before: GapView,
    after: GapView,
    value: GapRef,
    text: Seq<char>,
)
    requires
        string_read(before.session, after.session, value, text),
    ensures
        protected(before, after),
        runs_on(before, after),
        before.session.trace.is_prefix_of(after.session.trace),
{
    lemma_protected(before, after, after.session.since(before.session));
}

/// Looking up a global protects what is rooted and does not start libgap again.
pub proof fn law_lookup_protects(
    before: GapView,
    after: GapView,
    name: Seq<char>,
    result: Result<GapRef, GapError>,
)
    requires
        looked_up(before, after.with_roots(before.roots()), name, result),
        before.roots().subset_of(after.roots()),
    ensures
        protected(before, after),
        runs_on(before, after),
        before.session.trace.is_prefix_of(after.session.trace),
{
    if name.contains('\0') {
        lemma_protected(before, after, seq![]);
    } else {
        lemma_protected_by_one(before, after);
    }
}

/// Calling a function protects what is rooted and does not start libgap again.
pub proof fn law_call_protects(
    before: GapView,
    after: GapView,
    function: GapRef,
    args: Seq<Obj>,
    result: Result<GapRef, GapError>,
)
    requires
        called(before, after.with_roots(before.roots()), function, args, result),
        before.roots().subset_of(after.roots()),
    ensures
        protected(before, after),
        runs_on(before, after),
        before.session.trace.is_prefix_of(after.session.trace),
{
    lemma_protected_by_one(before, after);
}

/// Calling a global function protects what is rooted and does not start libgap again.
pub proof fn law_global_call_protects(
    before: GapView,
    after: GapView,
    name: Seq<char>,
    args: Seq<Obj>,
    rooted: bool,
    result: Result<GapRef, GapError>,
)
    requires
        called_global(
            before,
            after.with_roots(before.roots()),
            name,
            args,
            rooted,
            result,
        ),
        before.roots().subset_of(after.roots()),
    ensures
        protected(before, after),
        runs_on(before, after),
        before.session.trace.is_prefix_of(after.session.trace),
{
    if name.contains('\0') {
        lemma_protected(before, after, seq![]);
    } else {
        lemma_protected(before, after, after.session.since(before.session));
    }
}

/// Making an integer object protects what is rooted and does not start libgap again.
pub proof fn law_integer_protects(
    before: GapView,
    after: GapView,
    value: isize,
    result: GapRef,
)
    requires
        made_integer(before, after.with_roots(before.roots()), value, result),
        before.roots().subset_of(after.roots()),
    ensures
        protected(before, after),
        runs_on(before, after),
        before.session.trace.is_prefix_of(after.session.trace),
{
    lemma_protected_by_one(before, after);
}

/// Reading an integer protects what is rooted and does not start libgap again.
pub proof fn law_count_protects(
    before: GapView,
    after: GapView,
    value: GapRef,
    result: Result<usize, GapError>,
)
    requires
        counted(before, after, value, result),
    ensures
        protected(before, after),
        runs_on(before, after),
        before.session.trace.is_prefix_of(after.session.trace),
{
    lemma_protected_by_one(before, after);
}

/// Reading a list element protects what is rooted and does not start libgap again.
pub proof fn law_element_protects(
    before: GapView,
    after: GapView,
    list: GapRef,
    idx: usize,
    result: Result<GapRef, GapError>,
)
    requires
        element_read(before, after.with_roots(before.roots()), list, idx, result),
        before.roots().subset_of(after.roots()),
    ensures
        protected(before, after),
        runs_on(before, after),
        before.session.trace.is_prefix_of(after.session.trace),
{
    lemma_protected_by_one(before, after);
}

/// Reading a list's length protects what is rooted and does not start libgap again.
pub proof fn law_length_protects(
    before: GapView,
    after: GapView,
    list: GapRef,
    length: usize,
)
    requires
        length_read(before, after, list, length),
    ensures
        protected(before, after),
        runs_on(before, after),
        before.session.trace.is_prefix_of(after.session.trace),
{
    lemma_protected_by_one(before, after);
}

/// Building a list protects what is rooted and does not start libgap again.
pub proof fn law_list_protects(
    before: GapView,
    after: GapView,
    elements: Seq<Obj>,
    list: GapRef,
)
    requires
        list_made(before, after.with_roots(before.roots()), elements, list),
        before.roots().subset_of(after.roots()),
    ensures
        protected(before, after),
        runs_on(before, after),
        before.session.trace.is_prefix_of(after.session.trace),
{
    lemma_protected(before, after, after.session.since(before.session));
}

/// Building a permutation protects what is rooted and does not start libgap again.
pub proof fn law_permutation_protects(
    before: GapView,
    after: GapView,
    images: Seq<usize>,
    result: Result<GapRef, GapError>,
)
    requires
        permutation_made(before, after.with_roots(before.roots()), images, result),
        before.roots().subset_of(after.roots()),
    ensures
        protected(before, after),
        runs_on(before, after),
        before.session.trace.is_prefix_of(after.session.trace),
{
    let roots = before.roots();
    let events = after.session.since(before.session);
    let n = images.len() as int;
    let prepared = with_lists(before, events, n);
    let call = after.session.since(prepared.session);
    lemma_list_stages_protect(roots, events, images);
    lemma_call_made_with(
        prepared,
        after.with_roots(prepared.roots()),
        "MappingPermListList"@,
        seq![events[2 * n].obj(), events[3 * n + 3].obj()],
        result,
    );
    assert forall|i: int| 0 <= i < events.len() implies roots.subset_of(
        (#[trigger] events[i]).roots,
    ) && !(events[i].call is Initialize) by {
        if i >= 4 * n + 6 {
            assert(events[i] == call[i - (4 * n + 6)]);
            assert(roots.subset_of(prepared.roots()));
        }
    }
    lemma_protected(before, after, events);
}

proof fn lemma_call_made_with(
    before: GapView,
    after: GapView,
    name: Seq<char>,
    args: Seq<Obj>,
    result: Result<GapRef, GapError>,
)
    requires
        called_global(before, after, name, args, true, result),
    ensures
        ({
            let events = after.session.since(before.session);
            forall|i: int|
                0 <= i < events.len() ==> before.roots().subset_of((#[trigger] events[i]).roots)
                    && !(events[i].call is Initialize)
        }),
{
}

proof fn lemma_list_stages_protect(
    roots: Multiset<GapRef>,
    events: Seq<Event>,
    images: Seq<usize>,
)
    requires
        list_stages(roots, events, images),
    ensures
        forall|i: int|
            0 <= i < 4 * images.len() + 6 ==> roots.subset_of((#[trigger] events[i]).roots)
                && !(events[i].call is Initialize),
{
    let n = images.len() as int;
    let sources = events.take(n);
    let targets = events.subrange(n, 2 * n);
    let source_list = events.subrange(2 * n, 3 * n + 3);
    let target_list = events.subrange(3 * n + 3, 4 * n + 6);
    assert forall|i: int| 0 <= i < 4 * n + 6 implies roots.subset_of(
        (#[trigger] events[i]).roots,
    ) && !(events[i].call is Initialize) by {
        if i < n {
            assert(events[i] == sources[i]);
        } else if i < 2 * n {
            assert(events[i] == targets[i - n]);
        } else if i < 3 * n + 3 {
            assert(events[i] == source_list[i - 2 * n]);
        } else {
            assert(events[i] == target_list[i - (3 * n + 3)]);
        }
    }
}

/// Reading a permutation's images protects what is rooted and does not start libgap again.
pub proof fn law_images_protect(
    before: GapView,
    after: GapView,
    permutation: GapRef,
    degree: usize,
    result: Result<Vec<usize>, GapError>,
)
    requires
        images_read(before, after, permutation, degree, result),
    ensures
        protected(before, after),
        runs_on(before, after),
        before.session.trace.is_prefix_of(after.session.trace),
{
    let events = after.session.since(before.session);
    let function = events[0].handle();
    let roots = before.roots().insert(function);
    match result {
        Ok(images) => {
            lemma_points_protect(events, degree as int, function, permutation, roots, images@);
        },
        Err(e) => {
            if !(before.session.error || events[0].raised) {
                let (k, images) = choose|k: int, images: Seq<usize>|
                    0 <= k < degree && #[trigger] points_read(
                        events,
                        k,
                        function,
                        permutation,
                        roots,
                        images,
                    ) && stopped_at(events, k, function, permutation, roots, e);
                lemma_points_protect(events, k, function, permutation, roots, images);
            }
        },
    }
    assert forall|i: int| 0 <= i < events.len() implies before.roots().subset_of(
        (#[trigger] events[i]).roots,
    ) && !(events[i].call is Initialize) by {
        assert(before.roots().subset_of(roots));
    }
    lemma_protected(before, after, events);
}

proof fn lemma_points_protect(
    events: Seq<Event>,
    count: int,
    function: GapRef,
    permutation: GapRef,
    roots: Multiset<GapRef>,
    images: Seq<usize>,
)
    requires
        points_read(events, count, function, permutation, roots, images),
    ensures
        forall|i: int|
            1 <= i < 1 + 3 * count ==> roots.subset_of((#[trigger] events[i]).roots) && !(
            events[i].call is Initialize),
{
    assert forall|i: int| 1 <= i < 1 + 3 * count implies roots.subset_of(
        (#[trigger] events[i]).roots,
    ) && !(events[i].call is Initialize) by {
        let k = (i - 1) / 3;
        assert(point_read(events, k, function, permutation, roots));
    }
}

/// Rooting a handle and unrooting it, or duplicating a value and releasing the duplicate,
/// leaves the interpreter as it was.
pub proof fn law_unroot_undoes_root(gap: GapView, reference: GapRef)
    ensures
        ({
            let rooted = gap.with_roots(gap.roots().insert(reference));
            rooted.with_roots(rooted.roots().remove(reference)) == gap
        }),
{
    assert(gap.roots().insert(reference).remove(reference) =~= gap.roots());
}

// --- Values that come back ---
/// An integer that was made of a number reads back as that number, or is refused if it
/// is negative, if libgap gives the number back for the object it made.
pub proof fn law_integer_round_trip(
    before: GapView,
    made: GapView,
    later: GapView,
    after: GapView,
    value: isize,
    object: GapRef,
    result: Result<usize, GapError>,
)
    requires
        made_integer(before, made, value, object),
        counted(later, after, object, result),
        after.session.trace.last().integer() == made.session.trace.last().call->ObjectOfInteger_value,
    ensures
        result == (if value >= 0 {
            Ok::<usize, GapError>(value as usize)
        } else {
            Err(GapError::NegativeInteger(value as i64))
        }),
{
}

/// A word that is not negative as a signed word is the same number either way.
proof fn lemma_word_sign(x: usize)
    ensures
        (x as isize) >= 0 ==> x as isize == x,
{
    assert((x as isize) >= 0 ==> x as isize == x) by (bit_vector);
}

/// Whether libgap sends each point that is asked about to the image that was put in the
/// target list, as far as its answers go.
pub open spec fn keeps_images(making: Seq<Event>, reading: Seq<Event>, count: int) -> bool {
    forall|k: int|
        0 <= k < count && 3 + 3 * k < reading.len() ==> (#[trigger] reading[3 + 3 * k]).integer()
            == making[count + k].call->ObjectOfInteger_value
}

/// The images that are read of a permutation that was built from zero-based images are
/// those images, for every degree up to their number, if libgap sends each point to the
/// image that was put in the target list.
pub proof fn law_images_come_back(
    before: GapView,
    made: GapView,
    later: GapView,
    after: GapView,
    images: Seq<usize>,
    permutation: GapRef,
    degree: usize,
    read: Vec<usize>,
)
    requires
        degree <= images.len(),
        forall|i: int| 0 <= i < images.len() ==> (#[trigger] images[i] as isize) < isize::MAX,
        permutation_made(before, made.with_roots(before.roots()), images, Ok(permutation)),
        images_read(later, after, permutation, degree, Ok(read)),
        keeps_images(
            made.session.since(before.session),
            after.session.since(later.session),
            images.len() as int,
        ),
    ensures
        read@ == images.take(degree as int),
        after.roots() == later.roots(),
{
    let making = made.session.since(before.session);
    let reading = after.session.since(later.session);
    let function = reading[0].handle();
    let roots = later.roots().insert(function);
    let n = images.len() as int;
    assert(points_read(reading, degree as int, function, permutation, roots, read@));
    assert(list_stages(before.roots(), making, images));
    assert forall|k: int| 0 <= k < degree implies read@[k] == images[k] by {
        lemma_target_call(before.roots(), making, images, k);
        lemma_number_read(reading, degree as int, function, permutation, roots, read@, k);
        assert(reading[3 + 3 * k].integer() == making[n + k].call->ObjectOfInteger_value);
        lemma_image_back(images[k], reading[3 + 3 * k].integer(), read@[k]);
    }
    assert(read@ =~= images.take(degree as int));
}

/// A permutation that was built from zero-based images gives those images back, for
/// every degree up to their number: reading them succeeds, if no error is pending and
/// libgap reports none and sends each point to the image that was put in the target list.
pub proof fn law_permutation_round_trip(
    before: GapView,
    made: GapView,
    later: GapView,
    after: GapView,
    images: Seq<usize>,
    permutation: GapRef,
    degree: usize,
    result: Result<Vec<usize>, GapError>,
)
    requires
        degree <= images.len(),
        forall|i: int| 0 <= i < images.len() ==> #[trigger] images[i] < isize::MAX,
        permutation_made(before, made.with_roots(before.roots()), images, Ok(permutation)),
        images_read(later, after, permutation, degree, result),
        !later.session.error,
        !any_raised(after.session.since(later.session)),
        keeps_images(
            made.session.since(before.session),
            after.session.since(later.session),
            images.len() as int,
        ),
    ensures
        result matches Ok(read) && read@ == images.take(degree as int),
        after.roots() == later.roots(),
{
    let making = made.session.since(before.session);
    let reading = after.session.since(later.session);
    let function = reading[0].handle();
    let roots = later.roots().insert(function);
    let n = images.len() as int;
    match result {
        Ok(read) => {
            law_images_come_back(
                before,
                made,
                later,
                after,
                images,
                permutation,
                degree,
                read,
            );
        },
        Err(e) => {
            assert(!reading[0].raised);
            let (k, some) = choose|k: int, some: Seq<usize>|
                0 <= k < degree && #[trigger] points_read(
                    reading,
                    k,
                    function,
                    permutation,
                    roots,
                    some,
                ) && stopped_at(reading, k, function, permutation, roots, e);
            lemma_not_stopped(
                before.roots(),
                making,
                reading,
                images,
                k,
                function,
                permutation,
                roots,
                e,
            );
        },
    }
}

/// A faithful libgap does not end the reading.
proof fn lemma_not_stopped(
    before: Multiset<GapRef>,
    making: Seq<Event>,
    reading: Seq<Event>,
    images: Seq<usize>,
    k: int,
    function: GapRef,
    permutation: GapRef,
    roots: Multiset<GapRef>,
    e: GapError,
)
    requires
        0 <= k < images.len(),
        images[k] < isize::MAX,
        list_stages(before, making, images),
        !any_raised(reading),
        keeps_images(making, reading, images.len() as int),
    ensures
        !stopped_at(reading, k, function, permutation, roots, e),
{
    lemma_target_call(before, making, images, k);
    if reading.len() == 3 + 3 * k {
        assert(!reading[2 + 3 * k].raised);
    } else if reading.len() == 4 + 3 * k {
        assert(reading[3 + 3 * k].integer() == images[k] + 1);
        assert(image_of(reading[3 + 3 * k].integer()) is Ok);
    }
}

proof fn lemma_image_back(x: usize, number: i64, image: usize)
    requires
        (x as isize) < isize::MAX,
        number == ((x as isize) + 1) as isize as i64,
        image_of(number) == Ok::<usize, GapError>(image),
    ensures
        image == x,
{
    lemma_word_sign(x);
}

proof fn lemma_target_call(
    roots: Multiset<GapRef>,
    events: Seq<Event>,
    images: Seq<usize>,
    k: int,
)
    requires
        list_stages(roots, events, images),
        0 <= k < images.len(),
    ensures
        events[images.len() + k].call == (Call::ObjectOfInteger {
            value: ((images[k] as isize) + 1) as isize as i64,
        }),
{
    let n = images.len() as int;
    let targets = events.subrange(n, 2 * n);
    assert(targets[k] == events[n + k]);
    assert(target_points(images)[k] == ((images[k] as isize) + 1) as isize);
}

proof fn lemma_number_read(
    events: Seq<Event>,
    count: int,
    function: GapRef,
    permutation: GapRef,
    roots: Multiset<GapRef>,
    images: Seq<usize>,
    k: int,
)
    requires
        points_read(events, count, function, permutation, roots, images),
        0 <= k < count,
    ensures
        image_of(events[3 + 3 * k].integer()) == Ok::<usize, GapError>(images[k]),
{
    assert(point_read(events, k, function, permutation, roots));
}

/// Points and images are counted from one when they are handed to GAP.
pub proof fn law_points_are_shifted(images: Seq<usize>, i: int)
    requires
        0 <= i < images.len() <= isize::MAX,
        images[i] < isize::MAX,
    ensures
        source_points(images.len())[i] == i + 1,
        target_points(images)[i] == images[i] + 1,
{
}

/// While the permutation is made of both lists, the lists are rooted.
pub proof fn law_lists_rooted_around_call(
    before: GapView,
    after: GapView,
    images: Seq<usize>,
    permutation: GapRef,
)
    requires
        permutation_made(before, after, images, Ok(permutation)),
    ensures
        ({
            let n = images.len() as int;
            let events = after.session.since(before.session);
            let source = events[2 * n].handle();
            let target = events[3 * n + 3].handle();
            let call = events.last();
            &&& call.call matches Call::CallArray { function: _, args } && args == seq![
                source.obj,
                target.obj,
            ]
            &&& call.roots.contains(source)
            &&& call.roots.contains(target)
        }),
{
    let n = images.len() as int;
    let events = after.session.since(before.session);
    let prepared = with_lists(before, events, n);
    let call = after.session.since(prepared.session);
    assert(events.last() == call.last());
}

/// GAP's `true` and `false` are the booleans that they are called, and `fail` is `fail`
/// and no boolean, if libgap keeps them apart.
pub proof fn law_distinguished_objects(constants: Constants)
    requires
        constants.true_obj != constants.false_obj,
        constants.fail_obj != constants.true_obj,
        constants.fail_obj != constants.false_obj,
    ensures
        bool_of(constants, GapRef { obj: constants.true_obj }) == Ok::<bool, GapError>(true),
        bool_of(constants, GapRef { obj: constants.false_obj }) == Ok::<bool, GapError>(false),
        bool_of(constants, GapRef { obj: constants.fail_obj }) == Err::<bool, GapError>(
            GapError::NotABoolean,
        ),
        is_fail_object(constants, GapRef { obj: constants.fail_obj }),
        is_fail_object(constants, GapRef { obj: constants.kernel_fail_obj }),
{
}

// --- Errors that libgap reports ---
/// An error that nobody took notice of is reported by the next lookup, once: the lookup
/// clears it.
pub proof fn law_lookup_reports_earlier_error(
    before: GapView,
    after: GapView,
    name: Seq<char>,
    result: Result<GapRef, GapError>,
)
    requires
        !name.contains('\0'),
        looked_up(before, after, name, result),
    ensures
        before.session.error ==> result == Err::<GapRef, GapError>(
            GapError::Reported(Activity::GlobalLookup),
        ),
        !after.session.error,
{
}

/// A call reports the errors of that call only, and clears them.
pub proof fn law_call_ignores_earlier_error(
    before: GapView,
    after: GapView,
    function: GapRef,
    args: Seq<Obj>,
    result: Result<GapRef, GapError>,
)
    requires
        called(before, after, function, args, result),
    ensures
        result is Err <==> after.session.trace.last().raised,
        !after.session.error,
{
}

}
