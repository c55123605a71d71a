//! Permutations, with points counted from zero.

use crate::error::{Activity, GapError};
use crate::gap::calls::{argument_objs, called, called_global, value_refs};
use crate::gap::lists::{list_calls, ref_objs};
use crate::gap::values::count_of;
use crate::gap::{plain, roots_with, Gap, GapView};
use crate::handle::GapRef;
use crate::kernel::{any_raised, Call, Event, Kernel};
use crate::roots::GapValue;
use crate::session::SessionView;
use vstd::multiset::Multiset;
use vstd::prelude::*;

verus! {

/// The handles that the calls returned.
pub open spec fn handles_of(events: Seq<Event>) -> Seq<GapRef> {
    events.map_values(|e: Event| e.handle())
}

/// The calls that make integer objects of `numbers`, each rooted before the next is made.
pub open spec fn integer_calls(
    events: Seq<Event>,
    numbers: Seq<isize>,
    roots: Multiset<GapRef>,
) -> bool {
    &&& events.len() == numbers.len()
    &&& forall|i: int|
        0 <= i < numbers.len() ==> {
            &&& (#[trigger] events[i]).call == (Call::ObjectOfInteger { value: numbers[i] as i64 })
            &&& events[i].answer is Object
            &&& events[i].roots == roots.add(handles_of(events.take(i)).to_multiset())
        }
}

/// Whether a conversation went on from `before` with the calls `events`, which set the
/// error flag as they reported errors.
pub open spec fn went_on(before: SessionView, after: SessionView, events: Seq<Event>) -> bool {
    &&& after.continues(before, events)
    &&& after.error == (before.error || any_raised(events))
}

proof fn lemma_any_raised_concat(first: Seq<Event>, second: Seq<Event>)
    ensures
        any_raised(first + second) == (any_raised(first) || any_raised(second)),
{
    let both = first + second;
    if any_raised(first) {
        let i = choose|i: int| 0 <= i < first.len() && (#[trigger] first[i]).raised;
        assert(both[i].raised);
    }
    if any_raised(second) {
        let i = choose|i: int| 0 <= i < second.len() && (#[trigger] second[i]).raised;
        assert(both[first.len() + i].raised);
    }
    if any_raised(both) {
        let i = choose|i: int| 0 <= i < both.len() && (#[trigger] both[i]).raised;
        if i < first.len() {
            assert(first[i].raised);
        } else {
            assert(second[i - first.len()].raised);
        }
    }
}

/// Two stretches of a conversation make one.
proof fn lemma_went_on(
    before: SessionView,
    middle: SessionView,
    after: SessionView,
    first: Seq<Event>,
    second: Seq<Event>,
)
    requires
        went_on(before, middle, first),
        went_on(middle, after, second),
    ensures
        went_on(before, after, first + second),
        after.since(before) == first + second,
{
    lemma_any_raised_concat(first, second);
    assert(after.trace =~= before.trace + (first + second));
    assert(after.since(before) =~= first + second);
}

impl<K: Kernel> Gap<K> {
    /// Makes rooted integer objects of `numbers`, in order.
    fn integers(&mut self, numbers: &Vec<isize>) -> (values: Vec<GapValue>)
        ensures
            final(self)@.handles == old(self)@.handles,
            ({
                let events = final(self)@.session.since(old(self)@.session);
                &&& went_on(old(self)@.session, final(self)@.session, events)
                &&& integer_calls(events, numbers@, old(self)@.roots())
                &&& value_refs(values@) == handles_of(events)
                &&& final(self)@.roots() == old(self)@.roots().add(
                    handles_of(events).to_multiset(),
                )
            }),
    {
        let mut values: Vec<GapValue> = Vec::new();
        let mut i: usize = 0;
        let ghost start = self@;
        proof {
            broadcast use vstd::seq_lib::group_to_multiset_ensures;

            let events = start.session.since(start.session);
            assert(handles_of(events).to_multiset().len() == 0);
            assert(start.roots() =~= start.roots().add(handles_of(events).to_multiset()));
            assert(start.session.trace + events =~= start.session.trace);
            assert(value_refs(values@) =~= handles_of(events));
        }
        while i < numbers.len()
            invariant
                i <= numbers.len(),
                self@.handles == start.handles,
                ({
                    let events = self@.session.since(start.session);
                    &&& went_on(start.session, self@.session, events)
                    &&& integer_calls(events, numbers@.take(i as int), start.roots())
                    &&& value_refs(values@) == handles_of(events)
                    &&& self@.roots() == start.roots().add(handles_of(events).to_multiset())
                }),
            decreases numbers.len() - i,
        {
            let ghost middle = self@;
            let ghost before = values@;
            let value = self.integer(numbers[i]);
            proof {
                broadcast use vstd::seq_lib::group_to_multiset_ensures;

                let events = middle.session.since(start.session);
                let event = self@.session.trace.last();
                assert(went_on(middle.session, self@.session, seq![event])) by {
                    assert(self@.session.trace =~= middle.session.trace + seq![event]);
                    assert(seq![event][0] == event);
                }
                lemma_went_on(start.session, middle.session, self@.session, events, seq![event]);
                let more = self@.session.since(start.session);
                assert(more =~= events.push(event));
                assert(handles_of(more) =~= handles_of(events).push(value@));
                assert(value_refs(before.push(value)) =~= value_refs(before).push(value@));
                assert(self@.roots() =~= start.roots().add(handles_of(more).to_multiset()));
                assert forall|j: int| 0 <= j < i + 1 implies {
                    &&& (#[trigger] more[j]).call == (Call::ObjectOfInteger {
                        value: numbers@.take(i + 1)[j] as i64,
                    })
                    &&& more[j].answer is Object
                    &&& more[j].roots == start.roots().add(handles_of(more.take(j)).to_multiset())
                } by {
                    assert(more.take(j) =~= events.take(j));
                    if j < i {
                        assert(more[j] == events[j]);
                        assert(numbers@.take(i as int)[j] == numbers@.take(i + 1)[j]);
                    } else {
                        assert(events.take(j) =~= events);
                    }
                }
            }
            values.push(value);
            i = i + 1;
        }
        assert(numbers@.take(i as int) =~= numbers@);
        values
    }
}

/// The points from one to `n`.
pub open spec fn source_points(n: nat) -> Seq<isize> {
    Seq::new(n, |i: int| ((i + 1) as usize) as isize)
}

/// The images of the points, counted from one.
pub open spec fn target_points(images: Seq<usize>) -> Seq<isize> {
    Seq::new(images.len(), |i: int| ((images[i] as isize) + 1) as isize)
}

/// The conversation once both lists are built, with what is rooted then.
pub open spec fn with_lists(before: GapView, events: Seq<Event>, count: int) -> GapView {
    let lists = events.take(4 * count + 6);
    let points = handles_of(events.take(2 * count)).to_multiset();
    GapView {
        handles: before.handles,
        session: SessionView {
            roots: before.roots().add(points).insert(events[2 * count].handle()).insert(
                events[3 * count + 3].handle(),
            ),
            error: before.session.error || any_raised(lists),
            trace: before.session.trace + lists,
        },
    }
}

/// The calls that make integer objects for the points and for their images, and a list
/// of each, with what is rooted meanwhile.
pub open spec fn list_stages(
    roots: Multiset<GapRef>,
    events: Seq<Event>,
    images: Seq<usize>,
) -> bool {
    let n = images.len() as int;
    let sources = events.take(n);
    let targets = events.subrange(n, 2 * n);
    let source_list = events.subrange(2 * n, 3 * n + 3);
    let target_list = events.subrange(3 * n + 3, 4 * n + 6);
    let points = roots.add(handles_of(events.take(2 * n)).to_multiset());
    &&& events.len() >= 4 * n + 6
    &&& integer_calls(sources, source_points(images.len()), roots)
    &&& integer_calls(
        targets,
        target_points(images),
        roots.add(handles_of(sources).to_multiset()),
    )
    &&& list_calls(source_list, ref_objs(handles_of(sources)), source_list[0].obj())
    &&& list_calls(target_list, ref_objs(handles_of(targets)), target_list[0].obj())
    &&& made_with_roots(source_list, points)
    &&& made_with_roots(target_list, points.insert(source_list[0].handle()))
}

/// Whether all of the calls were made with the given roots.
pub open spec fn made_with_roots(events: Seq<Event>, roots: Multiset<GapRef>) -> bool {
    forall|i: int| 0 <= i < events.len() ==> (#[trigger] events[i]).roots == roots
}

/// What building a permutation comes to: integer objects for the points and for their
/// images, a list of each, and a call of `MappingPermListList`. All of these objects
/// are rooted while the call runs.
pub open spec fn permutation_made(
    before: GapView,
    after: GapView,
    images: Seq<usize>,
    result: Result<GapRef, GapError>,
) -> bool {
    let n = images.len() as int;
    let events = after.session.since(before.session);
    let prepared = with_lists(before, events, n);
    &&& after.handles == before.handles
    &&& after.session.continues(before.session, events)
    &&& list_stages(before.roots(), events, images)
    &&& called_global(
        prepared,
        after.with_roots(prepared.roots()),
        "MappingPermListList"@,
        seq![events[2 * n].obj(), events[3 * n + 3].obj()],
        true,
        result,
    )
}

/// The stages of building a permutation lie one after the other.
proof fn lemma_stages(
    e1: Seq<Event>,
    e2: Seq<Event>,
    e3: Seq<Event>,
    e4: Seq<Event>,
    e5: Seq<Event>,
    n: int,
)
    requires
        e1.len() == n,
        e2.len() == n,
        e3.len() == n + 3,
        e4.len() == n + 3,
    ensures
        ({
            let events = e1 + e2 + e3 + e4 + e5;
            &&& events.take(n) == e1
            &&& events.subrange(n, 2 * n) == e2
            &&& events.take(2 * n) == e1 + e2
            &&& events.subrange(2 * n, 3 * n + 3) == e3
            &&& events.subrange(3 * n + 3, 4 * n + 6) == e4
            &&& events.take(4 * n + 6) == e1 + e2 + e3 + e4
            &&& events[2 * n] == e3[0]
            &&& events[3 * n + 3] == e4[0]
        }),
{
    let events = e1 + e2 + e3 + e4 + e5;
    assert(events.take(n) =~= e1);
    assert(events.subrange(n, 2 * n) =~= e2);
    assert(events.take(2 * n) =~= e1 + e2);
    assert(events.subrange(2 * n, 3 * n + 3) =~= e3);
    assert(events.subrange(3 * n + 3, 4 * n + 6) =~= e4);
    assert(events.take(4 * n + 6) =~= e1 + e2 + e3 + e4);
}

/// The stages of building both lists, put together.
proof fn lemma_list_stages(
    roots: Multiset<GapRef>,
    e1: Seq<Event>,
    e2: Seq<Event>,
    e3: Seq<Event>,
    e4: Seq<Event>,
    e5: Seq<Event>,
    images: Seq<usize>,
    source: GapRef,
    target: GapRef,
)
    requires
        integer_calls(e1, source_points(images.len()), roots),
        integer_calls(e2, target_points(images), roots.add(handles_of(e1).to_multiset())),
        list_calls(e3, ref_objs(handles_of(e1)), source.obj),
        list_calls(e4, ref_objs(handles_of(e2)), target.obj),
        made_with_roots(e3, roots.add(handles_of(e1 + e2).to_multiset())),
        made_with_roots(
            e4,
            roots.add(handles_of(e1 + e2).to_multiset()).insert(source),
        ),
    ensures
        list_stages(roots, e1 + e2 + e3 + e4 + e5, images),
{
    lemma_stages(e1, e2, e3, e4, e5, images.len() as int);
}

/// Rooting what two stretches of calls returned is rooting what both returned.
proof fn lemma_roots_of_both(roots: Multiset<GapRef>, e1: Seq<Event>, e2: Seq<Event>)
    ensures
        roots.add(handles_of(e1).to_multiset()).add(handles_of(e2).to_multiset()) == roots.add(
            handles_of(e1 + e2).to_multiset(),
        ),
{
    assert(handles_of(e1 + e2) =~= handles_of(e1) + handles_of(e2));
    vstd::seq_lib::lemma_multiset_commutative(handles_of(e1), handles_of(e2));
    assert(roots.add(handles_of(e1).to_multiset()).add(handles_of(e2).to_multiset()) =~= roots.add(
        handles_of(e1 + e2).to_multiset(),
    ));
}

/// The conversation once both lists are built.
proof fn lemma_with_lists(
    before: GapView,
    after_sources: GapView,
    after_targets: GapView,
    after_source: GapView,
    prepared: GapView,
    e1: Seq<Event>,
    e2: Seq<Event>,
    e3: Seq<Event>,
    e4: Seq<Event>,
    e5: Seq<Event>,
    n: int,
)
    requires
        e1.len() == n,
        e2.len() == n,
        e3.len() == n + 3,
        e4.len() == n + 3,
        prepared.handles == before.handles,
        went_on(before.session, after_sources.session, e1),
        went_on(after_sources.session, after_targets.session, e2),
        went_on(after_targets.session, after_source.session, e3),
        went_on(after_source.session, prepared.session, e4),
        prepared.roots() == before.roots().add(handles_of(e1 + e2).to_multiset()).insert(
            e3[0].handle(),
        ).insert(e4[0].handle()),
    ensures
        with_lists(before, e1 + e2 + e3 + e4 + e5, n) == prepared,
        prepared.session.trace == before.session.trace + (e1 + e2 + e3 + e4),
{
    lemma_stages(e1, e2, e3, e4, e5, n);
    lemma_went_on(before.session, after_sources.session, after_targets.session, e1, e2);
    lemma_went_on(before.session, after_targets.session, after_source.session, e1 + e2, e3);
    lemma_went_on(before.session, after_source.session, prepared.session, e1 + e2 + e3, e4);
    assert(with_lists(before, e1 + e2 + e3 + e4 + e5, n) =~= prepared);
}

/// Both lists and the call make the permutation.
proof fn lemma_permutation_made(
    before: GapView,
    prepared: GapView,
    after: GapView,
    lists: Seq<Event>,
    images: Seq<usize>,
    result: Result<GapRef, GapError>,
)
    requires
        ({
            let n = images.len() as int;
            let events = lists + after.session.since(prepared.session);
            &&& lists.len() == 4 * n + 6
            &&& prepared.session.trace == before.session.trace + lists
            &&& with_lists(before, events, n) == prepared
            &&& list_stages(before.roots(), events, images)
            &&& called_global(
                prepared,
                after.with_roots(prepared.roots()),
                "MappingPermListList"@,
                seq![lists[2 * n].obj(), lists[3 * n + 3].obj()],
                true,
                result,
            )
        }),
    ensures
        permutation_made(before, after.with_roots(before.roots()), images, result),
{
    let n = images.len() as int;
    let call = after.session.since(prepared.session);
    let events = after.session.since(before.session);
    assert(after.session.trace == prepared.session.trace + call) by {
        assert(prepared.session.trace + Seq::<Event>::empty() =~= prepared.session.trace);
        assert(after.session.trace == prepared.session.trace ==> call =~= Seq::empty());
    }
    assert(events =~= lists + call);
    assert(after.session.trace =~= before.session.trace + events);
    assert(events[2 * n] == lists[2 * n]);
    assert(events[3 * n + 3] == lists[3 * n + 3]);
    assert(after.with_roots(before.roots()).with_roots(prepared.roots()) == after.with_roots(
        prepared.roots(),
    ));
}

impl<K: Kernel> Gap<K> {
    /// Builds a GAP permutation from zero-based images.
    ///
    /// `images[i]` is interpreted as the zero-based image of the point `i`.
    /// GAP's permutation constructors are one-based, so both source and target
    /// lists are shifted by one before calling `MappingPermListList`.
    ///
    /// Temporary lists are rooted around the GAP call because constructing the
    /// permutation can allocate.
    #[verifier::rlimit(60)]
    pub fn permutation_from_zero_based_images(&mut self, images: &[usize]) -> (result: Result<
        GapValue,
        GapError,
    >)
        requires
            forall|i: int| 0 <= i < images@.len() ==> (#[trigger] images@[i] as isize) < isize::MAX,
        ensures
            permutation_made(
                old(self)@,
                final(self)@.with_roots(old(self)@.roots()),
                images@,
                plain(result),
            ),
            final(self)@.roots() == roots_with(old(self)@.roots(), result),
    {
        let (source_numbers, target_numbers) = point_numbers(images);
        let ghost before = self@;
        let source_values = self.integers(&source_numbers);
        let ghost after_sources = self@;
        let target_values = self.integers(&target_numbers);
        let ghost after_targets = self@;
        let source = self.list(source_values.as_slice());
        let ghost after_source = self@;
        let target = self.list(target_values.as_slice());
        let ghost prepared = self@;
        let ghost source_ref = source@;
        let ghost target_ref = target@;
        let mut args: Vec<&GapValue> = Vec::new();
        args.push(&source);
        args.push(&target);
        let result = self.call_global("MappingPermListList", args.as_slice());
        assert(argument_objs(args@) =~= seq![source_ref.obj, target_ref.obj]);
        let ghost after = self@;
        self.release(target);
        self.release(source);
        self.release_all(target_values);
        self.release_all(source_values);
        proof {
            let n = images@.len() as int;
            let e1 = after_sources.session.since(before.session);
            let e2 = after_targets.session.since(after_sources.session);
            let e3 = after_source.session.since(after_targets.session);
            let e4 = prepared.session.since(after_source.session);
            let e5 = after.session.since(prepared.session);
            let lists = e1 + e2 + e3 + e4;
            lemma_roots_of_both(before.roots(), e1, e2);
            lemma_list_stages(
                before.roots(),
                e1,
                e2,
                e3,
                e4,
                e5,
                images@,
                source_ref,
                target_ref,
            );
            lemma_with_lists(
                before,
                after_sources,
                after_targets,
                after_source,
                prepared,
                e1,
                e2,
                e3,
                e4,
                e5,
                n,
            );
            lemma_permutation_made(before, prepared, after, lists, images@, plain(result));
            assert(self@.with_roots(before.roots()) == after.with_roots(before.roots()));
            lemma_all_released(
                before.roots(),
                value_refs(source_values@).to_multiset(),
                value_refs(target_values@).to_multiset(),
                source_ref,
                target_ref,
                result,
            );
        }
        result
    }
}

/// The numbers of the points and of their images, counted from one.
fn point_numbers(images: &[usize]) -> (numbers: (Vec<isize>, Vec<isize>))
    requires
        forall|i: int| 0 <= i < images@.len() ==> (#[trigger] images@[i] as isize) < isize::MAX,
    ensures
        numbers.0@ == source_points(images@.len()),
        numbers.1@ == target_points(images@),
{
    let n: usize = images.len();
    let mut source_numbers: Vec<isize> = Vec::new();
    let mut target_numbers: Vec<isize> = Vec::new();
    let mut i: usize = 0;
    while i < n
        invariant
            i <= n == images@.len(),
            source_numbers@ == source_points(i as nat),
            target_numbers@ == target_points(images@.take(i as int)),
            forall|j: int| 0 <= j < images@.len() ==> (#[trigger] images@[j] as isize) < isize::MAX,
        decreases n - i,
    {
        let point: usize = i + 1;
        let image: isize = images[i] as isize;
        source_numbers.push(point as isize);
        target_numbers.push(image + 1);
        assert(source_numbers@ =~= source_points((i + 1) as nat));
        assert(target_numbers@ =~= target_points(images@.take(i + 1)));
        i = i + 1;
    }
    assert(images@.take(i as int) =~= images@);
    (source_numbers, target_numbers)
}

/// Releasing both lists and their elements leaves what was rooted, with the result.
proof fn lemma_all_released(
    roots: Multiset<GapRef>,
    sources: Multiset<GapRef>,
    targets: Multiset<GapRef>,
    source: GapRef,
    target: GapRef,
    result: Result<GapValue, GapError>,
)
    ensures
        roots_with(
            roots.add(sources).add(targets).insert(source).insert(target),
            result,
        ).remove(target).remove(source).sub(targets).sub(sources) == roots_with(roots, result),
{
    assert(roots_with(
        roots.add(sources).add(targets).insert(source).insert(target),
        result,
    ).remove(target).remove(source).sub(targets).sub(sources) =~= roots_with(roots, result));
}

impl<K: Kernel> Gap<K> {
    /// Deprecated alias for [`Gap::permutation_from_zero_based_images`].
    pub fn permutation_from_zero_based_images_rooted(&mut self, images: &[usize]) -> (result:
        Result<GapValue, GapError>)
        requires
            forall|i: int| 0 <= i < images@.len() ==> (#[trigger] images@[i] as isize) < isize::MAX,
        ensures
            permutation_made(
                old(self)@,
                final(self)@.with_roots(old(self)@.roots()),
                images@,
                plain(result),
            ),
            final(self)@.roots() == roots_with(old(self)@.roots(), result),
    {
        self.permutation_from_zero_based_images(images)
    }
}

/// The calls that ask where a permutation sends the `k`th point, counted from zero, when
/// `function` is `OnPoints`: an integer object for the point and a call. The point is
/// rooted while the call runs.
pub open spec fn point_asked(
    events: Seq<Event>,
    k: int,
    function: GapRef,
    permutation: GapRef,
    roots: Multiset<GapRef>,
) -> bool {
    let at = 1 + 3 * k;
    &&& events[at].call == (Call::ObjectOfInteger { value: ((k + 1) as usize) as isize as i64 })
    &&& events[at].answer is Object
    &&& events[at].roots == roots
    &&& events[at + 1].call == (Call::CallArray {
        function: function.obj,
        args: seq![events[at].obj(), permutation.obj],
    })
    &&& events[at + 1].answer is Object
    &&& events[at + 1].roots == roots.insert(events[at].handle())
}

/// The calls that find where a permutation sends the `k`th point: besides asking, the
/// number of the answer is read, with the answer rooted too.
pub open spec fn point_read(
    events: Seq<Event>,
    k: int,
    function: GapRef,
    permutation: GapRef,
    roots: Multiset<GapRef>,
) -> bool {
    let at = 1 + 3 * k;
    &&& point_asked(events, k, function, permutation, roots)
    &&& !events[at + 1].raised
    &&& events[at + 2].call == (Call::IntegerOfObject { object: events[at + 1].obj() })
    &&& events[at + 2].answer is Integer
    &&& events[at + 2].roots == roots.insert(events[at].handle()).insert(events[at + 1].handle())
}

/// The image that was read for the `k`th point: GAP counts points from one.
pub open spec fn image_of(number: i64) -> Result<usize, GapError> {
    match count_of(number) {
        Ok(count) => if count == 0 {
            Err(GapError::OutsideDegree)
        } else {
            Ok((count - 1) as usize)
        },
        Err(e) => Err(e),
    }
}

/// Whether the first `count` points were read, and `images` holds where they go.
pub open spec fn points_read(
    events: Seq<Event>,
    count: int,
    function: GapRef,
    permutation: GapRef,
    roots: Multiset<GapRef>,
    images: Seq<usize>,
) -> bool {
    &&& images.len() == count
    &&& forall|k: int|
        0 <= k < count ==> {
            &&& #[trigger] point_read(events, k, function, permutation, roots)
            &&& image_of(events[3 + 3 * k].integer()) == Ok::<usize, GapError>(images[k])
        }
}

/// Whether the calls end at the `k`th point with the error `e`.
pub open spec fn stopped_at(
    events: Seq<Event>,
    k: int,
    function: GapRef,
    permutation: GapRef,
    roots: Multiset<GapRef>,
    e: GapError,
) -> bool {
    ||| {
        &&& events.len() == 3 + 3 * k
        &&& point_asked(events, k, function, permutation, roots)
        &&& events[2 + 3 * k].raised
        &&& e == GapError::Reported(Activity::FunctionCall)
    }
    ||| {
        &&& events.len() == 4 + 3 * k
        &&& point_read(events, k, function, permutation, roots)
        &&& image_of(events[3 + 3 * k].integer()) == Err::<usize, GapError>(e)
    }
}

/// What reading a permutation's images comes to: `OnPoints` is looked up and kept
/// rooted, and each point is read in turn, up to the first error.
pub open spec fn images_read(
    before: GapView,
    after: GapView,
    permutation: GapRef,
    degree: usize,
    result: Result<Vec<usize>, GapError>,
) -> bool {
    let events = after.session.since(before.session);
    let function = events[0].handle();
    let roots = before.roots().insert(function);
    &&& after.handles == before.handles
    &&& after.session.continues(before.session, events)
    &&& after.roots() == before.roots()
    &&& events.len() >= 1
    &&& events[0].call == (Call::GlobalVariable { name: "OnPoints"@ })
    &&& events[0].answer is Object
    &&& events[0].roots == before.roots()
    &&& after.session.error == (events.last().call is IntegerOfObject && events.last().raised)
    &&& match result {
        Ok(images) => {
            &&& !before.session.error && !events[0].raised
            &&& events.len() == 1 + 3 * degree
            &&& points_read(events, degree as int, function, permutation, roots, images@)
        },
        Err(e) => if before.session.error || events[0].raised {
            &&& events.len() == 1
            &&& e == GapError::Reported(Activity::GlobalLookup)
        } else {
            exists|k: int, images: Seq<usize>|
                0 <= k < degree && #[trigger] points_read(
                    events,
                    k,
                    function,
                    permutation,
                    roots,
                    images,
                ) && stopped_at(events, k, function, permutation, roots, e)
        },
    }
}

/// Earlier points stay read when more calls follow.
proof fn lemma_points_kept(
    events: Seq<Event>,
    more: Seq<Event>,
    count: int,
    function: GapRef,
    permutation: GapRef,
    roots: Multiset<GapRef>,
    images: Seq<usize>,
)
    requires
        points_read(events, count, function, permutation, roots, images),
        events.len() == 1 + 3 * count,
        events.is_prefix_of(more),
    ensures
        points_read(more, count, function, permutation, roots, images),
{
    assert forall|k: int| 0 <= k < count implies {
        &&& #[trigger] point_read(more, k, function, permutation, roots)
        &&& image_of(more[3 + 3 * k].integer()) == Ok::<usize, GapError>(images[k])
    } by {
        assert(point_read(events, k, function, permutation, roots));
        assert(more.subrange(0, events.len() as int)[1 + 3 * k] == more[1 + 3 * k]);
        assert(more.subrange(0, events.len() as int)[2 + 3 * k] == more[2 + 3 * k]);
        assert(more.subrange(0, events.len() as int)[3 + 3 * k] == more[3 + 3 * k]);
    }
}

/// What asking for the image of one point, counted from one, comes to.
spec fn point_outcome(
    events: Seq<Event>,
    point: usize,
    function: GapRef,
    permutation: GapRef,
    roots: Multiset<GapRef>,
    result: Result<usize, GapError>,
) -> bool {
    &&& events.len() == 2 || events.len() == 3
    &&& events[0].call == (Call::ObjectOfInteger { value: point as isize as i64 })
    &&& events[0].answer is Object
    &&& events[0].roots == roots
    &&& events[1].call == (Call::CallArray {
        function: function.obj,
        args: seq![events[0].obj(), permutation.obj],
    })
    &&& events[1].answer is Object
    &&& events[1].roots == roots.insert(events[0].handle())
    &&& if events[1].raised {
        &&& events.len() == 2
        &&& result == Err::<usize, GapError>(GapError::Reported(Activity::FunctionCall))
    } else {
        &&& events.len() == 3
        &&& events[2].call == (Call::IntegerOfObject { object: events[1].obj() })
        &&& events[2].answer is Integer
        &&& events[2].roots == roots.insert(events[0].handle()).insert(events[1].handle())
        &&& result == image_of(events[2].integer())
    }
}

/// One more point adds its image or ends the reading.
proof fn lemma_point_step(
    events: Seq<Event>,
    new: Seq<Event>,
    k: int,
    function: GapRef,
    permutation: GapRef,
    roots: Multiset<GapRef>,
    images: Seq<usize>,
    outcome: Result<usize, GapError>,
)
    requires
        0 <= k < usize::MAX,
        events.len() == 1 + 3 * k,
        points_read(events, k, function, permutation, roots, images),
        point_outcome(new, (k + 1) as usize, function, permutation, roots, outcome),
    ensures
        match outcome {
            Ok(image) => {
                &&& new.len() == 3
                &&& points_read(
                    events + new,
                    k + 1,
                    function,
                    permutation,
                    roots,
                    images.push(image),
                )
            },
            Err(e) => {
                &&& points_read(events + new, k, function, permutation, roots, images)
                &&& stopped_at(events + new, k, function, permutation, roots, e)
            },
        },
{
    let more = events + new;
    assert(more.subrange(0, events.len() as int) =~= events);
    lemma_points_kept(events, more, k, function, permutation, roots, images);
    assert(more[1 + 3 * k] == new[0]);
    assert(more[2 + 3 * k] == new[1]);
    assert(new.len() == 3 ==> more[3 + 3 * k] == new[2]);
    assert(point_asked(more, k, function, permutation, roots));
    match outcome {
        Ok(image) => {
            assert(point_read(more, k, function, permutation, roots));
            let longer = images.push(image);
            assert forall|j: int| 0 <= j < k + 1 implies {
                &&& #[trigger] point_read(more, j, function, permutation, roots)
                &&& image_of(more[3 + 3 * j].integer()) == Ok::<usize, GapError>(longer[j])
            } by {
                if j < k {
                    assert(longer[j] == images[j]);
                }
            }
        },
        Err(e) => {},
    }
}

impl<K: Kernel> Gap<K> {
    /// Asks where a permutation sends one point, and reads the answer.
    fn image(&mut self, on_points: &GapValue, permutation: &GapValue, point: usize) -> (result:
        Result<usize, GapError>)
        requires
            point > 0,
        ensures
            final(self)@.handles == old(self)@.handles,
            final(self)@.roots() == old(self)@.roots(),
            final(self)@.session.continues(
                old(self)@.session,
                final(self)@.session.since(old(self)@.session),
            ),
            ({
                let events = final(self)@.session.since(old(self)@.session);
                &&& final(self)@.session.error == (events.last().call is IntegerOfObject
                    && events.last().raised)
                &&& point_outcome(
                    events,
                    point,
                    on_points@,
                    permutation@,
                    old(self)@.roots(),
                    result,
                )
            }),
    {
        let ghost before = self@;
        let point = self.integer(point as isize);
        let ghost asked_point = self@;
        let ghost point_ref = point@;
        let mut args: Vec<&GapValue> = Vec::new();
        args.push(&point);
        args.push(permutation);
        let called = self.call(on_points, args.as_slice());
        let ghost after_call = self@;
        assert(argument_objs(args@) =~= seq![point_ref.obj, permutation@.obj]);
        let result = match called {
            Ok(image) => {
                let ghost image_ref = image@;
                let count = self.to_usize(&image);
                let ghost after_count = self@;
                self.release(image);
                proof {
                    let roots = before.roots();
                    assert(roots.insert(point_ref).insert(image_ref).remove(image_ref)
                        =~= roots.insert(point_ref));
                    let events = self@.session.since(before.session);
                    assert(events =~= seq![
                        asked_point.session.trace.last(),
                        after_call.session.trace.last(),
                        after_count.session.trace.last(),
                    ]);
                    assert(self@.session.trace =~= before.session.trace + events);
                }
                match count {
                    Ok(number) => if number == 0 {
                        Err(GapError::OutsideDegree)
                    } else {
                        Ok(number - 1)
                    },
                    Err(e) => Err(e),
                }
            },
            Err(e) => {
                proof {
                    let events = self@.session.since(before.session);
                    assert(events =~= seq![
                        asked_point.session.trace.last(),
                        after_call.session.trace.last(),
                    ]);
                    assert(self@.session.trace =~= before.session.trace + events);
                }
                Err(e)
            },
        };
        self.release(point);
        assert(before.roots().insert(point_ref).remove(point_ref) =~= before.roots());
        result
    }
}

impl<K: Kernel> Gap<K> {
    /// Computes zero-based images of a GAP permutation on `0..degree`.
    ///
    /// GAP's `OnPoints` action is evaluated on one-based points and each result
    /// is shifted back to the zero-based convention.
    pub fn permutation_images_zero_based(&mut self, permutation: &GapValue, degree: usize) -> (
    result: Result<Vec<usize>, GapError>)
        ensures
            images_read(old(self)@, final(self)@, permutation@, degree, result),
    {
        let ghost before = self@;
        proof {
            lemma_on_points_name();
        }
        let on_points = match self.get_global("OnPoints") {
            Ok(function) => function,
            Err(e) => {
                proof {
                    let events = self@.session.since(before.session);
                    assert(events =~= seq![self@.session.trace.last()]);
                    assert(self@.session.trace =~= before.session.trace + events);
                }
                return Err(e);
            },
        };
        let ghost function = on_points@;
        let ghost roots = self@.roots();
        proof {
            let events = self@.session.since(before.session);
            assert(events =~= seq![self@.session.trace.last()]);
            assert(self@.session.trace =~= before.session.trace + events);
        }
        let mut images: Vec<usize> = Vec::new();
        let mut k: usize = 0;
        while k < degree
            invariant
                k <= degree,
                before == old(self)@,
                on_points@ == function,
                roots == before.roots().insert(function),
                self@.handles == before.handles,
                self@.roots() == roots,
                ({
                    let events = self@.session.since(before.session);
                    &&& self@.session.continues(before.session, events)
                    &&& events.len() == 1 + 3 * k
                    &&& events[0].call == (Call::GlobalVariable { name: "OnPoints"@ })
                    &&& events[0].answer is Object
                    &&& events[0].handle() == function
                    &&& events[0].roots == before.roots()
                    &&& !before.session.error && !events[0].raised
                    &&& self@.session.error == (events.last().call is IntegerOfObject
                        && events.last().raised)
                    &&& points_read(events, k as int, function, permutation@, roots, images@)
                }),
            decreases degree - k,
        {
            let ghost middle = self@;
            let outcome = self.image(&on_points, permutation, k + 1);
            proof {
                let events = middle.session.since(before.session);
                let new = self@.session.since(middle.session);
                let more = self@.session.since(before.session);
                assert(more =~= events + new);
                assert(self@.session.trace =~= before.session.trace + more);
                lemma_point_step(
                    events,
                    new,
                    k as int,
                    function,
                    permutation@,
                    roots,
                    images@,
                    outcome,
                );
                assert(more[0] == events[0]);
                assert(more.last() == new.last());
            }
            match outcome {
                Ok(image) => {
                    images.push(image);
                },
                Err(e) => {
                    self.release(on_points);
                    assert(before.roots().insert(function).remove(function) =~= before.roots());
                    return Err(e);
                },
            }
            k = k + 1;
        }
        self.release(on_points);
        assert(before.roots().insert(function).remove(function) =~= before.roots());
        Ok(images)
    }
}

proof fn lemma_on_points_name()
    ensures
        !"OnPoints"@.contains('\0'),
{
    reveal_strlit("OnPoints");
}

}
