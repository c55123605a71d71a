//! What each method of [`Gap`] asks libgap for, by its arguments, and what it gives back.

use crate::error::{Activity, GapError};
use crate::gap::calls::{argument_objs, argument_refs, called, called_global, looked_up};
use crate::gap::evaluation::evaluated;
use crate::gap::lists::{list_made, ref_objs, value_objs};
use crate::gap::operation_laws::{
    builds_list, grown, law_boolean_is_the_object, law_call_passes_arguments,
    law_count_is_the_number, law_display_reads_output, law_element_is_at_next_position,
    law_evaluation_reads_whole_text, law_every_argument_is_passed, law_every_element_is_passed,
    law_global_call_passes_arguments, law_images_are_read_in_turn, law_images_end_at_first_error,
    law_integer_is_handed_over, law_length_is_the_number, law_list_holds_every_element,
    law_lookup_asks_for_name, law_permutation_has_every_point, law_permutation_lists_every_point,
    law_permutation_maps_lists, mapped, whole_text,
};
use crate::gap::permutations::{images_read, permutation_made};
use crate::gap::values::counted;
use crate::gap::{plain, Gap, GapView};
use crate::handle::{GapRef, Obj};
use crate::kernel::{Answer, Call, Kernel};
use crate::roots::GapValue;
use vstd::prelude::*;

verus! {

/// The handle of an owned result, or its error.
pub open spec fn bare(result: Result<GapValue, GapError>) -> Result<GapRef, GapError> {
    match result {
        Ok(value) => Ok(value@),
        Err(error) => Err(error),
    }
}

/// Whether an operation left one more root, that of its result, or no more if it failed.
pub open spec fn owns(
    before: GapView,
    after: GapView,
    result: Result<GapValue, GapError>,
) -> bool {
    after.session.roots == (match result {
        Ok(value) => before.session.roots.insert(value@),
        Err(_) => before.session.roots,
    })
}

/// Whether an operation left the roots as they were.
pub open spec fn keeps_roots(before: GapView, after: GapView) -> bool {
    after.session.roots == before.session.roots
}

// --- Evaluating and rendering ---
/// Whether the new calls read `cmd`, and the second element of the first entry that came
/// back is the result if the first is GAP's `true`.
pub open spec fn reads_text(
    before: GapView,
    after: GapView,
    cmd: Seq<char>,
    result: Result<GapRef, GapError>,
) -> bool {
    let n = before.session.trace.len() as int;
    let t = after.session.trace;
    &&& after.handles == before.handles
    &&& t[n].call == (Call::MakeString { text: cmd })
    &&& t[n + 1].call is Operation1
    &&& t[n + 2].call is ReadAllCommands
    &&& if t[n + 4].answer == Answer::Object(before.handles.constants.true_obj) {
        &&& grown(before.session, after.session, 6)
        &&& t[n + 5].answer matches Answer::Object(obj) && result == Ok::<GapRef, GapError>(
            GapRef { obj },
        )
    } else {
        &&& grown(before.session, after.session, 5)
        &&& result == Err::<GapRef, GapError>(GapError::EvaluationFailed)
    }
}

pub(crate) proof fn lemma_reads_text(
    before: GapView,
    after: GapView,
    cmd: Seq<char>,
    result: Result<GapRef, GapError>,
)
    requires
        evaluated(before, after, cmd, result),
    ensures
        reads_text(before, after, cmd, result),
        keeps_roots(before, after),
{
    law_evaluation_reads_whole_text(before, after, cmd, result);
    let n = before.session.trace.len() as int;
    assert(after.session.trace[n].call->MakeString_text =~= cmd);
}

/// Every method that evaluates a command has GAP read the command as it was handed over,
/// and an owned result is rooted.
pub proof fn law_methods_evaluate_command<K: Kernel>(cmd: &str)
    ensures
        forall|gap: &mut Gap<K>, result: Result<GapRef, GapError>| #[trigger]
            call_ensures(Gap::<K>::eval_unrooted, (gap, cmd), result) ==> {
                &&& reads_text((*gap)@, (*final(gap))@, cmd@, result)
                &&& keeps_roots((*gap)@, (*final(gap))@)
            },
        forall|gap: &mut Gap<K>, result: Result<GapValue, GapError>| #[trigger]
            call_ensures(Gap::<K>::eval, (gap, cmd), result) ==> {
                &&& reads_text((*gap)@, (*final(gap))@, cmd@, bare(result))
                &&& owns((*gap)@, (*final(gap))@, result)
            },
        forall|gap: &mut Gap<K>, result: Result<GapValue, GapError>| #[trigger]
            call_ensures(Gap::<K>::eval_rooted, (gap, cmd), result) ==> {
                &&& reads_text((*gap)@, (*final(gap))@, cmd@, bare(result))
                &&& owns((*gap)@, (*final(gap))@, result)
            },
{
    assert forall|gap: &mut Gap<K>, result: Result<GapRef, GapError>| #[trigger]
        call_ensures(Gap::<K>::eval_unrooted, (gap, cmd), result) implies {
            &&& reads_text((*gap)@, (*final(gap))@, cmd@, result)
            &&& keeps_roots((*gap)@, (*final(gap))@)
        } by {
        let before = (*gap)@;
        let after = (*final(gap))@;
        lemma_reads_text(before, after, cmd@, result);
    }
    assert forall|gap: &mut Gap<K>, result: Result<GapValue, GapError>| #[trigger]
        call_ensures(Gap::<K>::eval, (gap, cmd), result) implies {
            &&& reads_text((*gap)@, (*final(gap))@, cmd@, bare(result))
            &&& owns((*gap)@, (*final(gap))@, result)
        } by {
        let before = (*gap)@;
        let after = (*final(gap))@;
        lemma_reads_text(before, after.with_roots(before.roots()), cmd@, plain(result));
    }
    assert forall|gap: &mut Gap<K>, result: Result<GapValue, GapError>| #[trigger]
        call_ensures(Gap::<K>::eval_rooted, (gap, cmd), result) implies {
            &&& reads_text((*gap)@, (*final(gap))@, cmd@, bare(result))
            &&& owns((*gap)@, (*final(gap))@, result)
        } by {
        let before = (*gap)@;
        let after = (*final(gap))@;
        lemma_reads_text(before, after.with_roots(before.roots()), cmd@, plain(result));
    }
}

/// Whether the new calls print the object of `value`, and `text` is what the output string
/// then held.
pub open spec fn renders(before: GapView, after: GapView, value: GapRef, text: Seq<char>) -> bool {
    let n = before.session.trace.len() as int;
    let t = after.session.trace;
    &&& after.handles == before.handles
    &&& grown(before.session, after.session, 4)
    &&& t[n].call == (Call::Call2 {
        function: before.handles.print_fn,
        first: before.handles.output_stream_handle,
        second: value.obj,
    })
    &&& t[n + 2].answer matches Answer::Bytes(bytes) && whole_text(bytes, text)
    &&& t[n + 3].call == (Call::SetStringLength {
        string: before.handles.output_str_obj,
        length: 0,
    })
}

/// Every method that renders a value gives what GAP printed of that value.
pub proof fn law_methods_render_value<K: Kernel>(value: &GapValue, reference: GapRef)
    ensures
        forall|gap: &mut Gap<K>, result: String| #[trigger]
            call_ensures(Gap::<K>::display, (gap, value), result) ==> {
                &&& renders((*gap)@, (*final(gap))@, value@, result@)
                &&& keeps_roots((*gap)@, (*final(gap))@)
            },
        forall|gap: &mut Gap<K>, result: String| #[trigger]
            call_ensures(Gap::<K>::display_unrooted, (gap, reference), result) ==> {
                &&& renders((*gap)@, (*final(gap))@, reference, result@)
                &&& keeps_roots((*gap)@, (*final(gap))@)
            },
        forall|gap: &mut Gap<K>, result: String| #[trigger]
            call_ensures(Gap::<K>::elem_string, (gap, &reference), result) ==> {
                &&& renders((*gap)@, (*final(gap))@, reference, result@)
                &&& keeps_roots((*gap)@, (*final(gap))@)
            },
{
    assert forall|gap: &mut Gap<K>, result: String| #[trigger]
        call_ensures(Gap::<K>::display, (gap, value), result) implies {
            &&& renders((*gap)@, (*final(gap))@, value@, result@)
            &&& keeps_roots((*gap)@, (*final(gap))@)
        } by {
        let before = (*gap)@;
        let after = (*final(gap))@;
        law_display_reads_output(before, after, value@, result@);
    }
    assert forall|gap: &mut Gap<K>, result: String| #[trigger]
        call_ensures(Gap::<K>::display_unrooted, (gap, reference), result) implies {
            &&& renders((*gap)@, (*final(gap))@, reference, result@)
            &&& keeps_roots((*gap)@, (*final(gap))@)
        } by {
        let before = (*gap)@;
        let after = (*final(gap))@;
        law_display_reads_output(before, after, reference, result@);
    }
    assert forall|gap: &mut Gap<K>, result: String| #[trigger]
        call_ensures(Gap::<K>::elem_string, (gap, &reference), result) implies {
            &&& renders((*gap)@, (*final(gap))@, reference, result@)
            &&& keeps_roots((*gap)@, (*final(gap))@)
        } by {
        let before = (*gap)@;
        let after = (*final(gap))@;
        law_display_reads_output(before, after, reference, result@);
    }
}

// --- Lookups and calls ---
/// Whether the only new call asks for `name`, which has no NUL, and `result` is what comes
/// of it; or there is no call, if the name has one.
pub open spec fn looks_up(
    before: GapView,
    after: GapView,
    name: Seq<char>,
    result: Result<GapRef, GapError>,
) -> bool {
    let n = before.session.trace.len() as int;
    let t = after.session.trace;
    &&& after.handles == before.handles
    &&& if name.contains('\0') {
        t == before.session.trace && result == Err::<GapRef, GapError>(GapError::NulInName)
    } else {
        &&& grown(before.session, after.session, 1)
        &&& t[n].call == (Call::GlobalVariable { name })
        &&& !after.session.error
        &&& if before.session.error || t[n].raised {
            result == Err::<GapRef, GapError>(GapError::Reported(Activity::GlobalLookup))
        } else {
            t[n].answer matches Answer::Object(obj) && result == Ok::<GapRef, GapError>(
                GapRef { obj },
            )
        }
    }
}

proof fn lemma_looks_up(
    before: GapView,
    after: GapView,
    name: Seq<char>,
    result: Result<GapRef, GapError>,
)
    requires
        looked_up(before, after, name, result),
    ensures
        looks_up(before, after, name, result),
        keeps_roots(before, after),
{
    law_lookup_asks_for_name(before, after, name, result);
}

/// Every method that looks a name up asks for the name as it was handed over, and an owned
/// result is rooted.
pub proof fn law_methods_look_name_up<K: Kernel>(name: &str)
    ensures
        forall|gap: &mut Gap<K>, result: Result<GapRef, GapError>| #[trigger]
            call_ensures(Gap::<K>::get_global_unrooted, (gap, name), result) ==> {
                &&& looks_up((*gap)@, (*final(gap))@, name@, result)
                &&& keeps_roots((*gap)@, (*final(gap))@)
            },
        forall|gap: &mut Gap<K>, result: Result<GapRef, GapError>| #[trigger]
            call_ensures(Gap::<K>::global, (gap, name), result) ==> {
                &&& looks_up((*gap)@, (*final(gap))@, name@, result)
                &&& keeps_roots((*gap)@, (*final(gap))@)
            },
        forall|gap: &mut Gap<K>, result: Result<GapValue, GapError>| #[trigger]
            call_ensures(Gap::<K>::get_global, (gap, name), result) ==> {
                &&& looks_up((*gap)@, (*final(gap))@, name@, bare(result))
                &&& owns((*gap)@, (*final(gap))@, result)
            },
        forall|gap: &mut Gap<K>, result: Result<GapValue, GapError>| #[trigger]
            call_ensures(Gap::<K>::global_rooted, (gap, name), result) ==> {
                &&& looks_up((*gap)@, (*final(gap))@, name@, bare(result))
                &&& owns((*gap)@, (*final(gap))@, result)
            },
{
    assert forall|gap: &mut Gap<K>, result: Result<GapRef, GapError>| #[trigger]
        call_ensures(Gap::<K>::get_global_unrooted, (gap, name), result) implies {
            &&& looks_up((*gap)@, (*final(gap))@, name@, result)
            &&& keeps_roots((*gap)@, (*final(gap))@)
        } by {
        let before = (*gap)@;
        let after = (*final(gap))@;
        lemma_looks_up(before, after, name@, result);
    }
    assert forall|gap: &mut Gap<K>, result: Result<GapRef, GapError>| #[trigger]
        call_ensures(Gap::<K>::global, (gap, name), result) implies {
            &&& looks_up((*gap)@, (*final(gap))@, name@, result)
            &&& keeps_roots((*gap)@, (*final(gap))@)
        } by {
        let before = (*gap)@;
        let after = (*final(gap))@;
        lemma_looks_up(before, after, name@, result);
    }
    assert forall|gap: &mut Gap<K>, result: Result<GapValue, GapError>| #[trigger]
        call_ensures(Gap::<K>::get_global, (gap, name), result) implies {
            &&& looks_up((*gap)@, (*final(gap))@, name@, bare(result))
            &&& owns((*gap)@, (*final(gap))@, result)
        } by {
        let before = (*gap)@;
        let after = (*final(gap))@;
        lemma_looks_up(before, after.with_roots(before.roots()), name@, plain(result));
    }
    assert forall|gap: &mut Gap<K>, result: Result<GapValue, GapError>| #[trigger]
        call_ensures(Gap::<K>::global_rooted, (gap, name), result) implies {
            &&& looks_up((*gap)@, (*final(gap))@, name@, bare(result))
            &&& owns((*gap)@, (*final(gap))@, result)
        } by {
        let before = (*gap)@;
        let after = (*final(gap))@;
        lemma_looks_up(before, after.with_roots(before.roots()), name@, plain(result));
    }
}

/// Whether the only new call calls `function` with `args`, and `result` is what comes of it.
pub open spec fn calls_with(
    before: GapView,
    after: GapView,
    function: GapRef,
    args: Seq<Obj>,
    result: Result<GapRef, GapError>,
) -> bool {
    let n = before.session.trace.len() as int;
    let t = after.session.trace;
    &&& after.handles == before.handles
    &&& grown(before.session, after.session, 1)
    &&& t[n].call == (Call::CallArray { function: function.obj, args })
    &&& !after.session.error
    &&& if t[n].raised {
        result == Err::<GapRef, GapError>(GapError::Reported(Activity::FunctionCall))
    } else {
        t[n].answer matches Answer::Object(obj) && result == Ok::<GapRef, GapError>(
            GapRef { obj },
        )
    }
}

proof fn lemma_calls_with(
    before: GapView,
    after: GapView,
    function: GapRef,
    args: Seq<Obj>,
    result: Result<GapRef, GapError>,
)
    requires
        called(before, after, function, args, result),
    ensures
        calls_with(before, after, function, args, result),
        keeps_roots(before, after),
{
    law_call_passes_arguments(before, after, function, args, result);
    let n = before.session.trace.len() as int;
    assert(after.session.trace[n].call->CallArray_args =~= args);
}

/// Every method that calls a function calls the one it was handed, with the object of each
/// argument at its place and no others, and an owned result is rooted.
pub proof fn law_methods_call_with_arguments<K: Kernel>(
    function: &GapValue,
    reference: GapRef,
    args: &[&GapValue],
    refs: &[GapRef],
    borrowed: &[&GapRef],
)
    ensures
        forall|gap: &mut Gap<K>, result: Result<GapValue, GapError>| #[trigger]
            call_ensures(Gap::<K>::call, (gap, function, args), result) ==> {
                &&& calls_with(
                    (*gap)@,
                    (*final(gap))@,
                    function@,
                    Seq::new(args@.len(), |i: int| args@[i]@.obj),
                    bare(result),
                )
                &&& owns((*gap)@, (*final(gap))@, result)
            },
        forall|gap: &mut Gap<K>, result: Result<GapRef, GapError>| #[trigger]
            call_ensures(Gap::<K>::call_unrooted, (gap, reference, refs), result) ==> {
                &&& calls_with(
                    (*gap)@,
                    (*final(gap))@,
                    reference,
                    Seq::new(refs@.len(), |i: int| refs@[i].obj),
                    result,
                )
                &&& keeps_roots((*gap)@, (*final(gap))@)
            },
        forall|gap: &mut Gap<K>, result: Result<GapRef, GapError>| #[trigger]
            call_ensures(Gap::<K>::call_function, (gap, &reference, borrowed), result) ==> {
                &&& calls_with(
                    (*gap)@,
                    (*final(gap))@,
                    reference,
                    Seq::new(borrowed@.len(), |i: int| (*borrowed@[i]).obj),
                    result,
                )
                &&& keeps_roots((*gap)@, (*final(gap))@)
            },
{
    assert forall|gap: &mut Gap<K>, result: Result<GapValue, GapError>| #[trigger]
        call_ensures(Gap::<K>::call, (gap, function, args), result) implies {
            &&& calls_with(
                (*gap)@,
                (*final(gap))@,
                function@,
                Seq::new(args@.len(), |i: int| args@[i]@.obj),
                bare(result),
            )
            &&& owns((*gap)@, (*final(gap))@, result)
        } by {
        let before = (*gap)@;
        let after = (*final(gap))@;
        law_every_argument_is_passed(args@, seq![]);
        assert(argument_objs(args@) =~= Seq::new(args@.len(), |i: int| args@[i]@.obj));
        lemma_calls_with(
            before,
            after.with_roots(before.roots()),
            function@,
            Seq::new(args@.len(), |i: int| args@[i]@.obj),
            plain(result),
        );
    }
    assert forall|gap: &mut Gap<K>, result: Result<GapRef, GapError>| #[trigger]
        call_ensures(Gap::<K>::call_unrooted, (gap, reference, refs), result) implies {
            &&& calls_with(
                (*gap)@,
                (*final(gap))@,
                reference,
                Seq::new(refs@.len(), |i: int| refs@[i].obj),
                result,
            )
            &&& keeps_roots((*gap)@, (*final(gap))@)
        } by {
        let before = (*gap)@;
        let after = (*final(gap))@;
        law_every_element_is_passed(refs@, seq![]);
        assert(ref_objs(refs@) =~= Seq::new(refs@.len(), |i: int| refs@[i].obj));
        lemma_calls_with(
            before,
            after,
            reference,
            Seq::new(refs@.len(), |i: int| refs@[i].obj),
            result,
        );
    }
    assert forall|gap: &mut Gap<K>, result: Result<GapRef, GapError>| #[trigger]
        call_ensures(Gap::<K>::call_function, (gap, &reference, borrowed), result) implies {
            &&& calls_with(
                (*gap)@,
                (*final(gap))@,
                reference,
                Seq::new(borrowed@.len(), |i: int| (*borrowed@[i]).obj),
                result,
            )
            &&& keeps_roots((*gap)@, (*final(gap))@)
        } by {
        let before = (*gap)@;
        let after = (*final(gap))@;
        law_every_argument_is_passed(seq![], borrowed@);
        law_every_element_is_passed(argument_refs(borrowed@), seq![]);
        assert(
            ref_objs(argument_refs(borrowed@)) =~= Seq::new(
                borrowed@.len(),
                |i: int| (*borrowed@[i]).obj,
            )
        );
        lemma_calls_with(
            before,
            after,
            reference,
            Seq::new(borrowed@.len(), |i: int| (*borrowed@[i]).obj),
            result,
        );
    }
}

/// Whether the new calls look `name` up, which has no NUL, and call what was found with
/// `args`, and `result` is what comes of it; or there is no call, if the name has one.
pub open spec fn calls_by_name(
    before: GapView,
    after: GapView,
    name: Seq<char>,
    args: Seq<Obj>,
    result: Result<GapRef, GapError>,
) -> bool {
    let n = before.session.trace.len() as int;
    let t = after.session.trace;
    &&& after.handles == before.handles
    &&& if name.contains('\0') {
        t == before.session.trace && result == Err::<GapRef, GapError>(GapError::NulInName)
    } else {
        &&& t[n].call == (Call::GlobalVariable { name })
        &&& !after.session.error
        &&& if before.session.error || t[n].raised {
            &&& grown(before.session, after.session, 1)
            &&& result == Err::<GapRef, GapError>(GapError::Reported(Activity::GlobalLookup))
        } else {
            &&& grown(before.session, after.session, 2)
            &&& t[n].answer matches Answer::Object(function) && t[n + 1].call == (
            Call::CallArray { function, args })
            &&& if t[n + 1].raised {
                result == Err::<GapRef, GapError>(GapError::Reported(Activity::FunctionCall))
            } else {
                t[n + 1].answer matches Answer::Object(obj) && result == Ok::<GapRef, GapError>(
                    GapRef { obj },
                )
            }
        }
    }
}

proof fn lemma_calls_by_name(
    before: GapView,
    after: GapView,
    name: Seq<char>,
    args: Seq<Obj>,
    rooted: bool,
    result: Result<GapRef, GapError>,
)
    requires
        called_global(before, after, name, args, rooted, result),
    ensures
        calls_by_name(before, after, name, args, result),
        keeps_roots(before, after),
{
    law_global_call_passes_arguments(before, after, name, args, rooted, result);
    let n = before.session.trace.len() as int;
    if !name.contains('\0') && !before.session.error && !after.session.trace[n].raised {
        assert(after.session.trace[n + 1].call->CallArray_args =~= args);
    }
}

/// Every method that calls a global function looks up the name it was handed and passes the
/// object of each argument at its place and no others, and an owned result is rooted.
pub proof fn law_methods_call_by_name<K: Kernel>(
    name: &str,
    args: &[&GapValue],
    refs: &[GapRef],
    borrowed: &[&GapRef],
)
    ensures
        forall|gap: &mut Gap<K>, result: Result<GapValue, GapError>| #[trigger]
            call_ensures(Gap::<K>::call_global, (gap, name, args), result) ==> {
                &&& calls_by_name(
                    (*gap)@,
                    (*final(gap))@,
                    name@,
                    Seq::new(args@.len(), |i: int| args@[i]@.obj),
                    bare(result),
                )
                &&& owns((*gap)@, (*final(gap))@, result)
            },
        forall|gap: &mut Gap<K>, result: Result<GapRef, GapError>| #[trigger]
            call_ensures(Gap::<K>::call_global_unrooted, (gap, name, refs), result) ==> {
                &&& calls_by_name(
                    (*gap)@,
                    (*final(gap))@,
                    name@,
                    Seq::new(refs@.len(), |i: int| refs@[i].obj),
                    result,
                )
                &&& keeps_roots((*gap)@, (*final(gap))@)
            },
        forall|gap: &mut Gap<K>, result: Result<GapValue, GapError>| #[trigger]
            call_ensures(Gap::<K>::call_global_rooted, (gap, name, borrowed), result) ==> {
                &&& calls_by_name(
                    (*gap)@,
                    (*final(gap))@,
                    name@,
                    Seq::new(borrowed@.len(), |i: int| (*borrowed@[i]).obj),
                    bare(result),
                )
                &&& owns((*gap)@, (*final(gap))@, result)
            },
{
    assert forall|gap: &mut Gap<K>, result: Result<GapValue, GapError>| #[trigger]
        call_ensures(Gap::<K>::call_global, (gap, name, args), result) implies {
            &&& calls_by_name(
                (*gap)@,
                (*final(gap))@,
                name@,
                Seq::new(args@.len(), |i: int| args@[i]@.obj),
                bare(result),
            )
            &&& owns((*gap)@, (*final(gap))@, result)
        } by {
        let before = (*gap)@;
        let after = (*final(gap))@;
        law_every_argument_is_passed(args@, seq![]);
        assert(argument_objs(args@) =~= Seq::new(args@.len(), |i: int| args@[i]@.obj));
        lemma_calls_by_name(
            before,
            after.with_roots(before.roots()),
            name@,
            Seq::new(args@.len(), |i: int| args@[i]@.obj),
            true,
            plain(result),
        );
    }
    assert forall|gap: &mut Gap<K>, result: Result<GapRef, GapError>| #[trigger]
        call_ensures(Gap::<K>::call_global_unrooted, (gap, name, refs), result) implies {
            &&& calls_by_name(
                (*gap)@,
                (*final(gap))@,
                name@,
                Seq::new(refs@.len(), |i: int| refs@[i].obj),
                result,
            )
            &&& keeps_roots((*gap)@, (*final(gap))@)
        } by {
        let before = (*gap)@;
        let after = (*final(gap))@;
        law_every_element_is_passed(refs@, seq![]);
        assert(ref_objs(refs@) =~= Seq::new(refs@.len(), |i: int| refs@[i].obj));
        lemma_calls_by_name(
            before,
            after,
            name@,
            Seq::new(refs@.len(), |i: int| refs@[i].obj),
            false,
            result,
        );
    }
    assert forall|gap: &mut Gap<K>, result: Result<GapValue, GapError>| #[trigger]
        call_ensures(Gap::<K>::call_global_rooted, (gap, name, borrowed), result) implies {
            &&& calls_by_name(
                (*gap)@,
                (*final(gap))@,
                name@,
                Seq::new(borrowed@.len(), |i: int| (*borrowed@[i]).obj),
                bare(result),
            )
            &&& owns((*gap)@, (*final(gap))@, result)
        } by {
        let before = (*gap)@;
        let after = (*final(gap))@;
        law_every_argument_is_passed(seq![], borrowed@);
        law_every_element_is_passed(argument_refs(borrowed@), seq![]);
        assert(
            ref_objs(argument_refs(borrowed@)) =~= Seq::new(
                borrowed@.len(),
                |i: int| (*borrowed@[i]).obj,
            )
        );
        let held = before.roots().add(argument_refs(borrowed@).to_multiset());
        lemma_calls_by_name(
            before.with_roots(held),
            after.with_roots(held),
            name@,
            Seq::new(borrowed@.len(), |i: int| (*borrowed@[i]).obj),
            true,
            plain(result),
        );
    }
}

// --- Numbers and booleans ---
/// Whether the only new call makes the integer object of `value`, which is `object`.
pub open spec fn makes_integer(
    before: GapView,
    after: GapView,
    value: int,
    object: GapRef,
) -> bool {
    let n = before.session.trace.len() as int;
    let t = after.session.trace;
    &&& after.handles == before.handles
    &&& grown(before.session, after.session, 1)
    &&& t[n].call matches Call::ObjectOfInteger { value: asked } && asked == value
    &&& t[n].answer == Answer::Object(object.obj)
}

/// Whether the only new call reads the number of `value`, and `result` is that number, or
/// the error for a negative one.
pub open spec fn reads_number(
    before: GapView,
    after: GapView,
    value: GapRef,
    result: Result<usize, GapError>,
) -> bool {
    let n = before.session.trace.len() as int;
    let t = after.session.trace;
    &&& after.handles == before.handles
    &&& grown(before.session, after.session, 1)
    &&& t[n].call == (Call::IntegerOfObject { object: value.obj })
    &&& t[n].answer matches Answer::Integer(number) && (if number < 0 {
        result == Err::<usize, GapError>(GapError::NegativeInteger(number))
    } else {
        number <= usize::MAX ==> (result matches Ok(count) && count == number)
    })
}

/// Every method that makes an integer object makes that of the number it was handed, and an
/// owned one is rooted.
pub proof fn law_methods_make_integer<K: Kernel>(value: isize)
    ensures
        forall|gap: &mut Gap<K>, result: GapRef| #[trigger]
            call_ensures(Gap::<K>::int_unrooted, (gap, value), result) ==> {
                &&& makes_integer((*gap)@, (*final(gap))@, value as int, result)
                &&& keeps_roots((*gap)@, (*final(gap))@)
            },
        forall|gap: &mut Gap<K>, result: GapValue| #[trigger]
            call_ensures(Gap::<K>::integer, (gap, value), result) ==> {
                &&& makes_integer((*gap)@, (*final(gap))@, value as int, result@)
                &&& (*final(gap))@.session.roots == (*gap)@.session.roots.insert(result@)
            },
{
    assert forall|gap: &mut Gap<K>, result: GapRef| #[trigger]
        call_ensures(Gap::<K>::int_unrooted, (gap, value), result) implies {
            &&& makes_integer((*gap)@, (*final(gap))@, value as int, result)
            &&& keeps_roots((*gap)@, (*final(gap))@)
        } by {
        let before = (*gap)@;
        let after = (*final(gap))@;
        law_integer_is_handed_over(before, after, value, result);
    }
    assert forall|gap: &mut Gap<K>, result: GapValue| #[trigger]
        call_ensures(Gap::<K>::integer, (gap, value), result) implies {
            &&& makes_integer((*gap)@, (*final(gap))@, value as int, result@)
            &&& (*final(gap))@.session.roots == (*gap)@.session.roots.insert(result@)
        } by {
        let before = (*gap)@;
        let after = (*final(gap))@;
        law_integer_is_handed_over(before, after.with_roots(before.roots()), value, result@);
    }
}

/// Every method that reads a number reads that of the object it was handed.
pub proof fn law_methods_read_number<K: Kernel>(value: &GapValue, reference: GapRef)
    ensures
        forall|gap: &mut Gap<K>, result: Result<usize, GapError>| #[trigger]
            call_ensures(Gap::<K>::to_usize, (gap, value), result) ==> {
                &&& reads_number((*gap)@, (*final(gap))@, value@, result)
                &&& keeps_roots((*gap)@, (*final(gap))@)
            },
        forall|gap: &mut Gap<K>, result: Result<usize, GapError>| #[trigger]
            call_ensures(Gap::<K>::to_usize_unrooted, (gap, reference), result) ==> {
                &&& reads_number((*gap)@, (*final(gap))@, reference, result)
                &&& keeps_roots((*gap)@, (*final(gap))@)
            },
        forall|gap: &mut Gap<K>, result: Result<usize, GapError>| #[trigger]
            call_ensures(Gap::<K>::integer_usize, (gap, &reference), result) ==> {
                &&& reads_number((*gap)@, (*final(gap))@, reference, result)
                &&& keeps_roots((*gap)@, (*final(gap))@)
            },
{
    assert forall|gap: &mut Gap<K>, result: Result<usize, GapError>| #[trigger]
        call_ensures(Gap::<K>::to_usize, (gap, value), result) implies {
            &&& reads_number((*gap)@, (*final(gap))@, value@, result)
            &&& keeps_roots((*gap)@, (*final(gap))@)
        } by {
        let before = (*gap)@;
        let after = (*final(gap))@;
        law_count_is_the_number(before, after, value@, result);
    }
    assert forall|gap: &mut Gap<K>, result: Result<usize, GapError>| #[trigger]
        call_ensures(Gap::<K>::to_usize_unrooted, (gap, reference), result) implies {
            &&& reads_number((*gap)@, (*final(gap))@, reference, result)
            &&& keeps_roots((*gap)@, (*final(gap))@)
        } by {
        let before = (*gap)@;
        let after = (*final(gap))@;
        law_count_is_the_number(before, after, reference, result);
    }
    assert forall|gap: &mut Gap<K>, result: Result<usize, GapError>| #[trigger]
        call_ensures(Gap::<K>::integer_usize, (gap, &reference), result) implies {
            &&& reads_number((*gap)@, (*final(gap))@, reference, result)
            &&& keeps_roots((*gap)@, (*final(gap))@)
        } by {
        let before = (*gap)@;
        let after = (*final(gap))@;
        law_count_is_the_number(before, after, reference, result);
    }
}

/// Whether `result` is the truth value of an object, by GAP's two booleans.
pub open spec fn is_truth(gap: GapView, object: Obj, result: Result<bool, GapError>) -> bool {
    result == (if object == gap.handles.constants.true_obj {
        Ok::<bool, GapError>(true)
    } else if object == gap.handles.constants.false_obj {
        Ok(false)
    } else {
        Err(GapError::NotABoolean)
    })
}

/// Every method that reads a boolean goes by GAP's two booleans.
pub proof fn law_methods_read_boolean<K: Kernel>(
    gap: &Gap<K>,
    value: &GapValue,
    reference: GapRef,
    result: Result<bool, GapError>,
)
    ensures
        call_ensures(Gap::<K>::to_bool, (gap, value), result) ==> is_truth(
            gap@,
            value@.obj,
            result,
        ),
        call_ensures(Gap::<K>::to_bool_unrooted, (gap, reference), result) ==> is_truth(
            gap@,
            reference.obj,
            result,
        ),
        call_ensures(Gap::<K>::boolean, (gap, &reference), result) ==> is_truth(
            gap@,
            reference.obj,
            result,
        ),
{
    law_boolean_is_the_object(gap@.handles.constants, value@);
    law_boolean_is_the_object(gap@.handles.constants, reference);
}

/// Every method that tells whether a value is `fail` goes by the two objects that stand
/// for it.
pub proof fn law_methods_tell_fail<K: Kernel>(
    gap: &Gap<K>,
    value: &GapValue,
    reference: GapRef,
    result: bool,
)
    ensures
        call_ensures(Gap::<K>::is_fail, (gap, value), result) ==> (result <==> value@.obj
            == gap@.handles.constants.fail_obj || value@.obj
            == gap@.handles.constants.kernel_fail_obj),
        call_ensures(Gap::<K>::is_fail_unrooted, (gap, reference), result) ==> (result
            <==> reference.obj == gap@.handles.constants.fail_obj || reference.obj
            == gap@.handles.constants.kernel_fail_obj),
{
    law_boolean_is_the_object(gap@.handles.constants, value@);
    law_boolean_is_the_object(gap@.handles.constants, reference);
}

// --- Lists ---
/// Whether the only new call asks for the element of a list at a position, and `result` is
/// what came back.
pub open spec fn reads_element(
    before: GapView,
    after: GapView,
    list: GapRef,
    at: int,
    result: Result<GapRef, GapError>,
) -> bool {
    let n = before.session.trace.len() as int;
    let t = after.session.trace;
    &&& after.handles == before.handles
    &&& grown(before.session, after.session, 1)
    &&& t[n].call matches Call::ListElement { list: asked, position } && asked == list.obj
        && position == at
    &&& t[n].answer matches Answer::Object(obj) && result == Ok::<GapRef, GapError>(
        GapRef { obj },
    )
}

/// Every method that reads an element asks the list it was handed for the position after
/// the index it was handed, and an owned result is rooted.
pub proof fn law_methods_read_element<K: Kernel>(list: &GapValue, reference: GapRef, idx: usize)
    requires
        idx < usize::MAX,
    ensures
        forall|gap: &mut Gap<K>, result: Result<GapValue, GapError>| #[trigger]
            call_ensures(Gap::<K>::list_get, (gap, list, idx), result) ==> {
                &&& reads_element((*gap)@, (*final(gap))@, list@, idx + 1, bare(result))
                &&& owns((*gap)@, (*final(gap))@, result)
            },
        forall|gap: &mut Gap<K>, result: Result<GapRef, GapError>| #[trigger]
            call_ensures(Gap::<K>::list_get_unrooted, (gap, reference, idx), result) ==> {
                &&& reads_element((*gap)@, (*final(gap))@, reference, idx + 1, result)
                &&& keeps_roots((*gap)@, (*final(gap))@)
            },
        forall|gap: &mut Gap<K>, result: Result<GapRef, GapError>| #[trigger]
            call_ensures(Gap::<K>::get_list_elem, (gap, &reference, idx), result) ==> {
                &&& reads_element((*gap)@, (*final(gap))@, reference, idx + 1, result)
                &&& keeps_roots((*gap)@, (*final(gap))@)
            },
{
    assert forall|gap: &mut Gap<K>, result: Result<GapValue, GapError>| #[trigger]
        call_ensures(Gap::<K>::list_get, (gap, list, idx), result) implies {
            &&& reads_element((*gap)@, (*final(gap))@, list@, idx + 1, bare(result))
            &&& owns((*gap)@, (*final(gap))@, result)
        } by {
        let before = (*gap)@;
        let after = (*final(gap))@;
        law_element_is_at_next_position(
            before,
            after.with_roots(before.roots()),
            list@,
            idx,
            plain(result),
        );
    }
    assert forall|gap: &mut Gap<K>, result: Result<GapRef, GapError>| #[trigger]
        call_ensures(Gap::<K>::list_get_unrooted, (gap, reference, idx), result) implies {
            &&& reads_element((*gap)@, (*final(gap))@, reference, idx + 1, result)
            &&& keeps_roots((*gap)@, (*final(gap))@)
        } by {
        let before = (*gap)@;
        let after = (*final(gap))@;
        law_element_is_at_next_position(before, after, reference, idx, result);
    }
    assert forall|gap: &mut Gap<K>, result: Result<GapRef, GapError>| #[trigger]
        call_ensures(Gap::<K>::get_list_elem, (gap, &reference, idx), result) implies {
            &&& reads_element((*gap)@, (*final(gap))@, reference, idx + 1, result)
            &&& keeps_roots((*gap)@, (*final(gap))@)
        } by {
        let before = (*gap)@;
        let after = (*final(gap))@;
        law_element_is_at_next_position(before, after, reference, idx, result);
    }
}

/// Whether the only new call asks for the length of a list, and `length` is what came back.
pub open spec fn reads_length(
    before: GapView,
    after: GapView,
    list: GapRef,
    length: usize,
) -> bool {
    let n = before.session.trace.len() as int;
    let t = after.session.trace;
    &&& after.handles == before.handles
    &&& grown(before.session, after.session, 1)
    &&& t[n].call == (Call::ListLength { list: list.obj })
    &&& t[n].answer matches Answer::Integer(number) && (0 <= number <= usize::MAX ==> length
        == number)
}

/// Every method that reads a length reads that of the list it was handed.
pub proof fn law_methods_read_length<K: Kernel>(list: &GapValue, reference: GapRef)
    ensures
        forall|gap: &mut Gap<K>, result: usize| #[trigger]
            call_ensures(Gap::<K>::list_len, (gap, list), result) ==> {
                &&& reads_length((*gap)@, (*final(gap))@, list@, result)
                &&& keeps_roots((*gap)@, (*final(gap))@)
            },
        forall|gap: &mut Gap<K>, result: usize| #[trigger]
            call_ensures(Gap::<K>::list_len_unrooted, (gap, reference), result) ==> {
                &&& reads_length((*gap)@, (*final(gap))@, reference, result)
                &&& keeps_roots((*gap)@, (*final(gap))@)
            },
{
    assert forall|gap: &mut Gap<K>, result: usize| #[trigger]
        call_ensures(Gap::<K>::list_len, (gap, list), result) implies {
            &&& reads_length((*gap)@, (*final(gap))@, list@, result)
            &&& keeps_roots((*gap)@, (*final(gap))@)
        } by {
        let before = (*gap)@;
        let after = (*final(gap))@;
        law_length_is_the_number(before, after, list@, result);
    }
    assert forall|gap: &mut Gap<K>, result: usize| #[trigger]
        call_ensures(Gap::<K>::list_len_unrooted, (gap, reference), result) implies {
            &&& reads_length((*gap)@, (*final(gap))@, reference, result)
            &&& keeps_roots((*gap)@, (*final(gap))@)
        } by {
        let before = (*gap)@;
        let after = (*final(gap))@;
        law_length_is_the_number(before, after, reference, result);
    }
}

/// Whether the new calls make `list` with the given objects at the positions from one on.
pub open spec fn makes_list(
    before: GapView,
    after: GapView,
    elements: Seq<Obj>,
    list: GapRef,
) -> bool {
    let n = before.session.trace.len() as int;
    let t = after.session.trace;
    &&& after.handles == before.handles
    &&& grown(before.session, after.session, elements.len() as int + 3)
    &&& t[n].call is NewPlist
    &&& t[n].answer == Answer::Object(list.obj)
    &&& t[n + 1].call matches Call::SetPlistLength { list: made, length } && made == list.obj
        && length == elements.len()
    &&& forall|k: int|
        0 <= k < elements.len() ==> (#[trigger] t[n + 2 + k].call matches Call::SetPlistElement {
            list: made,
            position,
            element,
        } && made == list.obj && position == k + 1 && element == elements[k])
}

proof fn lemma_makes_list(before: GapView, after: GapView, elements: Seq<Obj>, list: GapRef)
    requires
        elements.len() <= usize::MAX - 2,
        list_made(before, after, elements, list),
    ensures
        makes_list(before, after, elements, list),
        keeps_roots(before, after),
{
    law_list_holds_every_element(before, after, elements, list);
}

/// Every method that makes a list puts the object of each element it was handed at the
/// position after its index, and nothing else, and an owned list is rooted.
pub proof fn law_methods_make_list<K: Kernel>(values: &[GapValue], refs: &[GapRef])
    requires
        values@.len() <= usize::MAX - 2,
        refs@.len() <= usize::MAX - 2,
    ensures
        forall|gap: &mut Gap<K>, result: GapValue| #[trigger]
            call_ensures(Gap::<K>::list, (gap, values), result) ==> {
                &&& makes_list(
                    (*gap)@,
                    (*final(gap))@,
                    Seq::new(values@.len(), |i: int| values@[i]@.obj),
                    result@,
                )
                &&& (*final(gap))@.session.roots == (*gap)@.session.roots.insert(result@)
            },
        forall|gap: &mut Gap<K>, result: GapRef| #[trigger]
            call_ensures(Gap::<K>::list_unrooted, (gap, refs), result) ==> {
                &&& makes_list(
                    (*gap)@,
                    (*final(gap))@,
                    Seq::new(refs@.len(), |i: int| refs@[i].obj),
                    result,
                )
                &&& keeps_roots((*gap)@, (*final(gap))@)
            },
        forall|gap: &mut Gap<K>, result: GapValue| #[trigger]
            call_ensures(Gap::<K>::list_rooted, (gap, refs), result) ==> {
                &&& makes_list(
                    (*gap)@,
                    (*final(gap))@,
                    Seq::new(refs@.len(), |i: int| refs@[i].obj),
                    result@,
                )
                &&& (*final(gap))@.session.roots == (*gap)@.session.roots.insert(result@)
            },
{
    assert forall|gap: &mut Gap<K>, result: GapValue| #[trigger]
        call_ensures(Gap::<K>::list, (gap, values), result) implies {
            &&& makes_list(
                (*gap)@,
                (*final(gap))@,
                Seq::new(values@.len(), |i: int| values@[i]@.obj),
                result@,
            )
            &&& (*final(gap))@.session.roots == (*gap)@.session.roots.insert(result@)
        } by {
        let before = (*gap)@;
        let after = (*final(gap))@;
        law_every_element_is_passed(seq![], values@);
        assert(value_objs(values@) =~= Seq::new(values@.len(), |i: int| values@[i]@.obj));
        lemma_makes_list(
            before,
            after.with_roots(before.roots()),
            Seq::new(values@.len(), |i: int| values@[i]@.obj),
            result@,
        );
    }
    assert forall|gap: &mut Gap<K>, result: GapRef| #[trigger]
        call_ensures(Gap::<K>::list_unrooted, (gap, refs), result) implies {
            &&& makes_list(
                (*gap)@,
                (*final(gap))@,
                Seq::new(refs@.len(), |i: int| refs@[i].obj),
                result,
            )
            &&& keeps_roots((*gap)@, (*final(gap))@)
        } by {
        let before = (*gap)@;
        let after = (*final(gap))@;
        law_every_element_is_passed(refs@, seq![]);
        assert(ref_objs(refs@) =~= Seq::new(refs@.len(), |i: int| refs@[i].obj));
        lemma_makes_list(before, after, Seq::new(refs@.len(), |i: int| refs@[i].obj), result);
    }
    assert forall|gap: &mut Gap<K>, result: GapValue| #[trigger]
        call_ensures(Gap::<K>::list_rooted, (gap, refs), result) implies {
            &&& makes_list(
                (*gap)@,
                (*final(gap))@,
                Seq::new(refs@.len(), |i: int| refs@[i].obj),
                result@,
            )
            &&& (*final(gap))@.session.roots == (*gap)@.session.roots.insert(result@)
        } by {
        let before = (*gap)@;
        let after = (*final(gap))@;
        law_every_element_is_passed(refs@, seq![]);
        assert(ref_objs(refs@) =~= Seq::new(refs@.len(), |i: int| refs@[i].obj));
        lemma_makes_list(
            before,
            after.with_roots(before.roots()),
            Seq::new(refs@.len(), |i: int| refs@[i].obj),
            result@,
        );
    }
}

// --- Permutations ---
/// Whether the new calls make an integer object for each point and one for each image,
/// both counted from one, make a list of each, and have GAP map the one to the other.
pub open spec fn maps_points(
    before: GapView,
    after: GapView,
    images: Seq<usize>,
    result: Result<GapRef, GapError>,
) -> bool {
    let n = before.session.trace.len() as int;
    let m = images.len() as int;
    let t = after.session.trace;
    &&& after.handles == before.handles
    &&& forall|i: int| 0 <= i < n ==> #[trigger] t[i] == before.session.trace[i]
    &&& forall|i: int|
        n <= i < n + m ==> ((#[trigger] t[i]).call matches Call::ObjectOfInteger { value }
            && value == i - n + 1)
    &&& forall|i: int|
        n + m <= i < n + 2 * m ==> ((#[trigger] t[i]).call matches Call::ObjectOfInteger { value }
            && value == images[i - n - m] + 1)
    &&& t[n + 2 * m].answer matches Answer::Object(source) && builds_list(
        t,
        n + 2 * m,
        m,
        n,
        source,
    )
    &&& t[n + 3 * m + 3].answer matches Answer::Object(target) && builds_list(
        t,
        n + 3 * m + 3,
        m,
        n + m,
        target,
    )
    &&& mapped(
        t,
        before.session.error,
        n,
        n + 4 * m + 6,
        n + 2 * m,
        n + 3 * m + 3,
        result,
    )
}

proof fn lemma_maps_points(
    before: GapView,
    after: GapView,
    images: Seq<usize>,
    result: Result<GapRef, GapError>,
)
    requires
        images.len() < isize::MAX,
        forall|k: int| 0 <= k < images.len() ==> #[trigger] images[k] < isize::MAX,
        permutation_made(before, after, images, result),
    ensures
        maps_points(before, after, images, result),
{
    law_permutation_has_every_point(before, after, images, result);
    law_permutation_lists_every_point(before, after, images, result);
    law_permutation_maps_lists(before, after, images, result);
}

#[verifier::spinoff_prover]
proof fn lemma_maps_owned(
    before: GapView,
    after: GapView,
    images: Seq<usize>,
    result: Result<GapValue, GapError>,
)
    requires
        images.len() < isize::MAX,
        forall|k: int| 0 <= k < images.len() ==> #[trigger] images[k] < isize::MAX,
        permutation_made(before, after.with_roots(before.roots()), images, plain(result)),
    ensures
        maps_points(before, after, images, bare(result)),
{
    lemma_maps_points(before, after.with_roots(before.roots()), images, plain(result));
    assert(bare(result) == plain(result));
    assert(after.with_roots(before.roots()).session.trace == after.session.trace);
}

/// Every method that makes a permutation maps each point to the image it was handed for it,
/// and an owned result is rooted.
#[verifier::spinoff_prover]
#[verifier::rlimit(60)]
pub proof fn law_methods_make_permutation<K: Kernel>(images: &[usize])
    requires
        images@.len() < isize::MAX,
        forall|k: int| 0 <= k < images@.len() ==> #[trigger] images@[k] < isize::MAX,
    ensures
        forall|gap: &mut Gap<K>, result: Result<GapValue, GapError>| #[trigger]
            call_ensures(Gap::<K>::permutation_from_zero_based_images, (gap, images), result) ==> {
                &&& maps_points((*gap)@, (*final(gap))@, images@, bare(result))
                &&& owns((*gap)@, (*final(gap))@, result)
            },
        forall|gap: &mut Gap<K>, result: Result<GapValue, GapError>| #[trigger]
            call_ensures(
                Gap::<K>::permutation_from_zero_based_images_rooted,
                (gap, images),
                result,
            ) ==> {
                &&& maps_points((*gap)@, (*final(gap))@, images@, bare(result))
                &&& owns((*gap)@, (*final(gap))@, result)
            },
{
    assert forall|gap: &mut Gap<K>, result: Result<GapValue, GapError>| #[trigger]
        call_ensures(Gap::<K>::permutation_from_zero_based_images, (gap, images), result) implies {
            &&& maps_points((*gap)@, (*final(gap))@, images@, bare(result))
            &&& owns((*gap)@, (*final(gap))@, result)
        } by {
        let before = (*gap)@;
        let after = (*final(gap))@;
        lemma_maps_owned(before, after, images@, result);
    }
    assert forall|gap: &mut Gap<K>, result: Result<GapValue, GapError>| #[trigger]
        call_ensures(
            Gap::<K>::permutation_from_zero_based_images_rooted,
            (gap, images),
            result,
        ) implies {
            &&& maps_points((*gap)@, (*final(gap))@, images@, bare(result))
            &&& owns((*gap)@, (*final(gap))@, result)
        } by {
        let before = (*gap)@;
        let after = (*final(gap))@;
        lemma_maps_owned(before, after, images@, result);
    }
}

/// Whether the new calls ask `OnPoints` for the image of each point under `permutation`, and
/// each image is one less than the number that came back for it.
pub open spec fn reads_images(
    before: GapView,
    after: GapView,
    permutation: GapRef,
    images: Seq<usize>,
) -> bool {
    let n = before.session.trace.len() as int;
    let t = after.session.trace;
    &&& grown(before.session, after.session, 1 + 3 * images.len() as int)
    &&& t[n].call == (Call::GlobalVariable { name: "OnPoints"@ })
    &&& forall|k: int|
        0 <= k < images.len() ==> {
            &&& #[trigger] t[n + 1 + 3 * k].call matches Call::ObjectOfInteger { value } && value
                == k + 1
            &&& t[n + 1 + 3 * k].answer matches Answer::Object(point) && t[n + 2 + 3
                * k].call matches Call::CallArray { function, args } && t[n].answer
                == Answer::Object(function) && args == seq![point, permutation.obj]
            &&& t[n + 3 + 3 * k].answer matches Answer::Integer(number) && (number <= usize::MAX
                ==> number == images[k] + 1)
        }
}

/// Whether `result` is the images of as many points as were asked for, or an error; there
/// is an error only if one was pending, if libgap reported one, or if a number that came
/// back is no point.
pub open spec fn gives_images(
    before: GapView,
    after: GapView,
    permutation: GapRef,
    degree: usize,
    result: Result<Vec<usize>, GapError>,
) -> bool {
    let t = after.session.trace;
    &&& after.handles == before.handles
    &&& match result {
        Ok(images) => images@.len() == degree && reads_images(
            before,
            after,
            permutation,
            images@,
        ),
        Err(_) => before.session.error || exists|i: int|
            before.session.trace.len() <= i < t.len() && ((#[trigger] t[i]).raised || (
            t[i].answer matches Answer::Integer(number) && (number <= 0 || number
                > usize::MAX))),
    }
}

/// The images that are read are those of the permutation that was handed over, as many as
/// were asked for.
pub proof fn law_method_reads_images<K: Kernel>(permutation: &GapValue, degree: usize)
    requires
        degree < isize::MAX,
    ensures
        forall|gap: &mut Gap<K>, result: Result<Vec<usize>, GapError>| #[trigger]
            call_ensures(
                Gap::<K>::permutation_images_zero_based,
                (gap, permutation, degree),
                result,
            ) ==> {
                &&& gives_images((*gap)@, (*final(gap))@, permutation@, degree, result)
                &&& keeps_roots((*gap)@, (*final(gap))@)
            },
{
    assert forall|gap: &mut Gap<K>, result: Result<Vec<usize>, GapError>| #[trigger]
        call_ensures(
            Gap::<K>::permutation_images_zero_based,
            (gap, permutation, degree),
            result,
        ) implies {
            &&& gives_images((*gap)@, (*final(gap))@, permutation@, degree, result)
            &&& keeps_roots((*gap)@, (*final(gap))@)
        } by {
        let before = (*gap)@;
        let after = (*final(gap))@;
        if result is Ok {
            law_images_are_read_in_turn(before, after, permutation@, degree, result);
        } else {
            lemma_no_images(before, after, permutation@, degree, result);
        }
    }
}

proof fn lemma_no_images(
    before: GapView,
    after: GapView,
    permutation: GapRef,
    degree: usize,
    result: Result<Vec<usize>, GapError>,
)
    requires
        images_read(before, after, permutation, degree, result),
        result is Err,
    ensures
        after.handles == before.handles,
        keeps_roots(before, after),
        before.session.error || exists|i: int|
            before.session.trace.len() <= i < after.session.trace.len() && ((
            #[trigger] after.session.trace[i]).raised || (after.session.trace[i].answer matches
                Answer::Integer(number) && (number <= 0 || number > usize::MAX))),
{
    law_images_end_at_first_error(before, after, permutation, degree, result);
    let n = before.session.trace.len() as int;
    let t = after.session.trace;
    let error = result->Err_0;
    if before.session.error {
    } else if t[n].raised {
        assert(n <= n < t.len() && t[n].raised);
    } else {
        let k = choose|k: int| #![trigger t[n + 2 + 3 * k]]
            0 <= k < degree && (forall|j: int|
                0 <= j < k ==> !(#[trigger] t[n + 2 + 3 * j]).raised) && (if t[n + 2 + 3
                * k].raised {
                t.len() == n + 3 + 3 * k && error == GapError::Reported(Activity::FunctionCall)
            } else {
                t.len() == n + 4 + 3 * k && (t[n + 3 + 3 * k].answer matches Answer::Integer(
                    number,
                ) && (if number < 0 {
                    error == GapError::NegativeInteger(number)
                } else {
                    error == GapError::OutsideDegree && (number <= usize::MAX ==> number == 0)
                }))
            });
        let i = if t[n + 2 + 3 * k].raised {
            n + 2 + 3 * k
        } else {
            n + 3 + 3 * k
        };
        assert(n <= i < t.len());
        assert(t[i].raised || (t[i].answer matches Answer::Integer(number) && (number <= 0
            || number > usize::MAX)));
    }
}

// --- Roots ---
/// Whether only the number of times that `reference` is rooted changed, by `more`, and
/// nothing was asked of libgap.
pub open spec fn rerooted(before: GapView, after: GapView, reference: GapRef, more: int) -> bool {
    &&& after.handles == before.handles
    &&& after.session.trace == before.session.trace
    &&& after.session.error == before.session.error
    &&& after.session.roots.count(reference) == before.session.roots.count(reference) + more
    &&& forall|other: GapRef|
        other != reference ==> #[trigger] after.session.roots.count(other)
            == before.session.roots.count(other)
}

/// Every method that roots a handle adds one root of that handle and nothing else.
pub proof fn law_methods_root<K: Kernel>(value: &GapValue, reference: GapRef)
    ensures
        forall|gap: &mut Gap<K>, result: GapValue| #[trigger]
            call_ensures(Gap::<K>::root, (gap, reference), result) ==> {
                &&& result@ == reference
                &&& rerooted((*gap)@, (*final(gap))@, reference, 1)
            },
        forall|gap: &mut Gap<K>, result: GapValue| #[trigger]
            call_ensures(Gap::<K>::duplicate, (gap, value), result) ==> {
                &&& result@ == value@
                &&& rerooted((*gap)@, (*final(gap))@, value@, 1)
            },
        forall|gap: &mut Gap<K>, result: ()| #[trigger]
            call_ensures(Gap::<K>::root_ref, (gap, reference), result) ==> {
                &&& rerooted((*gap)@, (*final(gap))@, reference, 1)
            },
        forall|gap: &mut Gap<K>, result: ()| #[trigger]
            call_ensures(Gap::<K>::alloc_ref, (gap, &reference), result) ==> {
                &&& rerooted((*gap)@, (*final(gap))@, reference, 1)
            },
{
}

/// Every method that unroots a handle takes one root of that handle away, if it has one,
/// and nothing else.
pub proof fn law_methods_unroot<K: Kernel>(value: GapValue, reference: GapRef)
    ensures
        forall|gap: &mut Gap<K>, result: ()| #[trigger]
            call_ensures(Gap::<K>::release, (gap, value), result) ==> {
                &&& rerooted(
                    (*gap)@,
                    (*final(gap))@,
                    value@,
                    (if (*gap)@.session.roots.count(value@) > 0 { -1int } else { 0 }),
                )
            },
        forall|gap: &mut Gap<K>, result: ()| #[trigger]
            call_ensures(Gap::<K>::unroot_ref, (gap, reference), result) ==> {
                &&& rerooted(
                    (*gap)@,
                    (*final(gap))@,
                    reference,
                    (if (*gap)@.session.roots.count(reference) > 0 { -1int } else { 0 }),
                )
            },
        forall|gap: &mut Gap<K>, result: ()| #[trigger]
            call_ensures(Gap::<K>::free, (gap, &reference), result) ==> {
                &&& rerooted(
                    (*gap)@,
                    (*final(gap))@,
                    reference,
                    (if (*gap)@.session.roots.count(reference) > 0 { -1int } else { 0 }),
                )
            },
{
}

}
