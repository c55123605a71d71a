//! The GAP interpreter: a started libgap with the objects that the wrapper needs.

pub mod calls;
pub mod evaluation;
pub mod laws;
pub mod lists;
pub mod memory_laws;
pub mod method_laws;
pub mod operation_laws;
pub mod permutations;
pub mod values;

use crate::discovery_spec::is_core_root;
use crate::error::GapError;
use crate::handle::{GapRef, Obj};
use crate::kernel::{any_raised, Answer, Call, Constants, Event, Kernel};
use crate::path::PosixPath;
use crate::roots::GapValue;
use crate::runtime_roots::{default_gap_root, gap_root_arg, root_arg_text, validate_gap_root};
use crate::session::{asked, lemma_asked, lemma_silent, Session, SessionView};
use crate::text::has_nul;
use crate::tree::{Tree, TreeView};
use vstd::multiset::Multiset;
use vstd::prelude::*;
use vstd::string::*;

verus! {

/// GAP objects that the wrapper looks up once, when GAP is started.
#[derive(Clone, Copy, Debug, PartialEq, Eq, Structural)]
pub struct Handles {
    /// GAP's distinguished objects.
    pub constants: Constants,
    /// GAP's `PrintTo` function, used for rendering.
    pub print_fn: Obj,
    /// GAP's `InputTextString` operation, used to feed strings to the reader.
    pub input_stream: Obj,
    /// Mutable GAP string that receives printed output.
    pub output_str_obj: Obj,
    /// GAP output stream handle wrapping `output_str_obj`.
    pub output_stream_handle: Obj,
}

/// An interpreter, as contracts speak of it.
#[verifier::ext_equal]
pub struct GapView {
    pub handles: Handles,
    pub session: SessionView,
}

impl GapView {
    /// The interpreter with other roots.
    pub open spec fn with_roots(self, roots: Multiset<GapRef>) -> GapView {
        GapView { handles: self.handles, session: self.session.with_roots(roots) }
    }

    /// The interpreter with the conversation at `session`.
    pub open spec fn with_session(self, session: SessionView) -> GapView {
        GapView { handles: self.handles, session }
    }

    /// The rooted objects.
    pub open spec fn roots(self) -> Multiset<GapRef> {
        self.session.roots
    }
}

/// A result with the bare handle in place of the owned value.
pub open spec fn plain(result: Result<GapValue, GapError>) -> Result<GapRef, GapError> {
    match result {
        Ok(value) => Ok(value@),
        Err(e) => Err(e),
    }
}

/// The roots once a result is rooted, if it is there.
pub open spec fn roots_with(
    roots: Multiset<GapRef>,
    result: Result<GapValue, GapError>,
) -> Multiset<GapRef> {
    match result {
        Ok(value) => roots.insert(value@),
        Err(_) => roots,
    }
}

/// A live libgap interpreter instance.
///
/// It caches a handful of GAP globals and stream objects needed by the wrapper
/// methods, and owns the conversation with libgap.
pub struct Gap<K: Kernel> {
    session: Session<K>,
    handles: Handles,
}

impl<K: Kernel> View for Gap<K> {
    type V = GapView;

    closed spec fn view(&self) -> GapView {
        GapView { handles: self.handles, session: self.session@ }
    }
}

impl<K: Kernel> Gap<K> {
    /// The kernel that the interpreter speaks to, as the calls so far left it.
    pub closed spec fn kernel(&self) -> K {
        self.session.kernel()
    }
}

/// What a process knows about its GAP installation when it starts GAP.
#[derive(Debug)]
pub struct Host {
    /// The root that the environment names.
    pub env_root: Option<PosixPath>,
    /// The root that was found at build time.
    pub build_root: PosixPath,
    /// What was seen of the file system.
    pub tree: Tree,
}

impl Host {
    /// The root that is used by default: the environment's wins.
    pub open spec fn default_root(self) -> Seq<u8> {
        match self.env_root {
            Some(root) => root@,
            None => self.build_root@,
        }
    }
}

/// Why GAP was not started; the conversation is given back.
pub struct InitFailure<K: Kernel> {
    /// What went wrong.
    pub error: GapError,
    /// The conversation, in which another attempt can be made.
    pub session: Session<K>,
}

/// The arguments with which GAP is started.
pub open spec fn init_args(root_arg: Seq<char>) -> Seq<Seq<char>> {
    seq!["gap"@, "-l"@, root_arg, "-q"@, "-E"@, "--nointeract"@, "-x"@, "4096"@]
}

/// The calls that start GAP, as far as `events` goes, all made with nothing rooted.
pub open spec fn init_calls(root_arg: Seq<char>, events: Seq<Event>) -> bool {
    &&& events.len() <= 7
    &&& events.len() > 0 ==> events[0].call == (Call::Initialize { argv: init_args(root_arg) })
    &&& events.len() > 1 ==> events[1].call == (Call::VariableValue { name: "OutputTextString"@ })
    &&& events.len() > 2 ==> events[2].call == (Call::NewString { length: 0 })
    &&& events.len() > 3 ==> events[3].call == (Call::Operation2 {
        operation: events[1].obj(),
        first: events[2].obj(),
        second: init_constants(events).true_obj,
    })
    &&& events.len() > 4 ==> events[4].call == (Call::OpenOutputStream { stream: events[3].obj() })
    &&& events.len() > 5 ==> events[5].call == (Call::GlobalVariable { name: "PrintTo"@ })
    &&& events.len() > 6 ==> events[6].call == (Call::GlobalVariable { name: "InputTextString"@ })
    &&& forall|i: int|
        0 <= i < events.len() ==> {
            &&& (#[trigger] events[i]).roots == Multiset::<GapRef>::empty()
            &&& init_answer(i, events[i].answer)
        }
}

/// Whether `answer` is of the kind that the starting call at `i` gives.
pub open spec fn init_answer(i: int, answer: Answer) -> bool {
    if i == 0 {
        answer is Constants
    } else if i == 4 {
        answer is Count
    } else {
        answer is Object
    }
}

/// GAP's distinguished objects, as the first of the starting calls returned them.
pub open spec fn init_constants(events: Seq<Event>) -> Constants {
    events[0].answer->Constants_0
}

/// Whether the output stream was opened.
pub open spec fn stream_opened(events: Seq<Event>) -> bool {
    events[4].answer == Answer::Count(1)
}

/// The objects that all of the starting calls give.
pub open spec fn started_handles(events: Seq<Event>) -> Handles {
    Handles {
        constants: init_constants(events),
        print_fn: events[5].obj(),
        input_stream: events[6].obj(),
        output_str_obj: events[2].obj(),
        output_stream_handle: events[3].obj(),
    }
}

/// Whether GAP cannot be started at `root`: the core file is not there, or the root list
/// holds a NUL and cannot be handed to GAP as a C string.
pub open spec fn root_refused(tree: TreeView, root: Seq<u8>) -> bool {
    !is_core_root(tree, root) || root_arg_text(tree, root).contains('\0')
}

/// What starting GAP at `root` comes to, when it takes the conversation from `before` to
/// `after`. A root without the core file and a root list with a NUL are refused: there
/// is no call, and the conversation is as before. Otherwise nothing is rooted and the
/// error flag is clear when the calls begin; an error during initialization and a
/// stream that does not open end the calls; if there is neither, all calls are made.
/// There are no other calls in any case.
pub open spec fn start_outcome(
    tree: TreeView,
    root: Seq<u8>,
    before: SessionView,
    after: SessionView,
    result: Result<Handles, GapError>,
) -> bool {
    let root_arg = root_arg_text(tree, root);
    let events = after.since(before);
    if !is_core_root(tree, root) {
        &&& after == before
        &&& result matches Err(error)
        &&& error is InvalidRoot
        &&& error->InvalidRoot_0@ == root
    } else if root_arg.contains('\0') {
        &&& after == before
        &&& result == Err::<Handles, GapError>(GapError::NulInRoot)
    } else {
        &&& after.continues(before, events)
        &&& after.roots == Multiset::<GapRef>::empty()
        &&& after.error == any_raised(events.skip(1))
        &&& init_calls(root_arg, events)
        &&& events.len() >= 1
        &&& if events[0].raised {
            &&& events.len() == 1
            &&& result == Err::<Handles, GapError>(GapError::InitializationReported)
        } else {
            &&& events.len() >= 5
            &&& if !stream_opened(events) {
                &&& events.len() == 5
                &&& result == Err::<Handles, GapError>(GapError::NoOutputStream)
            } else {
                &&& events.len() == 7
                &&& result == Ok::<Handles, GapError>(started_handles(events))
            }
        }
    }
}

/// How often libgap is started in the course of `events`.
pub open spec fn starts(events: Seq<Event>) -> nat {
    events.filter(|event: Event| event.call is Initialize).len()
}

/// Starting GAP starts libgap once, with the arguments for the root, and makes no call
/// at all if the root is refused.
pub proof fn law_start_is_single(
    tree: TreeView,
    root: Seq<u8>,
    before: SessionView,
    after: SessionView,
    result: Result<Handles, GapError>,
)
    requires
        start_outcome(tree, root, before, after, result),
    ensures
        ({
            let events = after.since(before);
            &&& after.continues(before, events)
            &&& if root_refused(tree, root) {
                &&& result is Err
                &&& events.len() == 0
                &&& starts(events) == 0
                &&& after == before
            } else {
                &&& starts(events) == 1
                &&& events[0].call == (Call::Initialize {
                    argv: init_args(root_arg_text(tree, root)),
                })
            }
        }),
{
    let events = after.since(before);
    assert(after.trace =~= before.trace + events);
    if root_refused(tree, root) {
        assert(events =~= seq![]);
        lemma_starts_of_others(events);
    } else {
        let others = events.skip(1);
        assert(events =~= seq![events[0]] + others);
        lemma_starts_of_others(others);
        lemma_starts_after_first(events[0], others);
    }
}

/// Calls among which libgap is not started.
pub(crate) proof fn lemma_starts_of_others(events: Seq<Event>)
    requires
        forall|i: int| 0 <= i < events.len() ==> !((#[trigger] events[i]).call is Initialize),
    ensures
        starts(events) == 0,
    decreases events.len(),
{
    reveal(Seq::filter);
    if events.len() > 0 {
        assert forall|i: int| 0 <= i < events.drop_last().len() implies !((
        #[trigger] events.drop_last()[i]).call is Initialize) by {
            assert(events.drop_last()[i] == events[i]);
        }
        lemma_starts_of_others(events.drop_last());
    }
}

/// A start of libgap, and calls among which it is not started.
proof fn lemma_starts_after_first(first: Event, others: Seq<Event>)
    requires
        first.call is Initialize,
        forall|i: int| 0 <= i < others.len() ==> !((#[trigger] others[i]).call is Initialize),
    ensures
        starts(seq![first] + others) == 1,
    decreases others.len(),
{
    reveal(Seq::filter);
    let all = seq![first] + others;
    if others.len() > 0 {
        let fewer = others.drop_last();
        assert(all.drop_last() =~= seq![first] + fewer);
        assert forall|i: int| 0 <= i < fewer.len() implies !((#[trigger] fewer[i]).call is Initialize) by {
            assert(fewer[i] == others[i]);
        }
        lemma_starts_after_first(first, fewer);
    } else {
        assert(all.drop_last() =~= seq![]);
        lemma_starts_of_others(all.drop_last());
    }
}

/// What starting GAP at `root` in a conversation comes to. One that is refused gives the
/// conversation back untouched, the kernel and the table of rooted objects with it.
pub open spec fn init_outcome<K: Kernel>(
    tree: TreeView,
    root: Seq<u8>,
    session: Session<K>,
    result: Result<Gap<K>, InitFailure<K>>,
) -> bool {
    match result {
        Ok(gap) => start_outcome(tree, root, session@, gap@.session, Ok(gap@.handles)),
        Err(failure) => {
            &&& start_outcome(tree, root, session@, failure.session@, Err(failure.error))
            &&& root_refused(tree, root) ==> failure.session == session
        },
    }
}

/// What an error report during initialization comes to.
pub fn initialization_checked(reported: bool) -> (result: Result<(), GapError>)
    ensures
        result == (if reported {
            Err::<(), GapError>(GapError::InitializationReported)
        } else {
            Ok(())
        }),
{
    if reported {
        Err(GapError::InitializationReported)
    } else {
        Ok(())
    }
}

/// What libgap's answer to opening the output stream comes to: it is 1 on success.
pub fn stream_checked(count: u64) -> (result: Result<(), GapError>)
    ensures
        result == (if count == 1 {
            Ok::<(), GapError>(())
        } else {
            Err(GapError::NoOutputStream)
        }),
{
    if count == 1 {
        Ok(())
    } else {
        Err(GapError::NoOutputStream)
    }
}

/// The calls since `before` are the first one, which led to `middle`, and those since
/// `middle`.
proof fn lemma_first_call(
    before: SessionView,
    first: Event,
    middle: SessionView,
    after: SessionView,
)
    requires
        middle.trace == before.trace.push(first),
        after.spoke(middle, after.since(middle)),
    ensures
        after.since(before) == seq![first] + after.since(middle),
        after.since(before).skip(1) == after.since(middle),
        after.continues(before, after.since(before)),
{
    assert(after.since(before) =~= seq![first] + after.since(middle));
    assert(after.since(before).skip(1) =~= after.since(middle));
    assert(after.trace =~= before.trace + after.since(before));
}

impl<K: Kernel> Gap<K> {
    /// Initializes GAP using the default runtime root.
    pub fn try_init(session: Session<K>, host: &Host) -> (result: Result<Gap<K>, InitFailure<K>>)
        ensures
            init_outcome(host.tree@, host.default_root(), session, result),
    {
        let root = default_gap_root(&host.env_root, &host.build_root);
        Self::try_init_with_root(session, &root, &host.tree)
    }

    /// Initializes GAP with an explicit runtime root.
    ///
    /// The root must contain `lib/init.g`. The implementation passes `-l` with
    /// a semicolon-terminated root list to libgap, opens a GAP output stream
    /// backed by a mutable GAP string, and caches the GAP globals used by other
    /// wrapper methods.
    ///
    /// Some package managers split GAP's core files and package files across
    /// sibling roots. When that layout is detected, additional package roots are
    /// part of the `-l` argument so GAP packages remain discoverable.
    pub fn try_init_with_root(session: Session<K>, root: &PosixPath, tree: &Tree) -> (result:
        Result<Gap<K>, InitFailure<K>>)
        ensures
            init_outcome(tree@, root@, session, result),
    {
        broadcast use lemma_asked;

        if let Err(error) = validate_gap_root(root, tree) {
            return Err(InitFailure { error, session });
        }
        let root_arg = gap_root_arg(root, tree);
        if has_nul(root_arg.as_str()) {
            return Err(InitFailure { error: GapError::NulInRoot, session });
        }
        let args = argument_list(root_arg);
        let ghost before = session@;
        let mut session = session;
        session.reset();
        let constants = session.initialize(&args);
        let reported = session.take_error();
        let ghost first = session@.trace.last();
        let ghost middle = session@;
        proof {
            lemma_silent(middle);
            lemma_first_call(before, first, middle, middle);
        }
        if let Err(error) = initialization_checked(reported) {
            return Err(InitFailure { error, session });
        }
        let output_text_str_operation = session.variable_value("OutputTextString");
        let output_str_obj = session.new_string(0);
        let output_stream_handle = session.operation_2(
            output_text_str_operation,
            output_str_obj,
            constants.true_obj,
        );
        let opened = session.open_output_stream(output_stream_handle);
        proof {
            lemma_first_call(before, first, middle, session@);
        }
        if let Err(error) = stream_checked(opened) {
            return Err(InitFailure { error, session });
        }
        let print_fn = session.global_variable("PrintTo");
        let input_stream = session.global_variable("InputTextString");
        let handles = Handles {
            constants,
            print_fn,
            input_stream,
            output_str_obj,
            output_stream_handle,
        };
        proof {
            lemma_first_call(before, first, middle, session@);
        }
        Ok(Gap { session, handles })
    }

    /// Closes GAP's output stream and returns what libgap answered. Nothing can be
    /// displayed afterwards.
    pub fn close_output(&mut self) -> (count: u64)
        ensures
            final(self)@.handles == old(self)@.handles,
            asked(
                old(self)@.session,
                final(self)@.session,
                Call::CloseOutput,
                Answer::Count(count),
            ),
    {
        self.session.close_output()
    }
}

/// The arguments with which GAP is started.
fn argument_list(root_arg: String) -> (args: Vec<String>)
    ensures
        args.deep_view() == init_args(root_arg@),
{
    let mut args: Vec<String> = Vec::new();
    args.push("gap".to_owned());
    args.push("-l".to_owned());
    args.push(root_arg);
    args.push("-q".to_owned());
    args.push("-E".to_owned());
    args.push("--nointeract".to_owned());
    args.push("-x".to_owned());
    args.push("4096".to_owned());
    assert(args.deep_view() =~= init_args(root_arg@));
    args
}

}
