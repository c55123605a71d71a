//! The interpreter that a whole program shares, started on first use.

use crate::error::GapError;
use crate::gap::evaluation::evaluated;
use crate::gap::{
    init_calls, law_start_is_single, plain, root_refused, roots_with, start_outcome, starts, Gap,
    GapView, Host,
};
use crate::handle::GapRef;
use crate::kernel::{Event, Kernel};
use crate::path::PosixPath;
use crate::roots::GapValue;
use crate::runtime_roots::root_arg_text;
use crate::session::{Session, SessionView};
use crate::tree::{Tree, TreeView};
use vstd::multiset::Multiset;
use vstd::prelude::*;

verus! {

/// The shared runtime, as contracts speak of it.
pub struct GlobalView {
    /// The interpreter, once it is started.
    pub gap: Option<GapView>,
    /// The conversation in which it is to be started, until it is.
    pub session: Option<SessionView>,
    /// Whether a thread panicked while it was starting the interpreter.
    pub init_poisoned: bool,
    /// Whether a thread panicked while it was using the interpreter.
    pub runtime_poisoned: bool,
    /// The root that the environment names.
    pub env_root: Option<Seq<u8>>,
    /// The root that was found at build time.
    pub build_root: Seq<u8>,
    /// What was seen of the file system.
    pub tree: TreeView,
}

impl GlobalView {
    /// The root that is used by default: the environment's wins.
    pub open spec fn default_root(self) -> Seq<u8> {
        match self.env_root {
            Some(root) => root,
            None => self.build_root,
        }
    }

    /// All calls that were made on the kernel so far, in order.
    pub open spec fn trace(self) -> Seq<Event> {
        match self.gap {
            Some(gap) => gap.session.trace,
            None => self.session->0.trace,
        }
    }

    /// The runtime with the interpreter at `gap`.
    pub open spec fn running(self, gap: GapView) -> GlobalView {
        GlobalView { gap: Some(gap), session: None, runtime_poisoned: false, ..self }
    }

    /// The runtime after a failed attempt, which left the conversation at `session`.
    pub open spec fn waiting(self, session: SessionView) -> GlobalView {
        GlobalView { session: Some(session), ..self }
    }
}

/// The interpreter that a whole program shares.
///
/// Until it is started, it holds the conversation in which to start it. Access is
/// exclusive: whoever shares it between threads puts it behind a lock, and notes
/// with [`GlobalGap::set_poisoned`] what became of the lock.
pub struct GlobalGap<K: Kernel> {
    session: Option<Session<K>>,
    gap: Option<Gap<K>>,
    host: Host,
    init_poisoned: bool,
    runtime_poisoned: bool,
}

impl<K: Kernel> View for GlobalGap<K> {
    type V = GlobalView;

    closed spec fn view(&self) -> GlobalView {
        GlobalView {
            gap: match self.gap {
                Some(gap) => Some(gap@),
                None => None,
            },
            session: match self.session {
                Some(session) => Some(session@),
                None => None,
            },
            init_poisoned: self.init_poisoned,
            runtime_poisoned: self.runtime_poisoned,
            env_root: self.host.env_root.deep_view(),
            build_root: self.host.build_root@,
            tree: self.host.tree@,
        }
    }
}

/// What starting the shared interpreter at `root` comes to.
pub open spec fn started_at(
    before: GlobalView,
    after: GlobalView,
    root: Seq<u8>,
    result: Result<(), GapError>,
) -> bool {
    match result {
        Ok(_) => {
            &&& after.gap matches Some(gap)
            &&& start_outcome(
                before.tree,
                root,
                before.session->0,
                gap.session,
                Ok(gap.handles),
            )
            &&& after == before.running(gap)
        },
        Err(error) => {
            &&& after.session matches Some(session)
            &&& start_outcome(before.tree, root, before.session->0, session, Err(error))
            &&& after == before.waiting(session)
        },
    }
}

/// What starting the shared interpreter explicitly comes to: it happens once.
pub open spec fn initialized(
    before: GlobalView,
    after: GlobalView,
    root: Option<Seq<u8>>,
    result: Result<(), GapError>,
) -> bool {
    if before.init_poisoned {
        after == before && result == Err::<(), GapError>(GapError::InitializationPoisoned)
    } else if before.gap is Some {
        after == before && result == Err::<(), GapError>(GapError::AlreadyInitialized)
    } else {
        started_at(
            before,
            after,
            match root {
                Some(root) => root,
                None => before.default_root(),
            },
            result,
        )
    }
}

/// What making sure of the shared interpreter comes to: it is started unless it is there.
pub open spec fn ensured(
    before: GlobalView,
    after: GlobalView,
    result: Result<(), GapError>,
) -> bool {
    if before.gap is Some {
        after == before && result == Ok::<(), GapError>(())
    } else if before.init_poisoned {
        after == before && result == Err::<(), GapError>(GapError::InitializationPoisoned)
    } else {
        started_at(before, after, before.default_root(), result)
    }
}

/// Whether the shared interpreter is given out, and is at `gap` then.
pub open spec fn given_out(before: GlobalView, gap: GapView) -> bool {
    ensured(before, before.running(gap), Ok(()))
}

/// Whether the shared interpreter is refused with `error`: it cannot be started, or a
/// thread panicked while it was using it.
pub open spec fn refused(before: GlobalView, after: GlobalView, error: GapError) -> bool {
    if before.gap is Some && before.runtime_poisoned {
        after == before && error == GapError::RuntimePoisoned
    } else {
        ensured(before, after, Err(error))
    }
}

impl<K: Kernel> GlobalGap<K> {
    /// The kernel that the runtime speaks to, as the calls so far left it.
    pub closed spec fn kernel(&self) -> K {
        match self.gap {
            Some(gap) => gap.kernel(),
            None => self.session->0.kernel(),
        }
    }

    /// Whether there is either an interpreter or the conversation in which to start one.
    pub open spec fn wf(&self) -> bool {
        self@.gap is None <==> self@.session is Some
    }

    /// A shared runtime that is not started.
    pub fn new(kernel: K, host: Host) -> (cell: GlobalGap<K>)
        ensures
            cell.wf(),
            cell.kernel() == kernel,
            cell@ == (GlobalView {
                gap: None,
                session: Some(
                    SessionView { roots: Multiset::empty(), error: false, trace: Seq::empty() },
                ),
                init_poisoned: false,
                runtime_poisoned: false,
                env_root: host.env_root.deep_view(),
                build_root: host.build_root@,
                tree: host.tree@,
            }),
    {
        GlobalGap {
            session: Some(Session::new(kernel)),
            gap: None,
            host,
            init_poisoned: false,
            runtime_poisoned: false,
        }
    }

    /// Notes whether a thread panicked while it held the lock for starting the
    /// interpreter, or the lock for using it.
    pub fn set_poisoned(&mut self, initialization: bool, runtime: bool)
        requires
            old(self).wf(),
        ensures
            final(self).wf(),
            final(self).kernel() == old(self).kernel(),
            final(self)@ == (GlobalView {
                init_poisoned: initialization,
                runtime_poisoned: runtime,
                ..old(self)@
            }),
    {
        self.init_poisoned = initialization;
        self.runtime_poisoned = runtime;
    }

    /// Notes what was seen of the file system.
    pub fn set_tree(&mut self, tree: Tree)
        requires
            old(self).wf(),
        ensures
            final(self).wf(),
            final(self).kernel() == old(self).kernel(),
            final(self)@ == (GlobalView { tree: tree@, ..old(self)@ }),
    {
        self.host.tree = tree;
    }

    /// Starts the interpreter at `root`, or at the default root.
    fn start(&mut self, root: &Option<PosixPath>) -> (result: Result<(), GapError>)
        requires
            old(self).wf(),
            old(self)@.gap is None,
        ensures
            final(self).wf(),
            started_at(
                old(self)@,
                final(self)@,
                match root {
                    Some(root) => root@,
                    None => old(self)@.default_root(),
                },
                result,
            ),
    {
        let session = self.session.take().unwrap();
        let outcome = match root {
            Some(root) => Gap::try_init_with_root(session, root, &self.host.tree),
            None => Gap::try_init(session, &self.host),
        };
        match outcome {
            Ok(gap) => {
                self.gap = Some(gap);
                self.runtime_poisoned = false;
                Ok(())
            },
            Err(failure) => {
                self.session = Some(failure.session);
                Err(failure.error)
            },
        }
    }
}

/// Makes sure that the shared interpreter has been started.
fn ensure_global<K: Kernel>(cell: &mut GlobalGap<K>) -> (result: Result<(), GapError>)
    requires
        old(cell).wf(),
    ensures
        final(cell).wf(),
        ensured(old(cell)@, final(cell)@, result),
{
    if cell.gap.is_some() {
        return Ok(());
    }
    if cell.init_poisoned {
        return Err(GapError::InitializationPoisoned);
    }
    cell.start(&None)
}

/// Exclusive access to the shared interpreter.
pub struct GlobalGapGuard<'a, K: Kernel> {
    /// The interpreter.
    pub gap: &'a mut Gap<K>,
}

/// Builder for configuring GAP initialization.
///
/// The builder supports choosing a runtime root. It is mainly useful for starting
/// the shared runtime with [`GapBuilder::init_global`] before any code calls
/// [`global`] or [`with_gap`].
#[derive(Debug)]
pub struct GapBuilder {
    root: Option<PosixPath>,
}

impl View for GapBuilder {
    type V = Option<Seq<u8>>;

    /// The root that was chosen.
    closed spec fn view(&self) -> Option<Seq<u8>> {
        match self.root {
            Some(root) => Some(root@),
            None => None,
        }
    }
}

impl Default for GapBuilder {
    fn default() -> (builder: Self)
        ensures
            builder@ is None,
    {
        GapBuilder { root: None }
    }
}

impl Clone for GapBuilder {
    fn clone(&self) -> (copy: Self)
        ensures
            copy@ == self@,
    {
        match &self.root {
            Some(root) => GapBuilder { root: Some(root.clone()) },
            None => GapBuilder { root: None },
        }
    }
}

impl GapBuilder {
    /// Creates a builder that uses the build-time or environment GAP root.
    pub fn new() -> (builder: GapBuilder)
        ensures
            builder@ is None,
    {
        GapBuilder::default()
    }

    /// Sets the GAP root used during runtime initialization.
    ///
    /// `root` must identify a GAP runtime tree containing `lib/init.g`.
    pub fn root(self, root: &PosixPath) -> (builder: GapBuilder)
        ensures
            builder@ == Some(root@),
    {
        GapBuilder { root: Some(root.clone()) }
    }

    /// Initializes the shared GAP runtime.
    ///
    /// This should be called at most once. If it is not called explicitly,
    /// [`global`] and [`with_gap`] lazily initialize the runtime using the default
    /// root. Returns an error if the shared runtime is initialized already.
    pub fn init_global<K: Kernel>(self, cell: &mut GlobalGap<K>) -> (result: Result<(), GapError>)
        requires
            old(cell).wf(),
        ensures
            final(cell).wf(),
            initialized(old(cell)@, final(cell)@, self@, result),
    {
        if cell.init_poisoned {
            return Err(GapError::InitializationPoisoned);
        }
        if cell.gap.is_some() {
            return Err(GapError::AlreadyInitialized);
        }
        cell.start(&self.root)
    }
}

/// Initializes the shared GAP runtime with default settings.
///
/// Calling it is optional; [`global`] and [`with_gap`] will initialize the runtime
/// lazily if needed.
pub fn init_global<K: Kernel>(cell: &mut GlobalGap<K>) -> (result: Result<(), GapError>)
    requires
        old(cell).wf(),
    ensures
        final(cell).wf(),
        initialized(old(cell)@, final(cell)@, None, result),
{
    GapBuilder::new().init_global(cell)
}

/// Returns a handle to the shared GAP runtime.
///
/// The runtime is initialized on first use.
pub fn global<'a, K: Kernel>(cell: &'a mut GlobalGap<K>) -> (result: Result<
    GlobalGapGuard<'a, K>,
    GapError,
>)
    requires
        old(cell).wf(),
    ensures
        final(cell).wf(),
        match result {
            Ok(guard) => {
                &&& given_out(old(cell)@, (*guard.gap)@)
                &&& final(cell)@ == old(cell)@.running((*final(guard.gap))@)
            },
            Err(error) => refused(old(cell)@, final(cell)@, error),
        },
{
    let poisoned: bool = cell.gap.is_some() && cell.runtime_poisoned;
    if poisoned {
        return Err(GapError::RuntimePoisoned);
    }
    match ensure_global(cell) {
        Ok(_) => {},
        Err(error) => return Err(error),
    }
    match &mut cell.gap {
        Some(gap) => Ok(GlobalGapGuard { gap }),
        None => Err(GapError::InitializationPoisoned),
    }
}

/// Runs `f` with mutable access to the shared GAP runtime.
///
/// It propagates both initialization errors and the errors of `f`.
pub fn with_gap<K: Kernel, T, F: FnOnce(&mut Gap<K>) -> Result<T, GapError>>(
    cell: &mut GlobalGap<K>,
    f: F,
) -> (result: Result<T, GapError>)
    requires
        old(cell).wf(),
        forall|gap: &mut Gap<K>|
            given_out(old(cell)@, (*gap)@) ==> #[trigger] f.requires((gap,)),
    ensures
        final(cell).wf(),
        ({
            ||| result matches Err(error) && refused(old(cell)@, final(cell)@, error)
            ||| exists|gap: &mut Gap<K>| #[trigger]
                f.ensures((gap,), result) && given_out(old(cell)@, (*gap)@) && final(cell)@ == old(
                    cell,
                )@.running((*final(gap))@)
        }),
{
    match global(cell) {
        Ok(guard) => f(guard.gap),
        Err(error) => Err(error),
    }
}

/// What evaluating `cmd` in the shared runtime comes to, if that is not refused: the
/// interpreter is given out, and evaluates it.
pub open spec fn evaluated_in(
    before: GlobalView,
    after: GlobalView,
    start: GapView,
    cmd: Seq<char>,
    result: Result<GapValue, GapError>,
) -> bool {
    &&& given_out(before, start)
    &&& after.gap matches Some(gap)
    &&& after == before.running(gap)
    &&& evaluated(start, gap.with_roots(start.roots()), cmd, plain(result))
    &&& gap.roots() == roots_with(start.roots(), result)
}

/// Evaluates GAP source text in the shared runtime.
///
/// Use [`with_gap`] or [`global`] when several operations should share one scope.
pub fn eval<K: Kernel>(cell: &mut GlobalGap<K>, cmd: &str) -> (result: Result<GapValue, GapError>)
    requires
        old(cell).wf(),
        !cmd@.contains('\0'),
    ensures
        final(cell).wf(),
        ({
            ||| result matches Err(error) && refused(old(cell)@, final(cell)@, error)
            ||| exists|start: GapView| #[trigger]
                evaluated_in(old(cell)@, final(cell)@, start, cmd@, result)
        }),
{
    match global(cell) {
        Ok(guard) => {
            let ghost start = (*guard.gap)@;
            let result = guard.gap.eval(cmd);
            assert(evaluated_in(
                old(cell)@,
                after_borrow(cell)@,
                start,
                cmd@,
                result,
            ));
            result
        },
        Err(error) => Err(error),
    }
}

/// Deprecated alias for [`eval`].
pub fn gap_eval<K: Kernel>(cell: &mut GlobalGap<K>, cmd: &str) -> (result: Result<
    GapValue,
    GapError,
>)
    requires
        old(cell).wf(),
        !cmd@.contains('\0'),
    ensures
        final(cell).wf(),
        ({
            ||| result matches Err(error) && refused(old(cell)@, final(cell)@, error)
            ||| exists|start: GapView| #[trigger]
                evaluated_in(old(cell)@, final(cell)@, start, cmd@, result)
        }),
{
    eval(cell, cmd)
}

// --- Laws ---
/// The shared runtime is initialized once: after that, explicit initialization is
/// refused and changes nothing, and making sure of it changes nothing either.
pub proof fn law_initialized_once(
    before: GlobalView,
    started: GlobalView,
    after: GlobalView,
    root: Option<Seq<u8>>,
    other_root: Option<Seq<u8>>,
    result: Result<(), GapError>,
)
    requires
        initialized(before, started, root, Ok(())),
        initialized(started, after, other_root, result),
    ensures
        result == Err::<(), GapError>(GapError::AlreadyInitialized),
        after == started,
        ensured(started, started, Ok(())),
{
}

/// Explicit initialization and initialization on first use come to the same.
pub proof fn law_lazy_initialization(
    before: GlobalView,
    after: GlobalView,
    result: Result<(), GapError>,
)
    requires
        before.gap is None,
    ensures
        ensured(before, after, result) <==> initialized(before, after, None, result),
{
}

/// An attempt to start the runtime that failed leaves it as it was, but for the
/// conversation, so that another attempt can be made; one at a root that is refused
/// leaves the conversation as it was too.
pub proof fn law_failed_start_leaves_runtime(
    before: GlobalView,
    after: GlobalView,
    root: Option<Seq<u8>>,
    error: GapError,
)
    requires
        before.gap is None,
        before.session is Some,
        initialized(before, after, root, Err(error)),
    ensures
        after == (GlobalView { session: after.session, ..before }),
        after.session is Some,
        root_refused(
            before.tree,
            match root {
                Some(root) => root,
                None => before.default_root(),
            },
        ) ==> after == before,
{
}

/// The shared runtime is either given out or refused, never both.
pub proof fn law_given_out_or_refused(
    before: GlobalView,
    after: GlobalView,
    gap: GapView,
    error: GapError,
)
    requires
        before.gap is Some,
    ensures
        !(given_out(before, gap) && refused(before, after, error)),
        before.runtime_poisoned ==> !given_out(before, gap),
        !before.runtime_poisoned ==> !refused(before, after, error),
        given_out(before, gap) ==> before.gap == Some(gap),
{
}

/// The interpreter that a start gives out has nothing rooted, and the start made the
/// calls that start GAP and no others.
pub proof fn law_fresh_runtime(before: GlobalView, gap: GapView)
    requires
        before.gap is None,
        given_out(before, gap),
    ensures
        !before.init_poisoned,
        gap.roots() == Multiset::<GapRef>::empty(),
        ({
            let events = gap.session.since(before.session->0);
            &&& gap.session.continues(before.session->0, events)
            &&& events.len() == 7
            &&& init_calls(root_arg_text(before.tree, before.default_root()), events)
        }),
{
}

/// GAP is started on first use and then never again: a runtime that is given out before
/// it is started makes the starting calls, among which libgap is started once; one that
/// is given out later makes no call. A runtime that is refused is not started then, and
/// libgap is started at most once in the attempt.
pub proof fn law_started_on_first_use(
    before: GlobalView,
    after: GlobalView,
    gap: GapView,
    error: GapError,
)
    requires
        before.gap is None <==> before.session is Some,
    ensures
        given_out(before, gap) && before.gap is None ==> {
            &&& before.running(gap).trace() == before.trace() + gap.session.since(
                before.session->0,
            )
            &&& starts(gap.session.since(before.session->0)) == 1
        },
        given_out(before, gap) && before.gap is Some ==> {
            &&& before.gap == Some(gap)
            &&& before.running(gap).trace() == before.trace()
        },
        refused(before, after, error) ==> {
            &&& after.gap == before.gap
            &&& before.gap is Some ==> after.trace() == before.trace()
            &&& before.gap is None ==> {
                let events = after.session->0.since(before.session->0);
                &&& after.trace() == before.trace() + events
                &&& starts(events) <= 1
            }
        },
{
    if before.gap is None {
        let session = before.session->0;
        if given_out(before, gap) {
            law_start_is_single(
                before.tree,
                before.default_root(),
                session,
                gap.session,
                Ok(gap.handles),
            );
        }
        if refused(before, after, error) {
            if before.init_poisoned {
                assert(after.trace() + session.since(session) =~= after.trace());
                assert(starts(session.since(session)) == 0) by {
                    assert(session.since(session) =~= seq![]);
                }
            } else {
                law_start_is_single(
                    before.tree,
                    before.default_root(),
                    session,
                    after.session->0,
                    Err(error),
                );
            }
        }
    }
}


/// The root at which the shared runtime is started: the one that was chosen, else the
/// environment's, else the one that was found at build time.
pub open spec fn root_in_use(before: GlobalView, chosen: Option<Seq<u8>>) -> Seq<u8> {
    if chosen is Some {
        chosen->0
    } else if before.env_root is Some {
        before.env_root->0
    } else {
        before.build_root
    }
}

/// Whether the shared runtime went through a start at `root` with the given result: the
/// interpreter is there afterwards, and is not poisoned; or the conversation goes on
/// without it. Nothing else changes.
pub open spec fn start_went(
    before: GlobalView,
    after: GlobalView,
    root: Seq<u8>,
    result: Result<(), GapError>,
) -> bool {
    &&& after.init_poisoned == before.init_poisoned
    &&& after.env_root == before.env_root
    &&& after.build_root == before.build_root
    &&& after.tree == before.tree
    &&& match result {
        Ok(_) => {
            &&& after.gap is Some
            &&& after.session is None
            &&& !after.runtime_poisoned
            &&& start_outcome(
                before.tree,
                root,
                before.session->0,
                after.gap->0.session,
                Ok(after.gap->0.handles),
            )
        },
        Err(error) => {
            &&& after.gap == before.gap
            &&& after.session is Some
            &&& after.runtime_poisoned == before.runtime_poisoned
            &&& start_outcome(
                before.tree,
                root,
                before.session->0,
                after.session->0,
                Err(error),
            )
        },
    }
}

/// Starting the shared runtime explicitly is refused if a thread panicked while starting
/// it, and then if it is running; otherwise it is started at the root in use.
pub proof fn law_explicit_start_decides(
    before: GlobalView,
    after: GlobalView,
    chosen: Option<Seq<u8>>,
    result: Result<(), GapError>,
)
    requires
        initialized(before, after, chosen, result),
    ensures
        before.init_poisoned ==> after == before && result == Err::<(), GapError>(
            GapError::InitializationPoisoned,
        ),
        !before.init_poisoned && before.gap is Some ==> after == before && result == Err::<
            (),
            GapError,
        >(GapError::AlreadyInitialized),
        !before.init_poisoned && before.gap is None ==> start_went(
            before,
            after,
            root_in_use(before, chosen),
            result,
        ),
{
}

/// Making sure of the shared runtime does nothing if it is running; is refused if a thread
/// panicked while starting it; and otherwise starts it at the default root.
pub proof fn law_first_use_decides(
    before: GlobalView,
    after: GlobalView,
    result: Result<(), GapError>,
)
    requires
        ensured(before, after, result),
    ensures
        before.gap is Some ==> after == before && result is Ok,
        before.gap is None && before.init_poisoned ==> after == before && result == Err::<
            (),
            GapError,
        >(GapError::InitializationPoisoned),
        before.gap is None && !before.init_poisoned ==> start_went(
            before,
            after,
            root_in_use(before, None),
            result,
        ),
{
}

/// The shared runtime is given out as it is, if it is running and no thread panicked while
/// using it; or as a start at the default root leaves it. It is refused otherwise.
pub proof fn law_use_decides(before: GlobalView, after: GlobalView, gap: GapView, error: GapError)
    ensures
        before.gap is Some && !before.runtime_poisoned && before.session is None ==> (given_out(
            before,
            gap,
        ) <==> before.gap == Some(gap)),
        before.gap is Some && before.runtime_poisoned ==> !given_out(before, gap) && (refused(
            before,
            after,
            error,
        ) <==> after == before && error == GapError::RuntimePoisoned),
        before.gap is None && before.init_poisoned ==> !given_out(before, gap) && (refused(
            before,
            after,
            error,
        ) <==> after == before && error == GapError::InitializationPoisoned),
        before.gap is None && !before.init_poisoned && given_out(before, gap) ==> start_outcome(
            before.tree,
            root_in_use(before, None),
            before.session->0,
            gap.session,
            Ok(gap.handles),
        ),
        before.gap is None && !before.init_poisoned && refused(before, after, error) ==> start_went(
            before,
            after,
            root_in_use(before, None),
            Err(error),
        ),
{
}

/// Evaluating in the shared runtime evaluates the command in the interpreter that is given
/// out, roots the value there, and changes nothing else.
pub proof fn law_shared_evaluation(
    before: GlobalView,
    after: GlobalView,
    start: GapView,
    cmd: Seq<char>,
    result: Result<GapValue, GapError>,
)
    requires
        evaluated_in(before, after, start, cmd, result),
    ensures
        given_out(before, start),
        before.gap is Some ==> before.gap == Some(start) && !before.runtime_poisoned,
        after.gap is Some,
        after.session is None,
        after.init_poisoned == before.init_poisoned,
        after.env_root == before.env_root,
        after.build_root == before.build_root,
        after.tree == before.tree,
        ({
            let gap = after.gap->0;
            &&& evaluated(start, gap.with_roots(start.session.roots), cmd, plain(result))
            &&& gap.session.roots == (match result {
                Ok(value) => start.session.roots.insert(value@),
                Err(_) => start.session.roots,
            })
        }),
{
}

}
