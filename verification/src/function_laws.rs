//! What the library's functions give back, whatever they were handed.

use crate::discovery_spec::{
    config_at, discovery, has_headers, holds_libgap, init_file, is_libgap_name, looks_like_path,
    path_entries, root_in_output, ConfigView, OutcomeView, StepView,
};
use crate::error::GapError;
use crate::gap::method_laws::{bare, lemma_reads_text, owns, reads_text};
use crate::gap::operation_laws::{law_refused_start_says_nothing, law_start_call_by_call};
use crate::gap::{init_outcome, plain, start_outcome, Gap, GapView, Handles, Host, InitFailure};
use crate::gap_config::{
    contains_libgap, discover_gap_config, find_header_layout, gap_root_candidates, has_init_file,
    infer_include_dirs, infer_lib_dirs, nonempty_path, parse_gap_root_line, parse_path_list,
    query_gap_root, resolve_gap_root, CommandOutcome, DiscoveryEnv, GapCommand, GapConfig, Step,
};
use crate::global::{
    eval, evaluated_in, gap_eval, init_global, initialized, law_explicit_start_decides,
    law_shared_evaluation, refused, root_in_use, GapBuilder, GlobalGap, GlobalView,
};
use crate::handle::{
    all_hex, hex_places, hex_str_to_ptr, law_address_as_text, law_address_of_digits,
    law_address_round_trip, law_hex_prefix_does_not_count, AddressError, GapRef, Obj,
};
use crate::header::{
    law_header_has_three_pieces, law_shims_defined_once, stands_at, stands_once, wrapper_header,
    HeaderLayout, CALLBACK_TYPE_SHIM, CALL_FUNCTION_SHIM, CLOSE_OUTPUT_SHIM, ENTER_AND_LEAVE_SHIM,
    HEADER_BOTTOM, HEADER_TOP, INITIALIZE_SHIM, MARK_BAG_SHIM, OPEN_OUTPUT_STREAM_SHIM,
    OUTPUT_STREAM_SHIM,
};
use crate::kernel::{Answer, Call, Kernel};
use crate::path::{joined, parts, push_unique, same_path, PosixPath};
use crate::path_laws::{
    law_below_is_join, law_join_bytes, law_parent_drops_part, law_parent_is_prefix,
    law_tree_lookup, law_with_path_adds_once,
};
use crate::query_laws::{
    header_places, law_colon_separates_lists, law_commands_run_executable,
    law_directory_with_libgap, law_header_directories_are_places, law_layout_of_directories,
    law_library_directories_are_places, law_path_is_whole_line, law_query_gives_printed_root,
    law_query_runs_executable, library_places, printed_root, unprompted,
};
use crate::root_list_laws::{
    core_places, ended_with_semicolons, law_core_candidates_are_near,
    law_resolution_tries_candidates, law_root_argument_lists_roots,
    law_root_list_is_root_and_useful_roots, law_split_candidates_are_near, law_what_makes_a_root,
    split_places, useful_roots, without_repeats,
};
use crate::roots::GapValue;
use crate::runtime_roots::{
    default_gap_root, gap_root_arg, inferred_runtime_roots, is_gap_runtime_root, push_unique_path,
    root_arg_text, root_list, validate_gap_root,
};
use crate::session::{Session, SessionView};
use crate::text::text_of;
use crate::tree::{Tree, TreeView};
use vstd::multiset::Multiset;
use vstd::prelude::*;
use vstd::utf8::{decode_utf8, encode_utf8, valid_utf8};

verus! {

/// The bytes of each path.
pub open spec fn bytes_of(list: Seq<PosixPath>) -> Seq<Seq<u8>> {
    Seq::new(list.len(), |i: int| list[i].bytes@)
}

/// Where `lib/init.g` would be below a root.
pub open spec fn init_below(root: Seq<u8>) -> Seq<u8> {
    joined(joined(root, encode_utf8("lib"@)), encode_utf8("init.g"@))
}

// --- Run-time roots ---
/// The roots that are inferred are `lib/gap` and `share/gap` below the root and below three
/// directories above it, as far as each has a parent, none twice.
pub proof fn law_inferred_roots(root: PosixPath, roots: Vec<PosixPath>)
    requires
        call_ensures(inferred_runtime_roots, (&root,), roots),
    ensures
        bytes_of(roots@) == without_repeats(split_places(root.bytes@, 4)),
{
    assert(bytes_of(roots@) =~= roots.deep_view());
    law_split_candidates_are_near(root@);
}

/// The root argument is the root and every inferred root with `lib/init.g` or `pkg` below
/// it, none twice, with a semicolon after each.
pub proof fn law_root_argument(root: PosixPath, tree: Tree, arg: String)
    requires
        call_ensures(gap_root_arg, (&root, &tree), arg),
    ensures
        arg@ == roots_with_semicolons(tree@, root.bytes@),
{
    lemma_root_argument(tree@, root@);
}

/// The texts of a root and of every root inferred from it with `lib/init.g` or `pkg` below
/// it, none twice, with a semicolon after each.
pub open spec fn roots_with_semicolons(tree: TreeView, root: Seq<u8>) -> Seq<char> {
    let inferred = without_repeats(split_places(root, 4));
    let roots = without_repeats(seq![root] + useful_roots(tree, inferred));
    ended_with_semicolons(Seq::new(roots.len(), |i: int| text_of(roots[i])))
}

proof fn lemma_root_argument(tree: TreeView, root: Seq<u8>)
    ensures
        root_arg_text(tree, root) == roots_with_semicolons(tree, root),
{
    law_root_argument_lists_roots(tree, root);
    law_root_list_is_root_and_useful_roots(tree, root);
    law_split_candidates_are_near(root);
    let inferred = without_repeats(split_places(root, 4));
    let roots = without_repeats(seq![root] + useful_roots(tree, inferred));
    assert(Seq::new(roots.len(), |i: int| text_of(roots[i])) =~= Seq::new(
        root_list(tree, root).len(),
        |i: int| text_of(root_list(tree, root)[i]),
    ));
}

/// A root is valid if `lib/init.g` is a file below it, and is named in the error otherwise.
pub proof fn law_validation(root: PosixPath, tree: Tree, result: Result<(), GapError>)
    requires
        call_ensures(validate_gap_root, (&root, &tree), result),
    ensures
        tree@.is_file(init_below(root.bytes@)) <==> result is Ok,
        !tree@.is_file(init_below(root.bytes@)) ==> (result matches Err(GapError::InvalidRoot(p))
            && p.bytes@ == root.bytes@),
{
    law_what_makes_a_root(tree@, root@);
}

/// What tells a root, and a root that is useful at run time.
pub proof fn law_root_tests(root: PosixPath, tree: Tree, b: bool)
    ensures
        call_ensures(has_init_file, (&tree, &root), b) ==> (b <==> tree@.is_file(
            init_below(root.bytes@),
        )),
        call_ensures(is_gap_runtime_root, (&root, &tree), b) ==> (b <==> tree@.is_file(
            init_below(root.bytes@),
        ) || tree@.is_dir(joined(root.bytes@, encode_utf8("pkg"@)))),
{
    law_what_makes_a_root(tree@, root@);
}

/// The default root is the environment's, even an empty one, or else the one from build
/// time.
pub proof fn law_default_root_function(
    env_root: Option<PosixPath>,
    build_root: PosixPath,
    root: PosixPath,
)
    requires
        call_ensures(default_gap_root, (&env_root, &build_root), root),
    ensures
        env_root matches Some(p) ==> root.bytes@ == p.bytes@,
        env_root is None ==> root.bytes@ == build_root.bytes@,
{
}

// --- Candidates for the root ---
/// The candidates are the root and then `libexec`, `share/gap` and `lib/gap` below it and
/// below three directories above it, none twice.
pub proof fn law_root_candidates(root: PosixPath, candidates: Vec<PosixPath>)
    requires
        call_ensures(gap_root_candidates, (&root,), candidates),
    ensures
        bytes_of(candidates@) == without_repeats(seq![root.bytes@] + core_places(root.bytes@, 4)),
{
    assert(bytes_of(candidates@) =~= candidates.deep_view());
    law_core_candidates_are_near(root@);
}

/// A root is resolved to the first candidate with `lib/init.g` below it, and to an error
/// if none has it.
pub proof fn law_root_resolution(root: PosixPath, tree: Tree, result: Result<PosixPath, String>)
    requires
        call_ensures(resolve_gap_root, (&root, &tree), result),
    ensures
        ({
            let all = without_repeats(seq![root.bytes@] + core_places(root.bytes@, 4));
            match result {
                Ok(found) => exists|i: int|
                    0 <= i < all.len() && #[trigger] all[i] == found.bytes@ && tree@.is_file(
                        init_below(all[i]),
                    ) && forall|j: int|
                        0 <= j < i ==> !tree@.is_file(init_below(#[trigger] all[j])),
                Err(_) => forall|j: int|
                    0 <= j < all.len() ==> !tree@.is_file(init_below(#[trigger] all[j])),
            }
        }),
{
    let all = without_repeats(seq![root.bytes@] + core_places(root.bytes@, 4));
    law_core_candidates_are_near(root@);
    law_resolution_tries_candidates(tree@, root@);
    assert forall|j: int| 0 <= j < all.len() implies init_file(
        #[trigger] all[j],
    ) == init_below(all[j]) by {
        law_what_makes_a_root(tree@, all[j]);
    }
}

// --- Discovery ---
/// The program and the arguments of a command that asks GAP for its root, after `count`
/// commands before it.
pub open spec fn asks_for_root(env: DiscoveryEnv, count: int, command: GapCommand) -> bool {
    let args = command.args@;
    &&& command.program.bytes@ == (match env.gap_bin {
        Some(bin) if bin.bytes@.len() > 0 => bin.bytes@,
        _ => encode_utf8("gap"@),
    })
    &&& count == 0 || count == 1
    &&& count == 0 ==> args.len() == 1 && args[0]@ == "--print-gaproot"@
    &&& count == 1 ==> args.len() == 3 && args[0]@ == "-q"@ && args[1]@ == "-c"@ && args[2]@
        == "for p in GAPInfo.RootPaths do if IsExistingFile(Concatenation(p,\"lib/init.g\")) then Print(p,\"\\n\"); fi; od; QUIT;"@
}

proof fn lemma_command_args(command: GapCommand)
    ensures
        command.deep_view().program == command.program.bytes@,
        command.deep_view().args.len() == command.args@.len(),
        forall|i: int|
            0 <= i < command.args@.len() ==> #[trigger] command.deep_view().args[i]
                == command.args@[i]@,
{
}

/// Every command of the root query runs the executable from the environment, or `gap`; and
/// the root that it ends with is one that a command that succeeded printed.
pub proof fn law_root_query(
    env: DiscoveryEnv,
    outcomes: Vec<CommandOutcome>,
    tree: Tree,
    step: Step<PosixPath>,
)
    requires
        call_ensures(query_gap_root, (&env, &outcomes, &tree), step),
    ensures
        step matches Step::Run(command) ==> asks_for_root(env, outcomes@.len() as int, command),
        step matches Step::Finished(Ok(root)) ==> outcomes@.len() > 0 && exists|i: int|
            0 <= i < outcomes@.len() && i < 2 && prints_root(
                #[trigger] outcomes@[i],
                tree,
                root.bytes@,
            ),
{
    match step {
        Step::Run(command) => {
            let seen = outcomes.deep_view();
            lemma_command_args(command);
            law_query_runs_executable(env.deep_view(), seen, tree@, command.deep_view());
        },
        Step::Finished(Ok(root)) => {
            let seen = outcomes.deep_view();
            law_query_gives_printed_root(env.deep_view(), seen, tree@, root@);
            if printed_root(seen[0], tree@) == Some(root@) {
                assert(prints_root(outcomes@[0], tree, root.bytes@));
            } else {
                assert(prints_root(outcomes@[1], tree, root.bytes@));
            }
        },
        Step::Finished(Err(_)) => {},
    }
}

/// Whether a command succeeded and `root` is what is taken from its output.
pub open spec fn prints_root(outcome: CommandOutcome, tree: Tree, root: Seq<u8>) -> bool {
    outcome matches CommandOutcome::Exited { success, status: _, stdout } && success
        && root_in_output(tree@, stdout@) == Some(root)
}

/// Every command of discovery runs the executable from the environment, or `gap`, and only
/// if no root is set. A configuration has a root with `lib/init.g`, directories from the
/// environment where they are set, headers and a libgap.
pub proof fn law_discovery(
    env: DiscoveryEnv,
    outcomes: Vec<CommandOutcome>,
    tree: Tree,
    step: Step<GapConfig>,
)
    requires
        call_ensures(discover_gap_config, (&env, &outcomes, &tree), step),
    ensures
        step matches Step::Run(command) ==> asks_for_root(env, outcomes@.len() as int, command)
            && (env.root matches Some(root) ==> root.bytes@.len() == 0),
        step matches Step::Finished(Ok(config)) ==> {
            &&& tree@.is_file(init_below(config.root.bytes@))
            &&& env.include_dirs matches Some(list) ==> bytes_of(config.include_dirs@)
                == path_entries(list@, env.list_separator)
            &&& env.include_dirs is None ==> bytes_of(config.include_dirs@) == without_repeats(
                header_places(tree@, config.root.bytes@),
            )
            &&& env.lib_dirs matches Some(list) ==> bytes_of(config.lib_dirs@) == path_entries(
                list@,
                env.list_separator,
            )
            &&& env.lib_dirs is None ==> bytes_of(config.lib_dirs@) == without_repeats(
                library_places(tree@, config.root.bytes@),
            )
            &&& exists|i: int|
                0 <= i < config.lib_dirs@.len() && holds_libgap(
                    tree@,
                    (#[trigger] config.lib_dirs@[i]).bytes@,
                )
            &&& exists|i: int|
                0 <= i < config.include_dirs@.len() && has_headers(
                    tree@,
                    match config.header_layout {
                        HeaderLayout::IncludeSubdir => joined(
                            (#[trigger] config.include_dirs@[i]).bytes@,
                            encode_utf8("gap"@),
                        ),
                        HeaderLayout::Direct => config.include_dirs@[i].bytes@,
                    },
                )
        },
{
    let seen = outcomes.deep_view();
    match step {
        Step::Run(command) => {
            lemma_command_args(command);
            law_commands_run_executable(env.deep_view(), seen, tree@, command.deep_view());
        },
        Step::Finished(Ok(config)) => {
            lemma_configuration(env, seen, tree, config);
        },
        Step::Finished(Err(_)) => {},
    }
}

#[verifier::spinoff_prover]
proof fn lemma_configuration(
    env: DiscoveryEnv,
    seen: Seq<OutcomeView>,
    tree: Tree,
    config: GapConfig,
)
    requires
        discovery(env.deep_view(), seen, tree@) == StepView::Finished(
            Ok::<ConfigView, Seq<char>>(config.deep_view()),
        ),
    ensures
        tree@.is_file(init_below(config.root.bytes@)),
        env.include_dirs matches Some(list) ==> bytes_of(config.include_dirs@) == path_entries(
            list@,
            env.list_separator,
        ),
        env.include_dirs is None ==> bytes_of(config.include_dirs@) == without_repeats(
            header_places(tree@, config.root.bytes@),
        ),
        env.lib_dirs matches Some(list) ==> bytes_of(config.lib_dirs@) == path_entries(
            list@,
            env.list_separator,
        ),
        env.lib_dirs is None ==> bytes_of(config.lib_dirs@) == without_repeats(
            library_places(tree@, config.root.bytes@),
        ),
        exists|i: int|
            0 <= i < config.lib_dirs@.len() && holds_libgap(
                tree@,
                (#[trigger] config.lib_dirs@[i]).bytes@,
            ),
        exists|i: int|
            0 <= i < config.include_dirs@.len() && has_headers(
                tree@,
                match config.header_layout {
                    HeaderLayout::IncludeSubdir => joined(
                        (#[trigger] config.include_dirs@[i]).bytes@,
                        encode_utf8("gap"@),
                    ),
                    HeaderLayout::Direct => config.include_dirs@[i].bytes@,
                },
            ),
{
    let view = env.deep_view();
    let root = choose|root: Seq<u8>|
        #[trigger] config_at(view, tree@, root) == Ok::<ConfigView, Seq<char>>(config.deep_view());
    assert(config_at(view, tree@, root) == Ok::<ConfigView, Seq<char>>(config.deep_view()));
    let dirs = config.include_dirs.deep_view();
    let libs = config.lib_dirs.deep_view();
    assert(bytes_of(config.include_dirs@) =~= dirs);
    assert(bytes_of(config.lib_dirs@) =~= libs);
    law_resolution_tries_candidates(tree@, root);
    law_what_makes_a_root(tree@, config.root@);
    law_header_directories_are_places(tree@, config.root@);
    law_library_directories_are_places(tree@, config.root@);
    law_layout_of_directories(tree@, dirs);
    let i = choose|i: int| 0 <= i < libs.len() && holds_libgap(tree@, #[trigger] libs[i]);
    assert(config.lib_dirs@[i].bytes@ == libs[i]);
    match config.header_layout {
        HeaderLayout::IncludeSubdir => {
            let j = choose|j: int|
                0 <= j < dirs.len() && has_headers(
                    tree@,
                    joined(#[trigger] dirs[j], encode_utf8("gap"@)),
                );
            assert(config.include_dirs@[j].bytes@ == dirs[j]);
        },
        HeaderLayout::Direct => {
            let j = choose|j: int| 0 <= j < dirs.len() && has_headers(tree@, #[trigger] dirs[j]);
            assert(config.include_dirs@[j].bytes@ == dirs[j]);
        },
    }
}

/// The directories that go with a root are the places around it that hold what is wanted,
/// none twice.
pub proof fn law_directories_around_root(root: PosixPath, tree: Tree, dirs: Vec<PosixPath>)
    ensures
        call_ensures(infer_include_dirs, (&root, &tree), dirs) ==> bytes_of(dirs@)
            == without_repeats(header_places(tree@, root.bytes@)),
        call_ensures(infer_lib_dirs, (&root, &tree), dirs) ==> bytes_of(dirs@)
            == without_repeats(library_places(tree@, root.bytes@)),
{
    assert(bytes_of(dirs@) =~= dirs.deep_view());
    law_header_directories_are_places(tree@, root@);
    law_library_directories_are_places(tree@, root@);
}

/// A line gives the whole of what stands on it, without white space around it and without
/// a prompt, if that looks like a path.
pub proof fn law_printed_line(line: &str, path: Option<PosixPath>)
    requires
        call_ensures(parse_gap_root_line, (line,), path),
    ensures
        path matches Some(p) ==> p.bytes@ == encode_utf8(unprompted(line@)),
        path is Some <==> unprompted(line@).len() > 0 && looks_like_path(unprompted(line@)),
{
    law_path_is_whole_line(line@);
}

/// An empty path counts as none, and any other is kept.
pub proof fn law_nonempty_path(path: Option<PosixPath>, result: Option<PosixPath>)
    requires
        call_ensures(nonempty_path, (&path,), result),
    ensures
        result is Some <==> (path matches Some(p) && p.bytes@.len() > 0),
        result matches Some(p) ==> path is Some && p.bytes@ == path->0.bytes@,
{
}

// --- The wrapper header ---
/// The wrapper header is its top, the lines for its layout and its bottom, and holds every
/// shim once.
pub proof fn law_wrapper_header(layout: HeaderLayout, text: String)
    requires
        call_ensures(wrapper_header, (&layout,), text),
    ensures
        ({
            let lines = match layout {
                HeaderLayout::IncludeSubdir =>
                    "#include <gap/libgap-api.h>\n#include <gap/gap_all.h>"@,
                HeaderLayout::Direct => "#include \"libgap-api.h\"\n#include \"gap_all.h\""@,
            };
            let top = HEADER_TOP@.len() as int;
            &&& text@.len() == top + lines.len() + HEADER_BOTTOM@.len()
            &&& stands_at(text@, HEADER_TOP@, 0)
            &&& stands_at(text@, lines, top)
            &&& stands_at(text@, HEADER_BOTTOM@, top + lines.len())
        }),
        stands_once(text@, CALLBACK_TYPE_SHIM@),
        stands_once(text@, INITIALIZE_SHIM@),
        stands_once(text@, ENTER_AND_LEAVE_SHIM@),
        stands_once(text@, OUTPUT_STREAM_SHIM@),
        stands_once(text@, OPEN_OUTPUT_STREAM_SHIM@),
        stands_once(text@, CLOSE_OUTPUT_SHIM@),
        stands_once(text@, CALL_FUNCTION_SHIM@),
        stands_once(text@, MARK_BAG_SHIM@),
{
    law_header_has_three_pieces(layout);
    law_shims_defined_once(layout);
}

// --- Addresses ---
/// An address is written as `0x` and hexadecimal digits that stand for it, and reading
/// that text gives the address back.
pub proof fn law_written_address(
    reference: GapRef,
    text: String,
    read: &str,
    result: Result<GapRef, AddressError>,
    obj: Result<Obj, AddressError>,
)
    requires
        call_ensures(GapRef::to_address, (&reference,), text),
        read@ == text@,
    ensures
        text@.len() > 2,
        text@[0] == '0' && text@[1] == 'x',
        all_hex(text@.skip(2)),
        hex_places(text@.skip(2)) == reference.obj,
        call_ensures(GapRef::from_address, (read,), result) ==> result == Ok::<
            GapRef,
            AddressError,
        >(reference),
        call_ensures(hex_str_to_ptr, (read,), obj) ==> obj == Ok::<Obj, AddressError>(
            reference.obj,
        ),
{
    law_address_as_text(reference.obj);
    law_address_round_trip(reference.obj);
}

/// Hexadecimal digits, with `0x` before them or not, are read as the number that they
/// stand for, or as an overflow if it is too large.
pub proof fn law_read_address(text: &str, digits: Seq<char>, result: Result<Obj, AddressError>)
    requires
        call_ensures(hex_str_to_ptr, (text,), result),
        digits.len() > 0,
        all_hex(digits),
        text@ == digits || text@ == seq!['0', 'x'] + digits,
    ensures
        hex_places(digits) <= usize::MAX ==> (result matches Ok(obj) && obj == hex_places(digits)),
        hex_places(digits) > usize::MAX ==> result == Err::<Obj, AddressError>(
            AddressError::Overflow,
        ),
{
    law_address_of_digits(digits);
    law_hex_prefix_does_not_count(digits);
}

// --- Files and paths ---
/// A name is added below a path with one separator between them; a path that is empty
/// gives the name alone, and so does a name that starts at the top.
pub proof fn law_path_join(path: PosixPath, name: &str, bytes: &[u8], result: PosixPath)
    ensures
        call_ensures(PosixPath::join, (&path, name), result) ==> joins(
            path.bytes@,
            encode_utf8(name@),
            result.bytes@,
        ),
        call_ensures(PosixPath::join_bytes, (&path, bytes), result) ==> joins(
            path.bytes@,
            bytes@,
            result.bytes@,
        ),
{
    law_below_is_join(path@, name);
    lemma_joins(path@, encode_utf8(name@));
    lemma_joins(path@, bytes@);
}

/// Whether `whole` is `name` below `path`, byte for byte.
pub open spec fn joins(path: Seq<u8>, name: Seq<u8>, whole: Seq<u8>) -> bool {
    whole == (if path.len() == 0 || (name.len() > 0 && name[0] == 47) {
        name
    } else if path[path.len() - 1] == 47 {
        path + name
    } else {
        path + seq![47u8] + name
    })
}

proof fn lemma_joins(path: Seq<u8>, name: Seq<u8>)
    ensures
        joins(path, name, joined(path, name)),
{
    law_join_bytes(path, name);
    let whole = joined(path, name);
    if path.len() == 0 || (name.len() > 0 && name[0] == 47) {
    } else if path[path.len() - 1] == 47 {
        assert(whole =~= path + name);
    } else {
        assert(whole =~= path + seq![47u8] + name);
    }
}

/// The parent of a path with names added below it, one at a time, is the path without the
/// last name; only a path without names has no parent.
pub proof fn law_path_parent(path: PosixPath, result: Option<PosixPath>)
    requires
        call_ensures(PosixPath::parent, (&path,), result),
    ensures
        result is Some <==> parts(path.bytes@).len() > 0,
        result matches Some(above) ==> parts(above.bytes@) == parts(path.bytes@).drop_last()
            && (above.bytes@.len() > 0 && above.bytes@[0] == 47) == (path.bytes@.len() > 0
            && path.bytes@[0] == 47),
        result matches Some(above) ==> above.bytes@.is_prefix_of(path.bytes@),
{
    law_parent_drops_part(path@);
    law_parent_is_prefix(path@);
    if let Some(above) = result {
        assert(above@ =~= path@.take(above@.len() as int));
    }
}

/// Files and directories are found by their path, however it is spelled.
pub proof fn law_tree_functions(tree: Tree, path: PosixPath, b: bool)
    ensures
        call_ensures(Tree::is_file, (&tree, &path), b) ==> (b <==> exists|i: int|
            0 <= i < tree.files@.len() && same_path(
                (#[trigger] tree.files@[i]).bytes@,
                path.bytes@,
            )),
        call_ensures(Tree::is_dir, (&tree, &path), b) ==> (b <==> exists|i: int|
            0 <= i < tree.directories@.len() && same_path(
                (#[trigger] tree.directories@[i]).path.bytes@,
                path.bytes@,
            )),
{
    law_tree_lookup(tree@, path@);
    let files = tree@.files;
    let directories = tree@.directories;
    assert forall|i: int| 0 <= i < files.len() implies #[trigger] files[i]
        == tree.files@[i].bytes@ by {}
    assert forall|i: int| 0 <= i < directories.len() implies (#[trigger] directories[i]).path
        == tree.directories@[i].path.bytes@ by {}
    if tree@.is_file(path@) {
        let i = choose|i: int| 0 <= i < files.len() && same_path(#[trigger] files[i], path@);
        assert(same_path(tree.files@[i].bytes@, path.bytes@));
    }
    if exists|i: int|
        0 <= i < tree.files@.len() && same_path((#[trigger] tree.files@[i]).bytes@, path.bytes@) {
        let i = choose|i: int|
            0 <= i < tree.files@.len() && same_path(
                (#[trigger] tree.files@[i]).bytes@,
                path.bytes@,
            );
        assert(same_path(files[i], path@));
    }
    if tree@.is_dir(path@) {
        let i = choose|i: int|
            0 <= i < directories.len() && same_path((#[trigger] directories[i]).path, path@);
        assert(same_path(tree.directories@[i].path.bytes@, path.bytes@));
    }
    if exists|i: int|
        0 <= i < tree.directories@.len() && same_path(
            (#[trigger] tree.directories@[i]).path.bytes@,
            path.bytes@,
        ) {
        let i = choose|i: int|
            0 <= i < tree.directories@.len() && same_path(
                (#[trigger] tree.directories@[i]).path.bytes@,
                path.bytes@,
            );
        assert(same_path(directories[i].path, path@));
    }
}

/// A path is added to the end of a list unless the list has it already.
pub proof fn law_unique_paths(path: PosixPath)
    ensures
        forall|paths: &mut Vec<PosixPath>| #[trigger]
            call_ensures(push_unique, (paths, path), ()) ==> adds_once(
                bytes_of((*paths)@),
                bytes_of((*final(paths))@),
                path.bytes@,
            ),
        forall|paths: &mut Vec<PosixPath>| #[trigger]
            call_ensures(push_unique_path, (paths, path), ()) ==> adds_once(
                bytes_of((*paths)@),
                bytes_of((*final(paths))@),
                path.bytes@,
            ),
{
    assert forall|paths: &mut Vec<PosixPath>| #[trigger]
        call_ensures(push_unique, (paths, path), ()) implies adds_once(
        bytes_of((*paths)@),
        bytes_of((*final(paths))@),
        path.bytes@,
    ) by {
        assert(bytes_of((*paths)@) =~= (*paths).deep_view());
        assert(bytes_of((*final(paths))@) =~= (*final(paths)).deep_view());
        law_with_path_adds_once((*paths).deep_view(), path@);
    }
    assert forall|paths: &mut Vec<PosixPath>| #[trigger]
        call_ensures(push_unique_path, (paths, path), ()) implies adds_once(
        bytes_of((*paths)@),
        bytes_of((*final(paths))@),
        path.bytes@,
    ) by {
        assert(bytes_of((*paths)@) =~= (*paths).deep_view());
        assert(bytes_of((*final(paths))@) =~= (*final(paths)).deep_view());
        law_with_path_adds_once((*paths).deep_view(), path@);
    }
}

/// Whether `after` is `before` with `path` at the end, or `before` itself if that has it.
pub open spec fn adds_once(before: Seq<Seq<u8>>, after: Seq<Seq<u8>>, path: Seq<u8>) -> bool {
    after == (if exists|i: int| 0 <= i < before.len() && same_path(#[trigger] before[i], path) {
        before
    } else {
        before.push(path)
    })
}

/// A list of paths is split at every colon, and empty entries are left out.
pub proof fn law_path_list(
    first: &[u8],
    second: &[u8],
    both: &[u8],
    first_list: Vec<PosixPath>,
    second_list: Vec<PosixPath>,
    both_list: Vec<PosixPath>,
)
    requires
        both@ == first@ + seq![58u8] + second@,
        call_ensures(parse_path_list, (first, 58), first_list),
        call_ensures(parse_path_list, (second, 58), second_list),
        call_ensures(parse_path_list, (both, 58), both_list),
    ensures
        bytes_of(both_list@) == bytes_of(first_list@) + bytes_of(second_list@),
        first@.len() == 0 ==> first_list@.len() == 0,
        first@.len() > 0 && !first@.contains(58) ==> bytes_of(first_list@) == seq![first@],
{
    law_colon_separates_lists(first@, second@);
    assert(both@ =~= first@.push(58) + second@);
    assert(bytes_of(first_list@) =~= first_list.deep_view());
    assert(bytes_of(second_list@) =~= second_list.deep_view());
    assert(bytes_of(both_list@) =~= both_list.deep_view());
}

/// A directory holds libgap if one of the names in it is a name of libgap.
pub proof fn law_libgap_in_directory(dir: PosixPath, tree: Tree, b: bool)
    requires
        call_ensures(contains_libgap, (&dir, &tree), b),
    ensures
        b <==> (tree@.listing(dir.bytes@) matches Some(names) && exists|i: int|
            0 <= i < names.len() && valid_utf8(#[trigger] names[i]) && is_libgap_name(
                decode_utf8(names[i]),
            )),
{
    law_directory_with_libgap(tree@, dir@);
}

/// The installed layout wins over the direct one, wherever in the list it is found.
pub proof fn law_header_layout(dirs: Vec<PosixPath>, tree: Tree, layout: Option<HeaderLayout>)
    requires
        call_ensures(find_header_layout, (&dirs, &tree), layout),
    ensures
        ({
            let all = bytes_of(dirs@);
            let installed = exists|i: int|
                0 <= i < all.len() && has_headers(
                    tree@,
                    joined(#[trigger] all[i], encode_utf8("gap"@)),
                );
            let direct = exists|i: int| 0 <= i < all.len() && has_headers(tree@, #[trigger] all[i]);
            layout == (if installed {
                Some(HeaderLayout::IncludeSubdir)
            } else if direct {
                Some(HeaderLayout::Direct)
            } else {
                None
            })
        }),
{
    assert(bytes_of(dirs@) =~= dirs.deep_view());
    law_layout_of_directories(tree@, dirs.deep_view());
}

// --- Starting GAP ---
/// Whether a start at `root` took the conversation from `before` to `after` and ended with
/// the error, if there is one. Nothing is said to libgap without `lib/init.g` below the
/// root or with a NUL in the root argument. Otherwise libgap is handed its eight arguments,
/// the root argument third, and all seven calls are made if it reports no error during the
/// first and opens the output stream.
pub open spec fn starts_at(
    tree: TreeView,
    root: Seq<u8>,
    before: SessionView,
    after: SessionView,
    error: Option<GapError>,
) -> bool {
    let n = before.trace.len() as int;
    let t = after.trace;
    let arg = roots_with_semicolons(tree, root);
    if !tree.is_file(init_below(root)) {
        after == before && (error matches Some(GapError::InvalidRoot(named)) && named.bytes@
            == root)
    } else if arg.contains('\0') {
        after == before && error == Some(GapError::NulInRoot)
    } else {
        &&& forall|i: int| 0 <= i < n ==> #[trigger] t[i] == before.trace[i]
        &&& after.roots == Multiset::<GapRef>::empty()
        &&& t[n].call matches Call::Initialize { argv } && argv == seq![
            "gap"@,
            "-l"@,
            arg,
            "-q"@,
            "-E"@,
            "--nointeract"@,
            "-x"@,
            "4096"@,
        ]
        &&& if t[n].raised {
            t.len() == n + 1 && error == Some(GapError::InitializationReported)
        } else if t[n + 4].answer != Answer::Count(1) {
            t.len() == n + 5 && error == Some(GapError::NoOutputStream)
        } else {
            t.len() == n + 7 && error is None
        }
    }
}

proof fn lemma_starts_at(
    tree: TreeView,
    root: Seq<u8>,
    before: SessionView,
    after: SessionView,
    result: Result<Handles, GapError>,
)
    requires
        start_outcome(tree, root, before, after, result),
    ensures
        starts_at(tree, root, before, after, error_of(result)),
{
    let n = before.trace.len() as int;
    let arg = roots_with_semicolons(tree, root);
    lemma_root_argument(tree, root);
    law_refused_start_says_nothing(tree, root, before, after, result);
    if tree.is_file(init_below(root)) && !arg.contains('\0') {
        law_start_call_by_call(tree, root, before, after, result);
        assert(after.trace[n].call->Initialize_argv =~= seq![
            "gap"@,
            "-l"@,
            arg,
            "-q"@,
            "-E"@,
            "--nointeract"@,
            "-x"@,
            "4096"@,
        ]);
    }
}

/// The error that a result holds.
pub open spec fn error_of<T>(result: Result<T, GapError>) -> Option<GapError> {
    match result {
        Ok(_) => None,
        Err(error) => Some(error),
    }
}

/// Whether starting GAP at `root` in a conversation gave `result`.
pub open spec fn started<K: Kernel>(
    tree: TreeView,
    root: Seq<u8>,
    session: Session<K>,
    result: Result<Gap<K>, InitFailure<K>>,
) -> bool {
    match result {
        Ok(gap) => starts_at(tree, root, session@, gap@.session, None),
        Err(failure) => starts_at(tree, root, session@, failure.session@, Some(failure.error)),
    }
}

/// GAP is started at the root that was handed over, or by default at the environment's
/// root or else the one from build time.
pub proof fn law_start<K: Kernel>(
    session: Session<K>,
    root: PosixPath,
    tree: Tree,
    host: Host,
    result: Result<Gap<K>, InitFailure<K>>,
)
    ensures
        call_ensures(Gap::<K>::try_init_with_root, (session, &root, &tree), result) ==> started(
            tree@,
            root.bytes@,
            session,
            result,
        ),
        call_ensures(Gap::<K>::try_init, (session, &host), result) ==> started(
            host.tree@,
            match host.env_root {
                Some(named) => named.bytes@,
                None => host.build_root.bytes@,
            },
            session,
            result,
        ),
{
    if call_ensures(Gap::<K>::try_init_with_root, (session, &root, &tree), result) {
        lemma_started(tree@, root@, session, result);
    }
    if call_ensures(Gap::<K>::try_init, (session, &host), result) {
        lemma_started(host.tree@, host.default_root(), session, result);
    }
}

proof fn lemma_started<K: Kernel>(
    tree: TreeView,
    root: Seq<u8>,
    session: Session<K>,
    result: Result<Gap<K>, InitFailure<K>>,
)
    requires
        init_outcome(tree, root, session, result),
    ensures
        started(tree, root, session, result),
{
    match result {
        Ok(gap) => lemma_starts_at(tree, root, session@, gap@.session, Ok(gap@.handles)),
        Err(failure) => lemma_starts_at(
            tree,
            root,
            session@,
            failure.session@,
            Err(failure.error),
        ),
    }
}

// --- The shared runtime ---
/// Whether an explicit start of the shared runtime went as it should: it is refused if a
/// thread panicked while starting it, and then if it is running; otherwise it starts at
/// `root`.
pub open spec fn starts_shared(
    before: GlobalView,
    after: GlobalView,
    root: Seq<u8>,
    result: Result<(), GapError>,
) -> bool {
    if before.init_poisoned {
        after == before && result == Err::<(), GapError>(GapError::InitializationPoisoned)
    } else if before.gap is Some {
        after == before && result == Err::<(), GapError>(GapError::AlreadyInitialized)
    } else {
        starts_at(
            before.tree,
            root,
            before.session->0,
            match result {
                Ok(_) => after.gap->0.session,
                Err(_) => after.session->0,
            },
            error_of(result),
        ) && (result is Ok <==> after.gap is Some)
    }
}

proof fn lemma_starts_shared(
    before: GlobalView,
    after: GlobalView,
    chosen: Option<Seq<u8>>,
    result: Result<(), GapError>,
)
    requires
        initialized(before, after, chosen, result),
    ensures
        starts_shared(before, after, root_in_use(before, chosen), result),
{
    law_explicit_start_decides(before, after, chosen, result);
    if !before.init_poisoned && before.gap is None {
        let root = root_in_use(before, chosen);
        match result {
            Ok(_) => lemma_starts_at(
                before.tree,
                root,
                before.session->0,
                after.gap->0.session,
                Ok(after.gap->0.handles),
            ),
            Err(error) => lemma_starts_at(
                before.tree,
                root,
                before.session->0,
                after.session->0,
                Err(error),
            ),
        }
    }
}

/// An explicit start is one at the builder's root, if it was given one, and else at the
/// default root.
pub proof fn law_shared_start<K: Kernel>(builder: GapBuilder)
    ensures
        forall|cell: &mut GlobalGap<K>, result: Result<(), GapError>| #[trigger]
            call_ensures(init_global::<K>, (cell,), result) ==> starts_shared(
                (*cell)@,
                (*final(cell))@,
                root_in_use((*cell)@, None),
                result,
            ),
        forall|cell: &mut GlobalGap<K>, result: Result<(), GapError>| #[trigger]
            call_ensures(GapBuilder::init_global::<K>, (builder, cell), result) ==> starts_shared(
                (*cell)@,
                (*final(cell))@,
                root_in_use((*cell)@, builder@),
                result,
            ),
{
    assert forall|cell: &mut GlobalGap<K>, result: Result<(), GapError>| #[trigger]
        call_ensures(init_global::<K>, (cell,), result) implies starts_shared(
        (*cell)@,
        (*final(cell))@,
        root_in_use((*cell)@, None),
        result,
    ) by {
        lemma_starts_shared((*cell)@, (*final(cell))@, None, result);
    }
    assert forall|cell: &mut GlobalGap<K>, result: Result<(), GapError>| #[trigger]
        call_ensures(GapBuilder::init_global::<K>, (builder, cell), result) implies starts_shared(
        (*cell)@,
        (*final(cell))@,
        root_in_use((*cell)@, builder@),
        result,
    ) by {
        lemma_starts_shared((*cell)@, (*final(cell))@, builder@, result);
    }
}

/// Whether evaluating `cmd` in the shared runtime went as it should while it is running:
/// the interpreter reads it and owns the result; or, if a thread panicked while using it,
/// the evaluation is refused and nothing changes.
pub open spec fn evaluates_shared(
    before: GlobalView,
    after: GlobalView,
    cmd: Seq<char>,
    result: Result<GapValue, GapError>,
) -> bool {
    if before.runtime_poisoned {
        after == before && result == Err::<GapValue, GapError>(GapError::RuntimePoisoned)
    } else {
        &&& after.gap is Some
        &&& reads_text(before.gap->0, after.gap->0, cmd, bare(result))
        &&& owns(before.gap->0, after.gap->0, result)
    }
}

/// Evaluating a command in a shared runtime that is running has its interpreter read the
/// command as it was handed over.
pub proof fn law_shared_runtime_reads_command<K: Kernel>(cmd: &str)
    ensures
        forall|cell: &mut GlobalGap<K>, result: Result<GapValue, GapError>|
            (*cell)@.gap is Some && #[trigger] call_ensures(
                eval::<K>,
                (cell, cmd),
                result,
            ) ==> evaluates_shared((*cell)@, (*final(cell))@, cmd@, result),
        forall|cell: &mut GlobalGap<K>, result: Result<GapValue, GapError>|
            (*cell)@.gap is Some && #[trigger] call_ensures(
                gap_eval::<K>,
                (cell, cmd),
                result,
            ) ==> evaluates_shared((*cell)@, (*final(cell))@, cmd@, result),
{
    assert forall|cell: &mut GlobalGap<K>, result: Result<GapValue, GapError>|
        (*cell)@.gap is Some && #[trigger] call_ensures(
            eval::<K>,
            (cell, cmd),
            result,
        ) implies evaluates_shared((*cell)@, (*final(cell))@, cmd@, result) by {
        lemma_evaluates_shared((*cell)@, (*final(cell))@, cmd@, result);
    }
    assert forall|cell: &mut GlobalGap<K>, result: Result<GapValue, GapError>|
        (*cell)@.gap is Some && #[trigger] call_ensures(
            gap_eval::<K>,
            (cell, cmd),
            result,
        ) implies evaluates_shared((*cell)@, (*final(cell))@, cmd@, result) by {
        lemma_evaluates_shared((*cell)@, (*final(cell))@, cmd@, result);
    }
}

proof fn lemma_evaluates_shared(
    before: GlobalView,
    after: GlobalView,
    cmd: Seq<char>,
    result: Result<GapValue, GapError>,
)
    requires
        before.gap is Some,
        (result matches Err(error) && refused(before, after, error)) || exists|start: GapView|
            #[trigger] evaluated_in(before, after, start, cmd, result),
    ensures
        evaluates_shared(before, after, cmd, result),
{
    if exists|start: GapView| #[trigger] evaluated_in(before, after, start, cmd, result) {
        let start = choose|start: GapView| #[trigger]
            evaluated_in(before, after, start, cmd, result);
        law_shared_evaluation(before, after, start, cmd, result);
        let gap = after.gap->0;
        lemma_reads_text(start, gap.with_roots(start.session.roots), cmd, plain(result));
    }
}

}
