//! What discovery asks, what it makes of the answers, and which directories it settles on.

use crate::discovery_spec::{
    chosen_header_dirs, chosen_library_dirs, config_at, discovery, entry_len, first_core_line,
    first_directory_line, has_headers, has_libgap_entry, header_dirs_of, holds_libgap,
    is_core_root, is_libgap_entry, is_libgap_name, layout_of, library_dirs_of, looks_like_path,
    nonempty, path_entries, path_entry, path_on_line, resolved_root, root_in_output, root_query,
    some_hold_libgap, source_header_dirs, unquoted, with_header_prefix, with_library_children,
    with_library_dir, with_library_dirs_under, CommandView, ConfigView, EnvView, OutcomeView,
    StepView,
};
use crate::header::HeaderLayout;
use crate::path::{below, joined, parent_of, paths_text};
use crate::root_list_laws::{lemma_without_repeats, without_repeats};
use crate::text::{split_lines, text_of, trimmed};
use crate::text_laws::{law_joined_pieces, law_trim_takes_white_space, lemma_trim_nothing};
use crate::tree::TreeView;
use vstd::prelude::*;
use vstd::string::*;
use vstd::utf8::*;

verus! {

// --- Commands ---
/// The executable that is asked: the one that was set, unless that is empty, and otherwise
/// `gap`.
pub open spec fn executable(env: EnvView) -> Seq<u8> {
    if env.gap_bin is Some && env.gap_bin->0.len() > 0 {
        env.gap_bin->0
    } else {
        encode_utf8("gap"@)
    }
}

/// Whether a root was set.
pub open spec fn root_is_set(env: EnvView) -> bool {
    env.root is Some && env.root->0.len() > 0
}

/// Every command that discovery asks for runs the executable that was set, or `gap` if
/// none was; the first asks for the root, and the second has GAP print its root paths. No
/// command is asked for if a root was set, nor after two.
#[verifier::spinoff_prover]
pub proof fn law_commands_run_executable(
    env: EnvView,
    outcomes: Seq<OutcomeView>,
    tree: TreeView,
    command: CommandView,
)
    requires
        discovery(env, outcomes, tree) == StepView::<ConfigView>::Run(command),
    ensures
        command.program == executable(env),
        !root_is_set(env),
        outcomes.len() <= 1,
        outcomes.len() == 0 ==> command.args.len() == 1 && command.args[0] == "--print-gaproot"@,
        outcomes.len() == 1 ==> command.args.len() == 3 && command.args[0] == "-q"@
            && command.args[1] == "-c"@ && command.args[2]
            == "for p in GAPInfo.RootPaths do if IsExistingFile(Concatenation(p,\"lib/init.g\")) then Print(p,\"\\n\"); fi; od; QUIT;"@,
{
    assert(root_query(env, outcomes, tree) == StepView::<Seq<u8>>::Run(command));
    law_query_runs_executable(env, outcomes, tree, command);
}

/// The root query alone asks for the same commands.
#[verifier::spinoff_prover]
pub proof fn law_query_runs_executable(
    env: EnvView,
    outcomes: Seq<OutcomeView>,
    tree: TreeView,
    command: CommandView,
)
    requires
        root_query(env, outcomes, tree) == StepView::<Seq<u8>>::Run(command),
    ensures
        command.program == executable(env),
        outcomes.len() <= 1,
        outcomes.len() == 0 ==> command.args.len() == 1 && command.args[0] == "--print-gaproot"@,
        outcomes.len() == 1 ==> command.args.len() == 3 && command.args[0] == "-q"@
            && command.args[1] == "-c"@ && command.args[2]
            == "for p in GAPInfo.RootPaths do if IsExistingFile(Concatenation(p,\"lib/init.g\")) then Print(p,\"\\n\"); fi; od; QUIT;"@,
{
}

/// The path that a command printed, if it succeeded and printed one.
pub open spec fn printed_root(outcome: OutcomeView, tree: TreeView) -> Option<Seq<u8>> {
    match outcome {
        OutcomeView::Exited { success, status: _, stdout } => if success {
            root_in_output(tree, stdout)
        } else {
            None
        },
        OutcomeView::Failed { error: _ } => None,
    }
}

/// Discovery takes the root that was set. Otherwise it asks once, and takes the root that
/// the command printed; if the command ran and printed none, it asks again and takes what
/// that printed; and whatever it takes, it configures.
pub proof fn law_discovery_takes_first_answer(
    env: EnvView,
    outcomes: Seq<OutcomeView>,
    tree: TreeView,
)
    ensures
        root_is_set(env) ==> discovery(env, outcomes, tree) == StepView::Finished(
            config_at(env, tree, env.root->0),
        ),
        !root_is_set(env) && outcomes.len() == 0 ==> discovery(env, outcomes, tree) is Run,
        !root_is_set(env) && outcomes.len() > 0 ==> (match printed_root(outcomes[0], tree) {
            Some(root) => discovery(env, outcomes, tree) == StepView::Finished(
                config_at(env, tree, root),
            ),
            None => if outcomes[0] is Failed {
                discovery(env, outcomes, tree) matches StepView::Finished(Err(_))
            } else if outcomes.len() == 1 {
                discovery(env, outcomes, tree) is Run
            } else {
                match printed_root(outcomes[1], tree) {
                    Some(root) => discovery(env, outcomes, tree) == StepView::Finished(
                        config_at(env, tree, root),
                    ),
                    None => discovery(env, outcomes, tree) matches StepView::Finished(Err(_)),
                }
            },
        }),
{
}

/// The root query gives the root that a command printed, and no other.
pub proof fn law_query_gives_printed_root(
    env: EnvView,
    outcomes: Seq<OutcomeView>,
    tree: TreeView,
    root: Seq<u8>,
)
    requires
        root_query(env, outcomes, tree) == StepView::<Seq<u8>>::Finished(Ok(root)),
    ensures
        outcomes.len() > 0,
        printed_root(outcomes[0], tree) == Some(root) || (outcomes.len() > 1 && outcomes[0]
            is Exited && printed_root(outcomes[0], tree) is None && printed_root(outcomes[1], tree)
            == Some(root)),
{
}

/// An executable that was set is named in what is said when it cannot be run, prints no
/// root or fails.
pub proof fn law_errors_name_executable(
    env: EnvView,
    outcomes: Seq<OutcomeView>,
    tree: TreeView,
    said: Seq<char>,
)
    requires
        env.gap_bin is Some,
        root_query(env, outcomes, tree) == StepView::<Seq<u8>>::Finished(Err(said)),
    ensures
        outcomes.len() > 0,
        outcomes[0] matches OutcomeView::Failed { error } ==> said == "Could not run `"@ + text_of(
            executable(env),
        ) + "`: "@ + error + ". Set GAP_SYS_ROOT."@,
        outcomes[0] is Exited ==> outcomes.len() > 1 && (match outcomes[1] {
            OutcomeView::Failed { error } => said == "Could not run `"@ + text_of(executable(env))
                + "`: "@ + error + ". Set GAP_SYS_ROOT."@,
            OutcomeView::Exited { success, status, stdout: _ } => if success {
                said == "`"@ + text_of(executable(env))
                    + " -q -c <gap-root-query>` did not print a usable GAP root. Set GAP_SYS_ROOT."@
            } else {
                said == "`"@ + text_of(executable(env))
                    + " -q -c <gap-root-query>` failed with status "@ + status
                    + ". Set GAP_SYS_ROOT."@
            },
        }),
{
}

/// Without a setting for the executable, what is said of a query that fails names the
/// settings to make instead.
pub proof fn law_errors_without_executable(
    env: EnvView,
    outcomes: Seq<OutcomeView>,
    tree: TreeView,
    said: Seq<char>,
)
    requires
        env.gap_bin is None,
        root_query(env, outcomes, tree) == StepView::<Seq<u8>>::Finished(Err(said)),
    ensures
        outcomes.len() > 0,
        outcomes[0] is Failed ==> said
            == "Could not run `gap --print-gaproot`. Set GAP_SYS_ROOT or GAP_SYS_GAP_BIN."@,
        outcomes[0] is Exited ==> outcomes.len() > 1 && (match outcomes[1] {
            OutcomeView::Failed { error: _ } => said
                == "Could not run GAP root discovery commands. Set GAP_SYS_ROOT or GAP_SYS_GAP_BIN."@,
            OutcomeView::Exited { success, status: _, stdout: _ } => if success {
                said == "`"@ + text_of(encode_utf8("gap"@))
                    + " -q -c <gap-root-query>` did not print a usable GAP root. Set GAP_SYS_ROOT."@
            } else {
                said
                    == "Could not discover GAP root with `gap --print-gaproot` or a GAPInfo.RootPaths query. Set GAP_SYS_ROOT."@
            },
        }),
{
}

// --- Output ---
/// The path in output is on the first line with a core root, if there is one, and
/// otherwise on the first line with a directory.
pub proof fn law_first_line_wins(tree: TreeView, stdout: Seq<u8>)
    ensures
        ({
            let lines = split_lines(text_of(stdout));
            match root_in_output(tree, stdout) {
                Some(p) => {
                    ||| exists|i: int|
                        0 <= i < lines.len() && #[trigger] path_on_line(lines[i]) == Some(p)
                            && is_core_root(tree, p) && forall|j: int|
                            0 <= j < i ==> !(#[trigger] path_on_line(lines[j]) matches Some(q)
                                && is_core_root(tree, q))
                    ||| (forall|j: int|
                        0 <= j < lines.len() ==> !(#[trigger] path_on_line(lines[j]) matches Some(
                            q,
                        ) && is_core_root(tree, q))) && exists|i: int|
                        0 <= i < lines.len() && #[trigger] path_on_line(lines[i]) == Some(p)
                            && tree.is_dir(p) && forall|j: int|
                            0 <= j < i ==> !(#[trigger] path_on_line(lines[j]) matches Some(q)
                                && tree.is_dir(q))
                },
                None => forall|j: int|
                    0 <= j < lines.len() ==> !(#[trigger] path_on_line(lines[j]) matches Some(q)
                        && (is_core_root(tree, q) || tree.is_dir(q))),
            }
        }),
{
    let lines = split_lines(text_of(stdout));
    lemma_core_line(tree, lines);
    lemma_directory_line(tree, lines);
}

proof fn lemma_core_line(tree: TreeView, lines: Seq<Seq<char>>)
    ensures
        match first_core_line(tree, lines) {
            Some(p) => exists|i: int|
                0 <= i < lines.len() && #[trigger] path_on_line(lines[i]) == Some(p)
                    && is_core_root(tree, p) && forall|j: int|
                    0 <= j < i ==> !(#[trigger] path_on_line(lines[j]) matches Some(q)
                        && is_core_root(tree, q)),
            None => forall|j: int|
                0 <= j < lines.len() ==> !(#[trigger] path_on_line(lines[j]) matches Some(q)
                    && is_core_root(tree, q)),
        },
    decreases lines.len(),
{
    if lines.len() > 0 {
        let here = path_on_line(lines[0]) matches Some(q) && is_core_root(tree, q);
        if !here {
            let rest = lines.skip(1);
            lemma_core_line(tree, rest);
            assert forall|j: int| 0 <= j < rest.len() implies #[trigger] path_on_line(rest[j])
                == path_on_line(lines[j + 1]) by {}
            match first_core_line(tree, lines) {
                Some(p) => {
                    let i = choose|i: int|
                        0 <= i < rest.len() && #[trigger] path_on_line(rest[i]) == Some(p)
                            && is_core_root(tree, p) && forall|j: int|
                            0 <= j < i ==> !(#[trigger] path_on_line(rest[j]) matches Some(q)
                                && is_core_root(tree, q));
                    assert(path_on_line(lines[i + 1]) == Some(p));
                    assert forall|j: int| 0 <= j < i + 1 implies !(#[trigger] path_on_line(
                        lines[j],
                    ) matches Some(q) && is_core_root(tree, q)) by {
                        if j > 0 {
                            assert(path_on_line(rest[j - 1]) == path_on_line(lines[j]));
                        }
                    }
                },
                None => {
                    assert forall|j: int| 0 <= j < lines.len() implies !(#[trigger] path_on_line(
                        lines[j],
                    ) matches Some(q) && is_core_root(tree, q)) by {
                        if j > 0 {
                            assert(path_on_line(rest[j - 1]) == path_on_line(lines[j]));
                        }
                    }
                },
            }
        }
    }
}

proof fn lemma_directory_line(tree: TreeView, lines: Seq<Seq<char>>)
    ensures
        match first_directory_line(tree, lines) {
            Some(p) => exists|i: int|
                0 <= i < lines.len() && #[trigger] path_on_line(lines[i]) == Some(p)
                    && tree.is_dir(p) && forall|j: int|
                    0 <= j < i ==> !(#[trigger] path_on_line(lines[j]) matches Some(q)
                        && tree.is_dir(q)),
            None => forall|j: int|
                0 <= j < lines.len() ==> !(#[trigger] path_on_line(lines[j]) matches Some(q)
                    && tree.is_dir(q)),
        },
    decreases lines.len(),
{
    if lines.len() > 0 {
        let here = path_on_line(lines[0]) matches Some(q) && tree.is_dir(q);
        if !here {
            let rest = lines.skip(1);
            lemma_directory_line(tree, rest);
            match first_directory_line(tree, lines) {
                Some(p) => {
                    let i = choose|i: int|
                        0 <= i < rest.len() && #[trigger] path_on_line(rest[i]) == Some(p)
                            && tree.is_dir(p) && forall|j: int|
                            0 <= j < i ==> !(#[trigger] path_on_line(rest[j]) matches Some(q)
                                && tree.is_dir(q));
                    assert(path_on_line(lines[i + 1]) == Some(p));
                    assert forall|j: int| 0 <= j < i + 1 implies !(#[trigger] path_on_line(
                        lines[j],
                    ) matches Some(q) && tree.is_dir(q)) by {
                        if j > 0 {
                            assert(path_on_line(rest[j - 1]) == path_on_line(lines[j]));
                        }
                    }
                },
                None => {
                    assert forall|j: int| 0 <= j < lines.len() implies !(#[trigger] path_on_line(
                        lines[j],
                    ) matches Some(q) && tree.is_dir(q)) by {
                        if j > 0 {
                            assert(path_on_line(rest[j - 1]) == path_on_line(lines[j]));
                        }
                    }
                },
            }
        }
    }
}

/// A text looks like a path if it starts with a separator of either kind, or with one or
/// two dots and a slash, or if the second of its bytes is a colon.
pub proof fn law_what_looks_like_a_path(s: Seq<char>)
    ensures
        looks_like_path(s) <==> {
            ||| s.len() >= 1 && (s[0] == '/' || s[0] == '\\')
            ||| s.len() >= 2 && s[0] == '.' && s[1] == '/'
            ||| s.len() >= 3 && s[0] == '.' && s[1] == '.' && s[2] == '/'
            ||| encode_utf8(s).len() > 1 && encode_utf8(s)[1] == 58
        },
{
    reveal_strlit("/");
    reveal_strlit("\\");
    reveal_strlit("./");
    reveal_strlit("../");
    lemma_prefix("/"@, s);
    lemma_prefix("\\"@, s);
    lemma_prefix("./"@, s);
    lemma_prefix("../"@, s);
}

proof fn lemma_prefix(piece: Seq<char>, s: Seq<char>)
    ensures
        piece.is_prefix_of(s) <==> piece.len() <= s.len() && forall|i: int|
            0 <= i < piece.len() ==> #[trigger] s[i] == piece[i],
{
    if piece.len() <= s.len() {
        let start = s.subrange(0, piece.len() as int);
        if forall|i: int| 0 <= i < piece.len() ==> #[trigger] s[i] == piece[i] {
            assert(start =~= piece);
        }
        if start == piece {
            assert forall|i: int| 0 <= i < piece.len() implies #[trigger] s[i] == piece[i] by {
                assert(start[i] == s[i]);
            }
        }
    }
}

proof fn lemma_suffix(piece: Seq<char>, s: Seq<char>)
    ensures
        piece.is_suffix_of(s) <==> piece.len() <= s.len() && forall|i: int|
            0 <= i < piece.len() ==> s[s.len() - piece.len() + i] == #[trigger] piece[i],
{
    if piece.len() <= s.len() {
        let from = s.len() - piece.len();
        let end = s.subrange(from, s.len() as int);
        if forall|i: int| 0 <= i < piece.len() ==> s[from + i] == #[trigger] piece[i] {
            assert(end =~= piece);
        }
        if end == piece {
            assert forall|i: int| 0 <= i < piece.len() implies s[from + i] == #[trigger] piece[
                i] by {
                assert(end[i] == s[from + i]);
            }
        }
    }
}

/// What is left of a line without the white space around it and without one prompt.
pub open spec fn unprompted(line: Seq<char>) -> Seq<char> {
    let s = trimmed(line);
    if s.len() >= 4 && s[0] == 'g' && s[1] == 'a' && s[2] == 'p' && s[3] == '>' {
        trimmed(s.skip(4))
    } else {
        s
    }
}

/// The path on a line is the whole line without the white space around it and without one
/// prompt, if that looks like a path.
pub proof fn law_path_is_whole_line(line: Seq<char>)
    ensures
        ({
            let rest = unprompted(line);
            path_on_line(line) == (if rest.len() > 0 && looks_like_path(rest) {
                Some(encode_utf8(rest))
            } else {
                None
            })
        }),
{
    let s = trimmed(line);
    reveal_strlit("gap>");
    lemma_prefix("gap>"@, s);
    law_trim_takes_white_space(line);
    lemma_trim_nothing(s);
    assert("gap>"@.len() == 4);
}

// --- Header directories ---
/// A directory holds GAP's headers if both of them are files in it.
pub proof fn law_both_headers_needed(tree: TreeView, dir: Seq<u8>)
    ensures
        has_headers(tree, dir) <==> {
            &&& tree.is_file(joined(dir, encode_utf8("libgap-api.h"@)))
            &&& tree.is_file(joined(dir, encode_utf8("gap_all.h"@)))
        },
{
}

/// Headers in `gap` below some directory make the layout the installed one; otherwise
/// headers in some directory make it the direct one; otherwise there is none.
pub proof fn law_layout_of_directories(tree: TreeView, dirs: Seq<Seq<u8>>)
    ensures
        ({
            let installed = exists|i: int|
                0 <= i < dirs.len() && has_headers(
                    tree,
                    joined(#[trigger] dirs[i], encode_utf8("gap"@)),
                );
            let direct = exists|i: int| 0 <= i < dirs.len() && has_headers(tree, #[trigger] dirs[i]);
            &&& layout_of(tree, dirs) == Some(HeaderLayout::IncludeSubdir) <==> installed
            &&& layout_of(tree, dirs) == Some(HeaderLayout::Direct) <==> !installed && direct
            &&& layout_of(tree, dirs) is None <==> !installed && !direct
        }),
{
    if exists|i: int| 0 <= i < dirs.len() && has_headers(
        tree,
        joined(#[trigger] dirs[i], encode_utf8("gap"@)),
    ) {
        let i = choose|i: int|
            0 <= i < dirs.len() && has_headers(
                tree,
                joined(#[trigger] dirs[i], encode_utf8("gap"@)),
            );
        assert(has_headers(tree, below(dirs[i], "gap")));
    }
}

/// The `include` below `dir`, if GAP's headers are installed there.
pub open spec fn installed_at(tree: TreeView, dir: Seq<u8>) -> Seq<Seq<u8>> {
    let prefix = joined(dir, encode_utf8("include"@));
    if has_headers(tree, joined(prefix, encode_utf8("gap"@))) {
        seq![prefix]
    } else {
        seq![]
    }
}

/// The places of headers in a source tree: its `src`, if headers are there, and its
/// `build`, if that is a directory then.
pub open spec fn source_places(tree: TreeView, root: Seq<u8>) -> Seq<Seq<u8>> {
    let source = joined(root, encode_utf8("src"@));
    let build = joined(root, encode_utf8("build"@));
    if !has_headers(tree, source) {
        seq![]
    } else if tree.is_dir(build) {
        seq![source, build]
    } else {
        seq![source]
    }
}

/// The places of headers that go with a root: those in its source tree, and the `include`
/// of the root, of its parent and of the parent above, as far as headers are installed
/// there.
pub open spec fn header_places(tree: TreeView, root: Seq<u8>) -> Seq<Seq<u8>> {
    source_places(tree, root) + installed_at(tree, root) + match parent_of(root) {
        Some(parent) => installed_at(tree, parent) + match parent_of(parent) {
            Some(prefix) => installed_at(tree, prefix),
            None => seq![],
        },
        None => seq![],
    }
}

proof fn lemma_source_places(tree: TreeView, root: Seq<u8>)
    ensures
        source_header_dirs(tree, root) == without_repeats(source_places(tree, root)),
{
    let none: Seq<Seq<u8>> = seq![];
    let source = below(root, "src");
    let build = below(root, "build");
    assert(without_repeats(none) =~= none);
    lemma_without_repeats(none, source);
    lemma_without_repeats(none.push(source), build);
    assert(none.push(source) =~= seq![source]);
    assert(none.push(source).push(build) =~= seq![source, build]);
}

proof fn lemma_installed_at(tree: TreeView, earlier: Seq<Seq<u8>>, dir: Seq<u8>)
    ensures
        with_header_prefix(tree, without_repeats(earlier), below(dir, "include"))
            == without_repeats(earlier + installed_at(tree, dir)),
{
    let prefix = below(dir, "include");
    lemma_without_repeats(earlier, prefix);
    assert(earlier + seq![prefix] =~= earlier.push(prefix));
    assert(earlier + Seq::<Seq<u8>>::empty() =~= earlier);
}

/// The header directories that go with a root are exactly the places of headers, in order
/// and none twice.
#[verifier::spinoff_prover]
pub proof fn law_header_directories_are_places(tree: TreeView, root: Seq<u8>)
    ensures
        header_dirs_of(tree, root) == without_repeats(header_places(tree, root)),
{
    let at_source = source_places(tree, root);
    let at_root = at_source + installed_at(tree, root);
    lemma_source_places(tree, root);
    lemma_installed_at(tree, at_source, root);
    match parent_of(root) {
        Some(parent) => {
            let at_parent = at_root + installed_at(tree, parent);
            lemma_installed_at(tree, at_root, parent);
            match parent_of(parent) {
                Some(prefix) => {
                    lemma_installed_at(tree, at_parent, prefix);
                    assert(at_parent + installed_at(tree, prefix) =~= header_places(tree, root));
                },
                None => {
                    assert(at_parent =~= header_places(tree, root));
                },
            }
        },
        None => {
            assert(at_root =~= header_places(tree, root));
        },
    }
}

// --- Library directories ---
/// A file is libgap by its name alone: a shared library of any version, a static one, or
/// one of the Windows names.
pub proof fn law_names_of_libgap(name: Seq<char>)
    ensures
        is_libgap_name(name) <==> {
            ||| name == "libgap.so"@
            ||| name == "libgap.dylib"@
            ||| name == "libgap.a"@
            ||| name == "libgap.dll"@
            ||| name == "libgap.dll.a"@
            ||| name == "gap.dll"@
            ||| name.len() >= 10 && forall|i: int| 0 <= i < 10 ==> name[i] == #[trigger] "libgap.so."@[i]
            ||| name.len() >= 7 && (forall|i: int|
                0 <= i < 7 ==> name[i] == #[trigger] "libgap."@[i]) && (forall|i: int|
                0 <= i < 6 ==> name[name.len() - 6 + i] == #[trigger] ".dylib"@[i])
        },
{
    reveal_strlit("libgap.so.");
    reveal_strlit("libgap.");
    reveal_strlit(".dylib");
    lemma_prefix("libgap.so."@, name);
    lemma_prefix("libgap."@, name);
    lemma_suffix(".dylib"@, name);
    assert("libgap.so."@.len() == 10 && "libgap."@.len() == 7 && ".dylib"@.len() == 6);
}

/// A directory holds libgap if it can be read and one of the names in it is text that is
/// a name of libgap.
pub proof fn law_directory_with_libgap(tree: TreeView, dir: Seq<u8>)
    ensures
        holds_libgap(tree, dir) <==> (tree.listing(dir) matches Some(names) && exists|i: int|
            0 <= i < names.len() && valid_utf8(#[trigger] names[i]) && is_libgap_name(
                decode_utf8(names[i]),
            )),
{
    if let Some(names) = tree.listing(dir) {
        if has_libgap_entry(names) {
            let i = choose|i: int| 0 <= i < names.len() && is_libgap_entry(#[trigger] names[i]);
            assert(valid_utf8(names[i]));
        }
        if exists|i: int|
            0 <= i < names.len() && valid_utf8(#[trigger] names[i]) && is_libgap_name(
                decode_utf8(names[i]),
            ) {
            let i = choose|i: int|
                0 <= i < names.len() && valid_utf8(#[trigger] names[i]) && is_libgap_name(
                    decode_utf8(names[i]),
                );
            assert(is_libgap_entry(names[i]));
        }
    }
}

/// The directory, if it holds libgap.
pub open spec fn library_at(tree: TreeView, dir: Seq<u8>) -> Seq<Seq<u8>> {
    if holds_libgap(tree, dir) {
        seq![dir]
    } else {
        seq![]
    }
}

/// Those of the named children of `dir` that are directories and hold libgap, in order.
pub open spec fn libraries_among(tree: TreeView, dir: Seq<u8>, names: Seq<Seq<u8>>) -> Seq<Seq<u8>>
    decreases names.len(),
{
    if names.len() == 0 {
        seq![]
    } else {
        let child = joined(dir, names.last());
        libraries_among(tree, dir, names.drop_last()) + if tree.is_dir(child) {
            library_at(tree, child)
        } else {
            seq![]
        }
    }
}

/// The directory and the directories in it, as far as they hold libgap.
pub open spec fn libraries_under(tree: TreeView, dir: Seq<u8>) -> Seq<Seq<u8>> {
    library_at(tree, dir) + match tree.listing(dir) {
        Some(names) => libraries_among(tree, dir, names),
        None => seq![],
    }
}

/// The places of libgap that go with a root: the root, what is under its `lib`, its
/// parent, what is under the `lib` of that, and, unless the parent above is the end, what
/// is under its `lib` and its `lib64`.
pub open spec fn library_places(tree: TreeView, root: Seq<u8>) -> Seq<Seq<u8>> {
    let lib = encode_utf8("lib"@);
    library_at(tree, root) + libraries_under(tree, joined(root, lib)) + match parent_of(root) {
        Some(parent) => library_at(tree, parent) + libraries_under(tree, joined(parent, lib)) + (
        if parent_of(parent) is Some && parent_of(parent_of(parent)->0) is Some {
            let prefix = parent_of(parent)->0;
            libraries_under(tree, joined(prefix, lib)) + libraries_under(
                tree,
                joined(prefix, encode_utf8("lib64"@)),
            )
        } else {
            seq![]
        }),
        None => seq![],
    }
}

proof fn lemma_library_at(tree: TreeView, earlier: Seq<Seq<u8>>, dir: Seq<u8>)
    ensures
        with_library_dir(tree, without_repeats(earlier), dir) == without_repeats(
            earlier + library_at(tree, dir),
        ),
{
    lemma_without_repeats(earlier, dir);
    assert(earlier + seq![dir] =~= earlier.push(dir));
    assert(earlier + Seq::<Seq<u8>>::empty() =~= earlier);
}

proof fn lemma_libraries_among(
    tree: TreeView,
    earlier: Seq<Seq<u8>>,
    dir: Seq<u8>,
    names: Seq<Seq<u8>>,
)
    ensures
        with_library_children(tree, without_repeats(earlier), dir, names) == without_repeats(
            earlier + libraries_among(tree, dir, names),
        ),
    decreases names.len(),
{
    if names.len() == 0 {
        assert(earlier + libraries_among(tree, dir, names) =~= earlier);
    } else {
        lemma_libraries_among(tree, earlier, dir, names.drop_last());
        let before = earlier + libraries_among(tree, dir, names.drop_last());
        let child = joined(dir, names.last());
        lemma_library_at(tree, before, child);
        assert(before + library_at(tree, child) =~= earlier + (libraries_among(
            tree,
            dir,
            names.drop_last(),
        ) + library_at(tree, child)));
        assert(before =~= earlier + (libraries_among(tree, dir, names.drop_last()) + Seq::<
            Seq<u8>,
        >::empty()));
    }
}

proof fn lemma_libraries_under(tree: TreeView, earlier: Seq<Seq<u8>>, dir: Seq<u8>)
    ensures
        with_library_dirs_under(tree, without_repeats(earlier), dir) == without_repeats(
            earlier + libraries_under(tree, dir),
        ),
{
    lemma_library_at(tree, earlier, dir);
    let at_dir = earlier + library_at(tree, dir);
    match tree.listing(dir) {
        Some(names) => {
            lemma_libraries_among(tree, at_dir, dir, names);
            assert(at_dir + libraries_among(tree, dir, names) =~= earlier + libraries_under(
                tree,
                dir,
            ));
        },
        None => {
            assert(at_dir =~= earlier + libraries_under(tree, dir));
        },
    }
}

/// The library directories that go with a root are exactly the places of libgap, in order
/// and none twice.
pub proof fn law_library_directories_are_places(tree: TreeView, root: Seq<u8>)
    ensures
        library_dirs_of(tree, root) == without_repeats(library_places(tree, root)),
{
    let none: Seq<Seq<u8>> = seq![];
    let places = library_places(tree, root);
    assert(without_repeats(none) =~= none);
    lemma_library_at(tree, none, root);
    let p1 = none + library_at(tree, root);
    lemma_libraries_under(tree, p1, below(root, "lib"));
    let p2 = p1 + libraries_under(tree, below(root, "lib"));
    match parent_of(root) {
        Some(parent) => {
            lemma_library_at(tree, p2, parent);
            let p3 = p2 + library_at(tree, parent);
            lemma_libraries_under(tree, p3, below(parent, "lib"));
            let p4 = p3 + libraries_under(tree, below(parent, "lib"));
            if parent_of(parent) is Some && parent_of(parent_of(parent)->0) is Some {
                let prefix = parent_of(parent)->0;
                lemma_libraries_under(tree, p4, below(prefix, "lib"));
                let p5 = p4 + libraries_under(tree, below(prefix, "lib"));
                lemma_libraries_under(tree, p5, below(prefix, "lib64"));
                assert(p5 + libraries_under(tree, below(prefix, "lib64")) =~= places);
            } else {
                assert(p4 =~= places);
            }
        },
        None => {
            assert(p2 =~= places);
        },
    }
}

// --- Configurations ---
/// The header directories in use: those that were set, else those that go with the root.
pub open spec fn header_dirs_in_use(env: EnvView, tree: TreeView, core: Seq<u8>) -> Seq<Seq<u8>> {
    if env.include_dirs is Some {
        path_entries(env.include_dirs->0, env.list_separator)
    } else {
        header_dirs_of(tree, core)
    }
}

/// The library directories in use: those that were set, else those that go with the root.
pub open spec fn library_dirs_in_use(env: EnvView, tree: TreeView, core: Seq<u8>) -> Seq<Seq<u8>> {
    if env.lib_dirs is Some {
        path_entries(env.lib_dirs->0, env.list_separator)
    } else {
        library_dirs_of(tree, core)
    }
}

/// Nothing is configured around a root that does not resolve, without headers, or without
/// libgap; and what is said then names what was tried.
pub proof fn law_configuration_needs_all(env: EnvView, tree: TreeView, root: Seq<u8>)
    ensures
        resolved_root(tree, root) matches Err(text) ==> config_at(env, tree, root) == Err::<
            ConfigView,
            Seq<char>,
        >(text),
        resolved_root(tree, root) matches Ok(core) ==> {
            let dirs = header_dirs_in_use(env, tree, core);
            layout_of(tree, dirs) is None ==> config_at(env, tree, root) == Err::<
                ConfigView,
                Seq<char>,
            >(
                "Could not find GAP headers. Tried include directories: "@ + paths_text(dirs)
                    + ". Set GAP_SYS_INCLUDE_DIRS or GAP_SYS_ROOT."@,
            )
        },
        resolved_root(tree, root) matches Ok(core) ==> {
            let dirs = library_dirs_in_use(env, tree, core);
            layout_of(tree, header_dirs_in_use(env, tree, core)) is Some && (forall|i: int|
                0 <= i < dirs.len() ==> !holds_libgap(tree, #[trigger] dirs[i])) ==> config_at(
                env,
                tree,
                root,
            ) == Err::<ConfigView, Seq<char>>(
                "Could not find libgap. Tried library directories: "@ + paths_text(dirs)
                    + ". Set GAP_SYS_LIB_DIRS or GAP_SYS_ROOT."@,
            )
        },
{
    if let Ok(core) = resolved_root(tree, root) {
        assert(chosen_header_dirs(env, tree, core) == header_dirs_in_use(env, tree, core));
        assert(chosen_library_dirs(env, tree, core) == library_dirs_in_use(env, tree, core));
    }
}

/// A configuration is found around a root that resolves, where one of the header
/// directories in use has headers and one of the library directories in use holds libgap;
/// it has that root, those directories and their layout.
pub proof fn law_configuration_around_root(env: EnvView, tree: TreeView, root: Seq<u8>, i: int)
    requires
        resolved_root(tree, root) matches Ok(core) && layout_of(
            tree,
            header_dirs_in_use(env, tree, core),
        ) is Some && 0 <= i < library_dirs_in_use(env, tree, core).len() && holds_libgap(
            tree,
            library_dirs_in_use(env, tree, core)[i],
        ),
    ensures
        ({
            let core = resolved_root(tree, root)->Ok_0;
            config_at(env, tree, root) matches Ok(config) && config.root == core
                && config.include_dirs == header_dirs_in_use(env, tree, core) && config.lib_dirs
                == library_dirs_in_use(env, tree, core) && layout_of(tree, config.include_dirs)
                == Some(config.header_layout)
        }),
{
    let core = resolved_root(tree, root)->Ok_0;
    assert(chosen_header_dirs(env, tree, core) == header_dirs_in_use(env, tree, core));
    assert(chosen_library_dirs(env, tree, core) == library_dirs_in_use(env, tree, core));
    assert(some_hold_libgap(tree, library_dirs_in_use(env, tree, core)));
}

/// A setting counts if it is there and not empty.
pub proof fn law_empty_setting_does_not_count(setting: Option<Seq<u8>>)
    ensures
        nonempty(setting) is Some <==> setting is Some && setting->0.len() > 0,
        nonempty(setting) is Some ==> nonempty(setting) == setting,
{
}

// --- Path lists ---
/// The entries of two path lists with `:` between them are the entries of the first and
/// then those of the second; and a list without `:` is one entry, unless it is empty.
pub proof fn law_colon_separates_lists(first: Seq<u8>, second: Seq<u8>)
    ensures
        path_entries(first.push(58) + second, 58) == path_entries(first, 58) + path_entries(
            second,
            58,
        ),
        !first.contains(58) && first.len() > 0 ==> path_entries(first, 58) == seq![first],
        first.len() == 0 ==> path_entries(first, 58) == Seq::<Seq<u8>>::empty(),
    decreases first.len(),
{
    let cut = entry_len(first, 58, false) as int;
    let list = first.push(58) + second;
    lemma_entry_len(first, 58);
    lemma_entry_len(list, 58);
    lemma_colon_cut(first, second);
    if cut < first.len() {
        let rest = first.skip(cut + 1);
        law_colon_separates_lists(rest, second);
        assert(list.take(cut) =~= first.take(cut));
        assert(list.skip(cut + 1) =~= rest.push(58) + second);
        let one = path_entry(unquoted(first.take(cut), 58));
        assert(path_entries(list, 58) == one + path_entries(rest.push(58) + second, 58));
        assert(one + (path_entries(rest, 58) + path_entries(second, 58)) =~= (one + path_entries(
            rest,
            58,
        )) + path_entries(second, 58));
        assert(first[cut] == 58);
        assert(first.contains(first[cut]));
    } else {
        assert(list.take(cut) =~= first);
        assert(list.skip(cut + 1) =~= second);
    }
    lemma_colon_keeps(first);
}

/// An entry without quotes to take off stays as it is.
proof fn lemma_colon_keeps(entry: Seq<u8>)
    ensures
        unquoted(entry, 58) == entry,
    decreases entry.len(),
{
    reveal(Seq::filter);
    if entry.len() > 0 {
        lemma_colon_keeps(entry.drop_last());
        assert(entry.drop_last().push(entry.last()) =~= entry);
    } else {
        assert(unquoted(entry, 58) =~= entry);
    }
}

proof fn lemma_entry_len(list: Seq<u8>, separator: u8)
    requires
        separator == 58,
    ensures
        entry_len(list, separator, false) <= list.len(),
        entry_len(list, separator, false) < list.len() ==> list[entry_len(
            list,
            separator,
            false,
        ) as int] == separator,
    decreases list.len(),
{
    if list.len() > 0 && list[0] != separator {
        lemma_entry_len(list.skip(1), separator);
    }
}

proof fn lemma_colon_cut(first: Seq<u8>, second: Seq<u8>)
    ensures
        entry_len(first.push(58) + second, 58, false) == entry_len(first, 58, false),
    decreases first.len(),
{
    let list = first.push(58) + second;
    if first.len() == 0 {
        assert(list[0] == 58);
    } else {
        assert(list[0] == first[0]);
        assert(list.skip(1) =~= first.skip(1).push(58) + second);
        lemma_colon_cut(first.skip(1), second);
    }
}


/// Whether a quote is open at the end of a list, if `quoted` tells so for its start.
pub open spec fn ends_quoted(list: Seq<u8>, quoted: bool) -> bool
    decreases list.len(),
{
    if list.len() == 0 {
        quoted
    } else {
        ends_quoted(list.drop_last(), quoted) != (list.last() == 34)
    }
}

/// Where entries can be quoted, `;` separates lists as `:` does elsewhere, unless it stands
/// between quotes: then it belongs to the entry.
pub proof fn law_semicolon_separates_lists(first: Seq<u8>, second: Seq<u8>)
    requires
        !ends_quoted(first, false),
    ensures
        path_entries(first.push(59) + second, 59) == path_entries(first, 59) + path_entries(
            second,
            59,
        ),
    decreases first.len(),
{
    let cut = entry_len(first, 59, false) as int;
    let list = first.push(59) + second;
    lemma_semicolon_cut(first, second, false);
    if cut < first.len() {
        let rest = first.skip(cut + 1);
        lemma_unquoted_rest(first, false);
        law_semicolon_separates_lists(rest, second);
        assert(list.take(cut) =~= first.take(cut));
        assert(list.skip(cut + 1) =~= rest.push(59) + second);
        let one = path_entry(unquoted(first.take(cut), 59));
        assert(one + (path_entries(rest, 59) + path_entries(second, 59)) =~= (one + path_entries(
            rest,
            59,
        )) + path_entries(second, 59));
    } else {
        assert(list.take(cut) =~= first);
        assert(list.skip(cut + 1) =~= second);
    }
}

proof fn lemma_ends_quoted_first(list: Seq<u8>, quoted: bool)
    requires
        list.len() > 0,
    ensures
        ends_quoted(list, quoted) == ends_quoted(list.skip(1), quoted != (list[0] == 34)),
    decreases list.len(),
{
    if list.len() == 1 {
        assert(list.drop_last() =~= seq![]);
        assert(list.skip(1) =~= seq![]);
        assert(ends_quoted(list.drop_last(), quoted) == quoted);
    } else {
        lemma_ends_quoted_first(list.drop_last(), quoted);
        assert(list.drop_last().skip(1) =~= list.skip(1).drop_last());
        assert(list.skip(1).last() == list.last());
    }
}

proof fn lemma_semicolon_cut(first: Seq<u8>, second: Seq<u8>, quoted: bool)
    requires
        !ends_quoted(first, quoted),
    ensures
        entry_len(first, 59, quoted) <= first.len(),
        entry_len(first.push(59) + second, 59, quoted) == entry_len(first, 59, quoted),
    decreases first.len(),
{
    let list = first.push(59) + second;
    if first.len() == 0 {
        assert(list[0] == 59);
    } else if !(first[0] == 59 && !quoted) {
        assert(list[0] == first[0]);
        assert(list.skip(1) =~= first.skip(1).push(59) + second);
        lemma_ends_quoted_first(first, quoted);
        lemma_semicolon_cut(first.skip(1), second, quoted != (first[0] == 34));
    } else {
        assert(list[0] == first[0]);
    }
}

/// After the first separator that is not quoted, the quotes are as at the end.
proof fn lemma_unquoted_rest(list: Seq<u8>, quoted: bool)
    requires
        entry_len(list, 59, quoted) < list.len(),
    ensures
        ends_quoted(list.skip(entry_len(list, 59, quoted) as int + 1), false) == ends_quoted(
            list,
            quoted,
        ),
    decreases list.len(),
{
    lemma_ends_quoted_first(list, quoted);
    let cut = entry_len(list, 59, quoted) as int;
    if !(list[0] == 59 && !quoted) {
        let rest = list.skip(1);
        lemma_unquoted_rest(rest, quoted != (list[0] == 34));
        assert(rest.skip(cut - 1 + 1) =~= list.skip(cut + 1));
    }
}

/// Taking the quotes off goes byte by byte: a quote goes, any other byte stays, and no
/// byte is a quote except where `;` separates.
pub proof fn law_quotes_are_taken_off(a: Seq<u8>, b: Seq<u8>, byte: u8, separator: u8)
    ensures
        unquoted(a + b, separator) == unquoted(a, separator) + unquoted(b, separator),
        unquoted(seq![byte], separator) == (if separator == 59 && byte == 34 {
            seq![]
        } else {
            seq![byte]
        }),
{
    let keep = |c: u8| !crate::discovery_spec::is_quote(c, separator);
    Seq::filter_distributes_over_add(a, b, keep);
    reveal(Seq::filter);
    assert(seq![byte].drop_last() =~= seq![]);
    assert(seq![byte].drop_last().filter(keep) =~= seq![]);
    assert(seq![byte].last() == byte);
    assert(unquoted(seq![byte], separator) == seq![byte].filter(keep));
}

// --- What is said ---
/// Paths are listed with a comma and a space between each two, and no paths as `<none>`.
pub proof fn law_listed_paths(p: Seq<u8>, first: Seq<Seq<u8>>, second: Seq<Seq<u8>>)
    requires
        first.len() > 0,
        second.len() > 0,
    ensures
        paths_text(seq![]) == "<none>"@,
        paths_text(seq![p]) == text_of(p),
        paths_text(first + second) == paths_text(first) + ", "@ + paths_text(second),
{
    let show = |q: Seq<u8>| text_of(q);
    assert(seq![p].map_values(show) =~= seq![text_of(p)]);
    assert((first + second).map_values(show) =~= first.map_values(show) + second.map_values(show));
    law_joined_pieces(text_of(p), first.map_values(show), second.map_values(show), ", "@);
}

}
