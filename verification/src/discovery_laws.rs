//! What holds of GAP discovery and of the root list with which GAP is started.

use crate::discovery_spec::{
    candidates_of, config_at, discovery, entry_len, first_core_line, first_core_root,
    first_directory_line, gap_program, has_headers, header_dirs_of, holds_libgap, is_core_root,
    is_quote, layout_of, library_dirs_of, nonempty, path_entries, path_entry, path_on_line,
    resolved_root, root_in_output, root_query, some_hold_libgap, source_header_dirs, unquoted,
    with_header_prefix, with_library_children, with_library_dir, with_library_dirs_under,
    with_nearby, CommandView, ConfigView, EnvView, OutcomeView, StepView, GAP_ROOT_QUERY, QUOTE,
    SEMICOLON,
};
use crate::header::HeaderLayout;
use crate::path::{ancestors_of, below, holds_path, joined, parent_of, same_path, with_path};
use crate::path_laws::{extends, law_with_path, no_repeats};
use crate::runtime_roots::{
    bases_of, inferred_of, is_runtime_root, root_arg_text, root_list, with_runtime_roots,
    with_split_roots,
};
use crate::text::{joined_texts, split_lines, text_of};
use crate::tree::TreeView;
use vstd::prelude::*;

verus! {

// --- Roots ---
proof fn lemma_with_nearby(list: Seq<Seq<u8>>, bases: Seq<Seq<u8>>)
    requires
        no_repeats(list),
    ensures
        extends(list, with_nearby(list, bases)),
        no_repeats(with_nearby(list, bases)),
    decreases bases.len(),
{
    if bases.len() > 0 {
        lemma_with_nearby(list, bases.drop_last());
        let before = with_nearby(list, bases.drop_last());
        let base = bases.last();
        let first = with_path(before, below(base, "libexec"));
        let second = with_path(first, below(below(base, "share"), "gap"));
        law_with_path(before, below(base, "libexec"));
        law_with_path(first, below(below(base, "share"), "gap"));
        law_with_path(second, below(below(base, "lib"), "gap"));
    }
}

/// The first candidate for a root is the root itself, and no candidate occurs twice.
pub proof fn law_candidates(root: Seq<u8>)
    ensures
        candidates_of(root).len() > 0,
        candidates_of(root)[0] == root,
        no_repeats(candidates_of(root)),
{
    let none: Seq<Seq<u8>> = seq![];
    law_with_path(none, root);
    assert(!holds_path(none, root));
    let start = with_path(none, root);
    lemma_with_nearby(start, ancestors_of(root, 4));
    assert(candidates_of(root)[0] == start[0]);
}

#[verifier::spinoff_prover]
proof fn lemma_nearby_held(list: Seq<Seq<u8>>, bases: Seq<Seq<u8>>, i: int)
    requires
        0 <= i < bases.len(),
    ensures
        ({
            let longer = with_nearby(list, bases);
            &&& holds_path(longer, below(bases[i], "libexec"))
            &&& holds_path(longer, below(below(bases[i], "share"), "gap"))
            &&& holds_path(longer, below(below(bases[i], "lib"), "gap"))
        }),
    decreases bases.len(),
{
    let before = with_nearby(list, bases.drop_last());
    let base = bases.last();
    let libexec = below(base, "libexec");
    let share = below(below(base, "share"), "gap");
    let lib = below(below(base, "lib"), "gap");
    lemma_three_added(before, libexec, share, lib);
    assert(with_nearby(list, bases) == with_three(before, libexec, share, lib));
    if i < bases.len() - 1 {
        lemma_nearby_held(list, bases.drop_last(), i);
        let other = bases.drop_last()[i];
        assert(other == bases[i]);
        lemma_held_among_three(before, libexec, share, lib, below(other, "libexec"));
        lemma_held_among_three(before, libexec, share, lib, below(below(other, "share"), "gap"));
        lemma_held_among_three(before, libexec, share, lib, below(below(other, "lib"), "gap"));
    } else {
        assert(bases[i] == base);
    }
}

/// `list` with three more paths.
spec fn with_three(list: Seq<Seq<u8>>, a: Seq<u8>, b: Seq<u8>, c: Seq<u8>) -> Seq<Seq<u8>> {
    with_path(with_path(with_path(list, a), b), c)
}

proof fn lemma_held_among_three(
    list: Seq<Seq<u8>>,
    a: Seq<u8>,
    b: Seq<u8>,
    c: Seq<u8>,
    p: Seq<u8>,
)
    requires
        holds_path(list, p),
    ensures
        holds_path(with_three(list, a, b, c), p),
{
    let first = with_path(list, a);
    let second = with_path(first, b);
    law_with_path(list, a);
    law_with_path(first, b);
    law_with_path(second, c);
    lemma_still_held(list, first, p);
    lemma_still_held(first, second, p);
    lemma_still_held(second, with_path(second, c), p);
}

proof fn lemma_three_added(list: Seq<Seq<u8>>, a: Seq<u8>, b: Seq<u8>, c: Seq<u8>)
    ensures
        holds_path(with_three(list, a, b, c), a),
        holds_path(with_three(list, a, b, c), b),
        holds_path(with_three(list, a, b, c), c),
{
    let first = with_path(list, a);
    let second = with_path(first, b);
    law_with_path(list, a);
    law_with_path(first, b);
    law_with_path(second, c);
    lemma_still_held(first, second, a);
    lemma_still_held(second, with_path(second, c), a);
    lemma_still_held(second, with_path(second, c), b);
}

/// The `libexec`, `share/gap` and `lib/gap` of the root and of its near ancestors are
/// candidates.
pub proof fn law_nearby_candidates(root: Seq<u8>, i: int)
    requires
        0 <= i < ancestors_of(root, 4).len(),
    ensures
        ({
            let base = ancestors_of(root, 4)[i];
            &&& holds_path(candidates_of(root), below(base, "libexec"))
            &&& holds_path(candidates_of(root), below(below(base, "share"), "gap"))
            &&& holds_path(candidates_of(root), below(below(base, "lib"), "gap"))
        }),
{
    lemma_nearby_held(with_path(seq![], root), ancestors_of(root, 4), i);
}

proof fn lemma_first_core_root(tree: TreeView, candidates: Seq<Seq<u8>>)
    ensures
        match first_core_root(tree, candidates) {
            Some(found) => exists|i: int|
                0 <= i < candidates.len() && #[trigger] candidates[i] == found && is_core_root(
                    tree,
                    found,
                ) && forall|j: int| 0 <= j < i ==> !is_core_root(tree, #[trigger] candidates[j]),
            None => forall|j: int|
                0 <= j < candidates.len() ==> !is_core_root(tree, #[trigger] candidates[j]),
        },
    decreases candidates.len(),
{
    if candidates.len() > 0 && !is_core_root(tree, candidates[0]) {
        let rest = candidates.skip(1);
        lemma_first_core_root(tree, rest);
        match first_core_root(tree, candidates) {
            Some(found) => {
                let i = choose|i: int|
                    0 <= i < rest.len() && #[trigger] rest[i] == found && is_core_root(tree, found)
                        && forall|j: int| 0 <= j < i ==> !is_core_root(tree, #[trigger] rest[j]);
                assert(candidates[i + 1] == found);
                assert forall|j: int| 0 <= j < i + 1 implies !is_core_root(
                    tree,
                    #[trigger] candidates[j],
                ) by {
                    if j > 0 {
                        assert(rest[j - 1] == candidates[j]);
                    }
                }
            },
            None => {
                assert forall|j: int| 0 <= j < candidates.len() implies !is_core_root(
                    tree,
                    #[trigger] candidates[j],
                ) by {
                    if j > 0 {
                        assert(rest[j - 1] == candidates[j]);
                    }
                }
            },
        }
    }
}

/// A root resolves to the first of its candidates that holds `lib/init.g`, and only a
/// root without such a candidate is refused.
pub proof fn law_resolved_root(tree: TreeView, root: Seq<u8>)
    ensures
        match resolved_root(tree, root) {
            Ok(found) => exists|i: int|
                0 <= i < candidates_of(root).len() && #[trigger] candidates_of(root)[i] == found
                    && is_core_root(tree, found) && forall|j: int|
                    0 <= j < i ==> !is_core_root(tree, #[trigger] candidates_of(root)[j]),
            Err(_) => forall|j: int|
                0 <= j < candidates_of(root).len() ==> !is_core_root(
                    tree,
                    #[trigger] candidates_of(root)[j],
                ),
        },
{
    lemma_first_core_root(tree, candidates_of(root));
}

/// A root that holds `lib/init.g` stands for itself.
pub proof fn law_core_root_resolves_to_itself(tree: TreeView, root: Seq<u8>)
    requires
        is_core_root(tree, root),
    ensures
        resolved_root(tree, root) == Ok::<Seq<u8>, Seq<char>>(root),
{
    law_candidates(root);
}

// --- Command output ---
proof fn lemma_first_core_line(tree: TreeView, lines: Seq<Seq<char>>)
    ensures
        match first_core_line(tree, lines) {
            Some(p) => is_core_root(tree, p),
            None => forall|i: int|
                0 <= i < lines.len() ==> !((#[trigger] path_on_line(lines[i])) matches Some(p)
                    && is_core_root(tree, p)),
        },
    decreases lines.len(),
{
    if lines.len() > 0 {
        let rest = lines.skip(1);
        lemma_first_core_line(tree, rest);
        if first_core_line(tree, lines) is None {
            assert forall|i: int| 0 <= i < lines.len() implies !((#[trigger] path_on_line(
                lines[i],
            )) matches Some(p) && is_core_root(tree, p)) by {
                if i > 0 {
                    assert(path_on_line(rest[i - 1]) == path_on_line(lines[i]));
                }
            }
        }
    }
}

proof fn lemma_first_directory_line(tree: TreeView, lines: Seq<Seq<char>>)
    ensures
        match first_directory_line(tree, lines) {
            Some(p) => tree.is_dir(p),
            None => forall|i: int|
                0 <= i < lines.len() ==> !((#[trigger] path_on_line(lines[i])) matches Some(p)
                    && tree.is_dir(p)),
        },
    decreases lines.len(),
{
    if lines.len() > 0 {
        let rest = lines.skip(1);
        lemma_first_directory_line(tree, rest);
        if first_directory_line(tree, lines) is None {
            assert forall|i: int| 0 <= i < lines.len() implies !((#[trigger] path_on_line(
                lines[i],
            )) matches Some(p) && tree.is_dir(p)) by {
                if i > 0 {
                    assert(path_on_line(rest[i - 1]) == path_on_line(lines[i]));
                }
            }
        }
    }
}

/// A line of command output with a core root is preferred, wherever it stands; otherwise
/// a line with a directory will do; and other lines do not count.
pub proof fn law_root_in_output(tree: TreeView, stdout: Seq<u8>)
    ensures
        ({
            let lines = split_lines(text_of(stdout));
            let core = exists|i: int|
                0 <= i < lines.len() && ((#[trigger] path_on_line(lines[i])) matches Some(p)
                    && is_core_root(tree, p));
            let directory = exists|i: int|
                0 <= i < lines.len() && ((#[trigger] path_on_line(lines[i])) matches Some(p)
                    && tree.is_dir(p));
            match root_in_output(tree, stdout) {
                Some(p) => if core {
                    is_core_root(tree, p)
                } else {
                    directory && tree.is_dir(p)
                },
                None => !core && !directory,
            }
        }),
{
    let lines = split_lines(text_of(stdout));
    lemma_first_core_line(tree, lines);
    lemma_first_directory_line(tree, lines);
    if first_core_line(tree, lines) is Some {
        lemma_core_line_exists(tree, lines);
    } else if first_directory_line(tree, lines) is Some {
        lemma_directory_line_exists(tree, lines);
    }
}

proof fn lemma_core_line_exists(tree: TreeView, lines: Seq<Seq<char>>)
    requires
        first_core_line(tree, lines) is Some,
    ensures
        exists|i: int|
            0 <= i < lines.len() && ((#[trigger] path_on_line(lines[i])) matches Some(p)
                && is_core_root(tree, p)),
    decreases lines.len(),
{
    if !(path_on_line(lines[0]) matches Some(p) && is_core_root(tree, p)) {
        let rest = lines.skip(1);
        lemma_core_line_exists(tree, rest);
        let i = choose|i: int|
            0 <= i < rest.len() && ((#[trigger] path_on_line(rest[i])) matches Some(p)
                && is_core_root(tree, p));
        assert(path_on_line(lines[i + 1]) == path_on_line(rest[i]));
    }
}

proof fn lemma_directory_line_exists(tree: TreeView, lines: Seq<Seq<char>>)
    requires
        first_directory_line(tree, lines) is Some,
    ensures
        exists|i: int|
            0 <= i < lines.len() && ((#[trigger] path_on_line(lines[i])) matches Some(p)
                && tree.is_dir(p)),
    decreases lines.len(),
{
    if !(path_on_line(lines[0]) matches Some(p) && tree.is_dir(p)) {
        let rest = lines.skip(1);
        lemma_directory_line_exists(tree, rest);
        let i = choose|i: int|
            0 <= i < rest.len() && ((#[trigger] path_on_line(rest[i])) matches Some(p)
                && tree.is_dir(p));
        assert(path_on_line(lines[i + 1]) == path_on_line(rest[i]));
    }
}

// --- Directories ---
/// Header directories that were inferred have a layout, and none occurs twice.
pub proof fn law_inferred_headers(tree: TreeView, root: Seq<u8>)
    ensures
        no_repeats(header_dirs_of(tree, root)),
        header_dirs_of(tree, root).len() > 0 ==> layout_of(tree, header_dirs_of(tree, root)) is Some,
{
    let none: Seq<Seq<u8>> = seq![];
    let source = below(root, "src");
    let build = below(root, "build");
    law_with_path(none, source);
    law_with_path(with_path(none, source), build);
    assert(!holds_path(none, source));
    let at_source = source_header_dirs(tree, root);
    assert(no_repeats(at_source));
    if at_source.len() > 0 {
        assert(with_path(none, source)[0] == source);
        assert(at_source[0] == source);
        assert(has_headers(tree, at_source[0]));
    }
    lemma_with_header_prefix(tree, at_source, below(root, "include"));
    let at_root = with_header_prefix(tree, at_source, below(root, "include"));
    if let Some(parent) = parent_of(root) {
        lemma_with_header_prefix(tree, at_root, below(parent, "include"));
        let at_parent = with_header_prefix(tree, at_root, below(parent, "include"));
        if let Some(prefix) = parent_of(parent) {
            lemma_with_header_prefix(tree, at_parent, below(prefix, "include"));
        }
    }
}

/// Whether one of the directories holds headers, in either layout.
spec fn some_headers(tree: TreeView, dirs: Seq<Seq<u8>>) -> bool {
    ||| exists|i: int| 0 <= i < dirs.len() && has_headers(tree, below(#[trigger] dirs[i], "gap"))
    ||| exists|i: int| 0 <= i < dirs.len() && has_headers(tree, #[trigger] dirs[i])
}

proof fn lemma_with_header_prefix(tree: TreeView, list: Seq<Seq<u8>>, dir: Seq<u8>)
    requires
        no_repeats(list),
        list.len() > 0 ==> some_headers(tree, list),
    ensures
        ({
            let longer = with_header_prefix(tree, list, dir);
            &&& no_repeats(longer)
            &&& longer.len() > 0 ==> some_headers(tree, longer)
        }),
{
    let longer = with_header_prefix(tree, list, dir);
    law_with_path(list, dir);
    if list.len() > 0 {
        if exists|i: int| 0 <= i < list.len() && has_headers(tree, below(#[trigger] list[i], "gap")) {
            let i = choose|i: int|
                0 <= i < list.len() && has_headers(tree, below(#[trigger] list[i], "gap"));
            assert(longer[i] == list[i]);
        } else {
            let i = choose|i: int| 0 <= i < list.len() && has_headers(tree, #[trigger] list[i]);
            assert(longer[i] == list[i]);
        }
    } else if longer.len() > 0 {
        assert(longer[0] == dir);
    }
}

/// Whether each of the directories holds libgap and none occurs twice.
spec fn all_libraries(tree: TreeView, dirs: Seq<Seq<u8>>) -> bool {
    &&& no_repeats(dirs)
    &&& forall|i: int| 0 <= i < dirs.len() ==> holds_libgap(tree, #[trigger] dirs[i])
}

proof fn lemma_with_library_dir(tree: TreeView, list: Seq<Seq<u8>>, dir: Seq<u8>)
    requires
        all_libraries(tree, list),
    ensures
        all_libraries(tree, with_library_dir(tree, list, dir)),
{
    law_with_path(list, dir);
}

proof fn lemma_with_library_children(
    tree: TreeView,
    list: Seq<Seq<u8>>,
    dir: Seq<u8>,
    names: Seq<Seq<u8>>,
)
    requires
        all_libraries(tree, list),
    ensures
        all_libraries(tree, with_library_children(tree, list, dir, names)),
    decreases names.len(),
{
    if names.len() > 0 {
        lemma_with_library_children(tree, list, dir, names.drop_last());
        let before = with_library_children(tree, list, dir, names.drop_last());
        lemma_with_library_dir(tree, before, joined(dir, names.last()));
    }
}

proof fn lemma_with_library_dirs_under(tree: TreeView, list: Seq<Seq<u8>>, dir: Seq<u8>)
    requires
        all_libraries(tree, list),
    ensures
        all_libraries(tree, with_library_dirs_under(tree, list, dir)),
{
    lemma_with_library_dir(tree, list, dir);
    if let Some(names) = tree.listing(dir) {
        lemma_with_library_children(tree, with_library_dir(tree, list, dir), dir, names);
    }
}

/// Library directories that were inferred hold libgap, and none occurs twice.
pub proof fn law_inferred_libraries(tree: TreeView, root: Seq<u8>)
    ensures
        no_repeats(library_dirs_of(tree, root)),
        forall|i: int|
            0 <= i < library_dirs_of(tree, root).len() ==> holds_libgap(
                tree,
                #[trigger] library_dirs_of(tree, root)[i],
            ),
{
    let none: Seq<Seq<u8>> = seq![];
    lemma_with_library_dir(tree, none, root);
    let at = with_library_dir(tree, none, root);
    lemma_with_library_dirs_under(tree, at, below(root, "lib"));
    let at_root = with_library_dirs_under(tree, at, below(root, "lib"));
    if let Some(parent) = parent_of(root) {
        lemma_with_library_dir(tree, at_root, parent);
        let near = with_library_dir(tree, at_root, parent);
        lemma_with_library_dirs_under(tree, near, below(parent, "lib"));
        let at_parent = with_library_dirs_under(tree, near, below(parent, "lib"));
        if let Some(prefix) = parent_of(parent) {
            lemma_with_library_dirs_under(tree, at_parent, below(prefix, "lib"));
            let at_lib = with_library_dirs_under(tree, at_parent, below(prefix, "lib"));
            lemma_with_library_dirs_under(tree, at_lib, below(prefix, "lib64"));
        }
    }
    assert(all_libraries(tree, library_dirs_of(tree, root)));
}

/// Adding header directories keeps the list, and a prefix with headers is listed.
proof fn lemma_header_prefix_listed(tree: TreeView, list: Seq<Seq<u8>>, dir: Seq<u8>)
    ensures
        extends(list, with_header_prefix(tree, list, dir)),
        has_headers(tree, below(dir, "gap")) ==> holds_path(
            with_header_prefix(tree, list, dir),
            dir,
        ),
{
    law_with_path(list, dir);
}

/// The headers of a source tree are found in its `src`, with the `build` beside it, and
/// installed headers are found at the root, at its parent and at the parent above.
pub proof fn law_headers_found(tree: TreeView, root: Seq<u8>)
    ensures
        ({
            let dirs = header_dirs_of(tree, root);
            let source = below(root, "src");
            let build = below(root, "build");
            &&& has_headers(tree, source) ==> holds_path(dirs, source)
            &&& has_headers(tree, source) && tree.is_dir(build) ==> holds_path(dirs, build)
            &&& has_headers(tree, below(below(root, "include"), "gap")) ==> holds_path(
                dirs,
                below(root, "include"),
            )
            &&& parent_of(root) matches Some(parent) ==> {
                &&& has_headers(tree, below(below(parent, "include"), "gap")) ==> holds_path(
                    dirs,
                    below(parent, "include"),
                )
                &&& parent_of(parent) matches Some(prefix) ==> (has_headers(
                    tree,
                    below(below(prefix, "include"), "gap"),
                ) ==> holds_path(dirs, below(prefix, "include")))
            }
        }),
{
    let none: Seq<Seq<u8>> = seq![];
    let source = below(root, "src");
    let build = below(root, "build");
    let at_source = source_header_dirs(tree, root);
    let first = with_path(none, source);
    law_with_path(none, source);
    law_with_path(first, build);
    if has_headers(tree, source) {
        lemma_still_held(first, with_path(first, build), source);
        assert(holds_path(at_source, source));
    }
    let at_root = with_header_prefix(tree, at_source, below(root, "include"));
    lemma_header_prefix_listed(tree, at_source, below(root, "include"));
    let dirs = header_dirs_of(tree, root);
    lemma_all_held(at_source, at_root);
    match parent_of(root) {
        Some(parent) => {
            let at_parent = with_header_prefix(tree, at_root, below(parent, "include"));
            lemma_header_prefix_listed(tree, at_root, below(parent, "include"));
            lemma_all_held(at_root, at_parent);
            if let Some(prefix) = parent_of(parent) {
                lemma_header_prefix_listed(tree, at_parent, below(prefix, "include"));
                lemma_all_held(at_parent, dirs);
            }
        },
        None => {},
    }
}

/// A longer list holds what the list holds.
proof fn lemma_all_held(list: Seq<Seq<u8>>, longer: Seq<Seq<u8>>)
    requires
        extends(list, longer),
    ensures
        forall|p: Seq<u8>| #[trigger] holds_path(list, p) ==> holds_path(longer, p),
{
    assert forall|p: Seq<u8>| #[trigger] holds_path(list, p) implies holds_path(longer, p) by {
        lemma_still_held(list, longer, p);
    }
}

/// Whether `longer` extends `list` and holds `dir` if that holds libgap.
spec fn library_listed(
    tree: TreeView,
    list: Seq<Seq<u8>>,
    longer: Seq<Seq<u8>>,
    dir: Seq<u8>,
) -> bool {
    &&& extends(list, longer)
    &&& holds_libgap(tree, dir) ==> holds_path(longer, dir)
}

proof fn lemma_library_listed(tree: TreeView, list: Seq<Seq<u8>>, dir: Seq<u8>)
    ensures
        library_listed(tree, list, with_library_dir(tree, list, dir), dir),
{
    law_with_path(list, dir);
}

proof fn lemma_children_listed(
    tree: TreeView,
    list: Seq<Seq<u8>>,
    dir: Seq<u8>,
    names: Seq<Seq<u8>>,
)
    ensures
        ({
            let longer = with_library_children(tree, list, dir, names);
            &&& extends(list, longer)
            &&& forall|i: int|
                0 <= i < names.len() && tree.is_dir(#[trigger] joined(dir, names[i]))
                    && holds_libgap(tree, joined(dir, names[i])) ==> holds_path(
                    longer,
                    joined(dir, names[i]),
                )
        }),
    decreases names.len(),
{
    if names.len() > 0 {
        let rest = names.drop_last();
        let before = with_library_children(tree, list, dir, rest);
        let longer = with_library_children(tree, list, dir, names);
        let child = joined(dir, names.last());
        lemma_children_listed(tree, list, dir, rest);
        lemma_library_listed(tree, before, child);
        assert(extends(before, longer));
        assert forall|i: int|
            0 <= i < names.len() && tree.is_dir(#[trigger] joined(dir, names[i])) && holds_libgap(
                tree,
                joined(dir, names[i]),
            ) implies holds_path(longer, joined(dir, names[i])) by {
            if i < names.len() - 1 {
                assert(rest[i] == names[i]);
                lemma_still_held(before, longer, joined(dir, rest[i]));
            }
        }
    }
}

/// Whether `dirs` holds `dir`, and each of the directories in it, if that holds libgap.
pub open spec fn libraries_listed(tree: TreeView, dirs: Seq<Seq<u8>>, dir: Seq<u8>) -> bool {
    &&& holds_libgap(tree, dir) ==> holds_path(dirs, dir)
    &&& tree.listing(dir) matches Some(names) ==> forall|i: int|
        0 <= i < names.len() && tree.is_dir(#[trigger] joined(dir, names[i])) && holds_libgap(
            tree,
            joined(dir, names[i]),
        ) ==> holds_path(dirs, joined(dir, names[i]))
}

proof fn lemma_libraries_listed(tree: TreeView, list: Seq<Seq<u8>>, dir: Seq<u8>)
    ensures
        extends(list, with_library_dirs_under(tree, list, dir)),
        libraries_listed(tree, with_library_dirs_under(tree, list, dir), dir),
{
    let at_dir = with_library_dir(tree, list, dir);
    lemma_library_listed(tree, list, dir);
    if let Some(names) = tree.listing(dir) {
        lemma_children_listed(tree, at_dir, dir, names);
        lemma_all_held(at_dir, with_library_children(tree, at_dir, dir, names));
    }
}

proof fn lemma_libraries_still_listed(
    tree: TreeView,
    list: Seq<Seq<u8>>,
    longer: Seq<Seq<u8>>,
    dir: Seq<u8>,
)
    requires
        extends(list, longer),
        libraries_listed(tree, list, dir),
    ensures
        libraries_listed(tree, longer, dir),
{
    lemma_all_held(list, longer);
}

/// libgap is found in the root and its parent, in their `lib` directories, in the `lib`
/// and `lib64` above unless that is the file system's root, and in the directories in
/// each of those.
pub proof fn law_libraries_found(tree: TreeView, root: Seq<u8>)
    ensures
        ({
            let dirs = library_dirs_of(tree, root);
            &&& holds_libgap(tree, root) ==> holds_path(dirs, root)
            &&& libraries_listed(tree, dirs, below(root, "lib"))
            &&& parent_of(root) matches Some(parent) ==> {
                &&& holds_libgap(tree, parent) ==> holds_path(dirs, parent)
                &&& libraries_listed(tree, dirs, below(parent, "lib"))
                &&& parent_of(parent) matches Some(prefix) ==> parent_of(prefix) is Some ==> {
                    &&& libraries_listed(tree, dirs, below(prefix, "lib"))
                    &&& libraries_listed(tree, dirs, below(prefix, "lib64"))
                }
            }
        }),
{
    let none: Seq<Seq<u8>> = seq![];
    let dirs = library_dirs_of(tree, root);
    let lib = below(root, "lib");
    let at = with_library_dir(tree, none, root);
    let at_root = with_library_dirs_under(tree, at, lib);
    lemma_library_listed(tree, none, root);
    lemma_libraries_listed(tree, at, lib);
    lemma_all_held(at, at_root);
    if let Some(parent) = parent_of(root) {
        let parent_lib = below(parent, "lib");
        let near = with_library_dir(tree, at_root, parent);
        let at_parent = with_library_dirs_under(tree, near, parent_lib);
        lemma_library_listed(tree, at_root, parent);
        lemma_libraries_listed(tree, near, parent_lib);
        lemma_all_held(at_root, near);
        lemma_all_held(near, at_parent);
        lemma_libraries_still_listed(tree, at_root, near, lib);
        lemma_libraries_still_listed(tree, near, at_parent, lib);
        if let Some(prefix) = parent_of(parent) {
            if parent_of(prefix) is Some {
                let prefix_lib = below(prefix, "lib");
                let prefix_lib64 = below(prefix, "lib64");
                let at_lib = with_library_dirs_under(tree, at_parent, prefix_lib);
                lemma_libraries_listed(tree, at_parent, prefix_lib);
                lemma_libraries_listed(tree, at_lib, prefix_lib64);
                lemma_all_held(at_parent, at_lib);
                lemma_all_held(at_lib, dirs);
                lemma_libraries_still_listed(tree, at_parent, at_lib, lib);
                lemma_libraries_still_listed(tree, at_lib, dirs, lib);
                lemma_libraries_still_listed(tree, at_parent, at_lib, parent_lib);
                lemma_libraries_still_listed(tree, at_lib, dirs, parent_lib);
                lemma_libraries_still_listed(tree, at_lib, dirs, prefix_lib);
            }
        }
    }
}

/// Installed headers are preferred to headers directly in a directory.
pub proof fn law_installed_headers_preferred(tree: TreeView, dirs: Seq<Seq<u8>>, i: int)
    requires
        0 <= i < dirs.len(),
        has_headers(tree, below(dirs[i], "gap")),
    ensures
        layout_of(tree, dirs) == Some(HeaderLayout::IncludeSubdir),
{
}

// --- Discovery ---
/// A root in the settings is used without running any command.
pub proof fn law_explicit_root_runs_nothing(
    env: EnvView,
    root: Seq<u8>,
    outcomes: Seq<OutcomeView>,
    tree: TreeView,
)
    requires
        env.root == Some(root),
        root.len() > 0,
    ensures
        discovery(env, outcomes, tree) == StepView::Finished(config_at(env, tree, root)),
{
}

/// Header and library directories in the settings are used as they are.
pub proof fn law_explicit_directories_win(
    env: EnvView,
    outcomes: Seq<OutcomeView>,
    tree: TreeView,
    config: ConfigView,
)
    requires
        discovery(env, outcomes, tree) == StepView::<ConfigView>::Finished(Ok(config)),
    ensures
        env.include_dirs matches Some(list) ==> config.include_dirs == path_entries(
            list,
            env.list_separator,
        ),
        env.lib_dirs matches Some(list) ==> config.lib_dirs == path_entries(
            list,
            env.list_separator,
        ),
        env.include_dirs is None ==> config.include_dirs == header_dirs_of(tree, config.root),
        env.lib_dirs is None ==> config.lib_dirs == library_dirs_of(tree, config.root),
{
}

/// A configuration that was found is usable: its root holds `lib/init.g`, its header
/// directories have the layout it names, and one of its library directories holds libgap.
pub proof fn law_configuration_usable(
    env: EnvView,
    outcomes: Seq<OutcomeView>,
    tree: TreeView,
    config: ConfigView,
)
    requires
        discovery(env, outcomes, tree) == StepView::<ConfigView>::Finished(Ok(config)),
    ensures
        is_core_root(tree, config.root),
        layout_of(tree, config.include_dirs) == Some(config.header_layout),
        some_hold_libgap(tree, config.lib_dirs),
{
    let root = match nonempty(env.root) {
        Some(root) => root,
        None => root_query(env, outcomes, tree)->Finished_0->Ok_0,
    };
    lemma_config_at(env, tree, root, config);
}

proof fn lemma_config_at(env: EnvView, tree: TreeView, root: Seq<u8>, config: ConfigView)
    requires
        config_at(env, tree, root) == Ok::<ConfigView, Seq<char>>(config),
    ensures
        is_core_root(tree, config.root),
        layout_of(tree, config.include_dirs) == Some(config.header_layout),
        some_hold_libgap(tree, config.lib_dirs),
{
    lemma_found_is_core(tree, candidates_of(root));
}

proof fn lemma_found_is_core(tree: TreeView, candidates: Seq<Seq<u8>>)
    ensures
        first_core_root(tree, candidates) matches Some(found) ==> is_core_root(tree, found),
    decreases candidates.len(),
{
    if candidates.len() > 0 {
        lemma_found_is_core(tree, candidates.skip(1));
    }
}

/// Without a root in the settings, `--print-gaproot` is asked first.
pub proof fn law_print_gaproot_first(env: EnvView, tree: TreeView)
    requires
        nonempty(env.root) is None,
    ensures
        discovery(env, seq![], tree) == StepView::<ConfigView>::Run(
            CommandView { program: gap_program(env), args: seq!["--print-gaproot"@] },
        ),
{
}

/// If `--print-gaproot` ran but printed no root, GAP is asked for its root paths.
pub proof fn law_root_paths_second(env: EnvView, outcome: OutcomeView, tree: TreeView)
    requires
        nonempty(env.root) is None,
        outcome matches OutcomeView::Exited { success, status: _, stdout } && (!success
            || root_in_output(tree, stdout) is None),
    ensures
        discovery(env, seq![outcome], tree) == StepView::<ConfigView>::Run(
            CommandView {
                program: gap_program(env),
                args: seq!["-q"@, "-c"@, GAP_ROOT_QUERY@],
            },
        ),
{
    assert(seq![outcome][0] == outcome);
}

/// Discovery ends after at most two commands.
pub proof fn law_two_commands_suffice(env: EnvView, outcomes: Seq<OutcomeView>, tree: TreeView)
    requires
        outcomes.len() >= 2,
    ensures
        discovery(env, outcomes, tree) is Finished,
{
}

/// Once discovery has ended, further outcomes do not change its result.
pub proof fn law_finished_stays(
    env: EnvView,
    outcomes: Seq<OutcomeView>,
    more: Seq<OutcomeView>,
    tree: TreeView,
)
    requires
        discovery(env, outcomes, tree) is Finished,
    ensures
        discovery(env, outcomes + more, tree) == discovery(env, outcomes, tree),
{
    let all = outcomes + more;
    assert(outcomes.len() > 0 ==> all[0] == outcomes[0]);
    assert(outcomes.len() > 1 ==> all[1] == outcomes[1]);
}

// --- Path lists ---
/// Directories with the list separator between each two.
pub open spec fn path_list(dirs: Seq<Seq<u8>>, separator: u8) -> Seq<u8>
    decreases dirs.len(),
{
    if dirs.len() == 0 {
        seq![]
    } else if dirs.len() == 1 {
        dirs[0]
    } else {
        dirs[0].push(separator) + path_list(dirs.skip(1), separator)
    }
}

/// A text without a separator and without quotes is all in the first entry, and stays as
/// it is.
proof fn lemma_plain_entry(entry: Seq<u8>, rest: Seq<u8>, separator: u8)
    requires
        !entry.contains(separator),
        separator == SEMICOLON ==> !entry.contains(QUOTE),
    ensures
        entry_len(entry + rest, separator, false) == entry.len() + entry_len(
            rest,
            separator,
            false,
        ),
        unquoted(entry, separator) == entry,
    decreases entry.len(),
{
    if entry.len() > 0 {
        let tail = entry.skip(1);
        assert(entry.contains(entry[0]));
        assert forall|byte: u8| tail.contains(byte) implies entry.contains(byte) by {
            let i = tail.index_of(byte);
            assert(entry[i + 1] == byte);
        }
        assert((entry + rest).skip(1) =~= tail + rest);
        lemma_plain_entry(tail, rest, separator);
    } else {
        assert(entry + rest =~= rest);
    }
    lemma_nothing_to_unquote(entry, separator);
}

proof fn lemma_nothing_to_unquote(entry: Seq<u8>, separator: u8)
    requires
        separator == SEMICOLON ==> !entry.contains(QUOTE),
    ensures
        unquoted(entry, separator) == entry,
    decreases entry.len(),
{
    reveal(Seq::filter);
    if entry.len() > 0 {
        let shorter = entry.drop_last();
        assert(entry.contains(entry.last()));
        assert forall|byte: u8| shorter.contains(byte) implies entry.contains(byte) by {
            let i = shorter.index_of(byte);
            assert(entry[i] == byte);
        }
        lemma_nothing_to_unquote(shorter, separator);
        assert(shorter.push(entry.last()) =~= entry);
    } else {
        assert(unquoted(entry, separator) =~= entry);
    }
}

/// A path list gives back the directories it was made of, if none of them holds a
/// separator or, where entries can be quoted, a quote.
pub proof fn law_path_list_round_trip(dirs: Seq<Seq<u8>>, separator: u8)
    requires
        forall|i: int|
            0 <= i < dirs.len() ==> (#[trigger] dirs[i]).len() > 0 && !dirs[i].contains(separator)
                && (separator == SEMICOLON ==> !dirs[i].contains(QUOTE)),
    ensures
        path_entries(path_list(dirs, separator), separator) == dirs,
    decreases dirs.len(),
{
    let none = Seq::<u8>::empty();
    if dirs.len() == 0 {
        lemma_nothing_to_unquote(none, separator);
        assert(path_entries(path_list(dirs, separator), separator) =~= dirs);
    } else if dirs.len() == 1 {
        lemma_plain_entry(dirs[0], none, separator);
        assert(dirs[0] + none =~= dirs[0]);
        assert(path_entries(path_list(dirs, separator), separator) =~= dirs);
    } else {
        let head = dirs[0];
        let rest = path_list(dirs.skip(1), separator);
        let list = head.push(separator) + rest;
        let tail = seq![separator] + rest;
        assert(list =~= head + tail);
        law_path_list_round_trip(dirs.skip(1), separator);
        lemma_plain_entry(head, tail, separator);
        assert(entry_len(tail, separator, false) == 0);
        let cut = head.len() as int;
        assert(list.take(cut) =~= head);
        assert(list.skip(cut + 1) =~= rest);
        assert(path_entries(list, separator) =~= dirs);
    }
}

/// Where entries can be quoted, a directory in quotes comes back whole, separators
/// included.
pub proof fn law_quoted_entry_comes_back(dir: Seq<u8>)
    requires
        dir.len() > 0,
        !dir.contains(QUOTE),
    ensures
        path_entries(seq![QUOTE] + dir + seq![QUOTE], SEMICOLON) == seq![dir],
{
    let list = seq![QUOTE] + dir + seq![QUOTE];
    assert(list.skip(1) =~= dir + seq![QUOTE]);
    lemma_quoted_len(dir);
    assert(entry_len(list, SEMICOLON, false) == list.len());
    lemma_nothing_to_unquote(dir, SEMICOLON);
    let keep = |byte: u8| !is_quote(byte, SEMICOLON);
    let quote = seq![QUOTE];
    Seq::filter_distributes_over_add(quote + dir, quote, keep);
    Seq::filter_distributes_over_add(quote, dir, keep);
    assert(quote.filter(keep) =~= seq![]) by {
        reveal(Seq::filter);
        lemma_nothing_to_unquote(quote.drop_last(), SEMICOLON);
        assert(keep(QUOTE) == false);
        assert(quote.filter(keep) == quote.drop_last().filter(keep));
    }
    assert(unquoted(list, SEMICOLON) =~= dir);
}

proof fn lemma_quoted_len(dir: Seq<u8>)
    requires
        !dir.contains(QUOTE),
    ensures
        entry_len(dir + seq![QUOTE], SEMICOLON, true) == dir.len() + 1,
    decreases dir.len(),
{
    let list = dir + seq![QUOTE];
    if dir.len() > 0 {
        let tail = dir.skip(1);
        assert(dir.contains(dir[0]));
        assert forall|byte: u8| tail.contains(byte) implies dir.contains(byte) by {
            let i = tail.index_of(byte);
            assert(dir[i + 1] == byte);
        }
        assert(list.skip(1) =~= tail + seq![QUOTE]);
        lemma_quoted_len(tail);
    } else {
        assert(list.skip(1) =~= seq![]);
        assert(entry_len(list.skip(1), SEMICOLON, false) == 0);
    }
}

/// No entry of a path list is empty.
pub proof fn law_path_list_entries(list: Seq<u8>, separator: u8)
    ensures
        forall|i: int|
            0 <= i < path_entries(list, separator).len() ==> (#[trigger] path_entries(
                list,
                separator,
            )[i]).len() > 0,
    decreases list.len(),
{
    let cut = entry_len(list, separator, false) as int;
    if cut < list.len() {
        law_path_list_entries(list.skip(cut + 1), separator);
        let first = path_entry(unquoted(list.take(cut), separator));
        let rest = path_entries(list.skip(cut + 1), separator);
        assert forall|i: int| 0 <= i < path_entries(list, separator).len() implies (
        #[trigger] path_entries(
            list,
            separator,
        )[i]).len() > 0 by {
            if i >= first.len() {
                assert(path_entries(list, separator)[i] == rest[i - first.len()]);
            }
        }
    }
}

// --- The root list ---
proof fn lemma_with_runtime_roots(
    tree: TreeView,
    list: Seq<Seq<u8>>,
    candidates: Seq<Seq<u8>>,
)
    requires
        no_repeats(list),
    ensures
        ({
            let longer = with_runtime_roots(tree, list, candidates);
            &&& extends(list, longer)
            &&& no_repeats(longer)
            &&& forall|i: int|
                list.len() <= i < longer.len() ==> is_runtime_root(tree, #[trigger] longer[i])
        }),
    decreases candidates.len(),
{
    if candidates.len() > 0 {
        lemma_with_runtime_roots(tree, list, candidates.drop_last());
        law_with_path(
            with_runtime_roots(tree, list, candidates.drop_last()),
            candidates.last(),
        );
    }
}

/// In the root list with which GAP is started, the chosen root comes first, no root
/// occurs twice, and the others are runtime roots.
pub proof fn law_root_list(tree: TreeView, root: Seq<u8>)
    ensures
        root_list(tree, root).len() > 0,
        root_list(tree, root)[0] == root,
        no_repeats(root_list(tree, root)),
        forall|i: int|
            0 < i < root_list(tree, root).len() ==> is_runtime_root(
                tree,
                #[trigger] root_list(tree, root)[i],
            ),
{
    let none: Seq<Seq<u8>> = seq![];
    law_with_path(none, root);
    assert(!holds_path(none, root));
    let start = with_path(none, root);
    lemma_with_runtime_roots(tree, start, inferred_of(root));
    assert(root_list(tree, root)[0] == start[0]);
}

proof fn lemma_joined_starts(pieces: Seq<Seq<char>>, separator: Seq<char>)
    requires
        pieces.len() > 0,
    ensures
        pieces[0].is_prefix_of(joined_texts(pieces, separator)),
    decreases pieces.len(),
{
    let text = joined_texts(pieces, separator);
    if pieces.len() == 1 {
        assert(text.subrange(0, pieces[0].len() as int) =~= pieces[0]);
    } else {
        lemma_joined_starts(pieces.drop_last(), separator);
        let before = joined_texts(pieces.drop_last(), separator);
        assert(text.subrange(0, pieces[0].len() as int) =~= before.subrange(
            0,
            pieces[0].len() as int,
        ));
    }
}

/// The root argument starts with the chosen root and ends with a semicolon.
pub proof fn law_root_arg(tree: TreeView, root: Seq<u8>)
    ensures
        text_of(root).is_prefix_of(root_arg_text(tree, root)),
        ";"@.is_suffix_of(root_arg_text(tree, root)),
{
    law_root_list(tree, root);
    let texts = root_list(tree, root).map_values(|p: Seq<u8>| text_of(p));
    lemma_joined_starts(texts, ";"@);
    let joined = joined_texts(texts, ";"@);
    let arg = root_arg_text(tree, root);
    let n = text_of(root).len() as int;
    assert(texts[0] == text_of(root));
    assert(arg.subrange(0, n) =~= joined.subrange(0, n));
    assert(arg.subrange(joined.len() as int, arg.len() as int) =~= ";"@);
}

proof fn lemma_no_runtime_roots(tree: TreeView, root: Seq<u8>, candidates: Seq<Seq<u8>>)
    requires
        forall|i: int|
            0 <= i < candidates.len() ==> !is_runtime_root(tree, #[trigger] candidates[i])
                || same_path(root, candidates[i]),
    ensures
        with_runtime_roots(tree, seq![root], candidates) == seq![root],
    decreases candidates.len(),
{
    if candidates.len() > 0 {
        lemma_no_runtime_roots(tree, root, candidates.drop_last());
        let last = candidates.last();
        assert(candidates[candidates.len() - 1] == last);
        if is_runtime_root(tree, last) {
            assert(same_path(seq![root][0], last));
        }
    }
}

/// A root that is not split across siblings is passed alone.
pub proof fn law_unsplit_root_alone(tree: TreeView, root: Seq<u8>)
    requires
        forall|i: int|
            0 <= i < inferred_of(root).len() ==> !is_runtime_root(
                tree,
                #[trigger] inferred_of(root)[i],
            ) || same_path(root, inferred_of(root)[i]),
    ensures
        root_list(tree, root) == seq![root],
        root_arg_text(tree, root) == text_of(root) + ";"@,
{
    let none: Seq<Seq<u8>> = seq![];
    assert(!holds_path(none, root));
    assert(with_path(none, root) =~= seq![root]);
    lemma_no_runtime_roots(tree, root, inferred_of(root));
    let texts = root_list(tree, root).map_values(|p: Seq<u8>| text_of(p));
    assert(texts.len() == 1);
    assert(texts[0] == text_of(root));
}

proof fn lemma_with_split_roots(list: Seq<Seq<u8>>, bases: Seq<Seq<u8>>, i: int)
    requires
        0 <= i < bases.len(),
    ensures
        ({
            let longer = with_split_roots(list, bases);
            &&& holds_path(longer, below(below(bases[i], "lib"), "gap"))
            &&& holds_path(longer, below(below(bases[i], "share"), "gap"))
        }),
    decreases bases.len(),
{
    let before = with_split_roots(list, bases.drop_last());
    let base = bases.last();
    let lib = below(below(base, "lib"), "gap");
    let share = below(below(base, "share"), "gap");
    let middle = with_path(before, lib);
    law_with_path(before, lib);
    law_with_path(middle, share);
    if i < bases.len() - 1 {
        lemma_with_split_roots(list, bases.drop_last(), i);
        lemma_still_held(before, middle, below(below(bases[i], "lib"), "gap"));
        lemma_still_held(before, middle, below(below(bases[i], "share"), "gap"));
        lemma_still_held(
            middle,
            with_path(middle, share),
            below(below(bases[i], "lib"), "gap"),
        );
        lemma_still_held(
            middle,
            with_path(middle, share),
            below(below(bases[i], "share"), "gap"),
        );
    } else {
        lemma_still_held(middle, with_path(middle, share), lib);
    }
}

proof fn lemma_still_held(list: Seq<Seq<u8>>, longer: Seq<Seq<u8>>, p: Seq<u8>)
    requires
        extends(list, longer),
        holds_path(list, p),
    ensures
        holds_path(longer, p),
{
    let i = choose|i: int| 0 <= i < list.len() && #[trigger] same_path(list[i], p);
    assert(same_path(longer[i], p));
}

proof fn lemma_runtime_root_listed(
    tree: TreeView,
    list: Seq<Seq<u8>>,
    candidates: Seq<Seq<u8>>,
    i: int,
)
    requires
        0 <= i < candidates.len(),
        is_runtime_root(tree, candidates[i]),
    ensures
        holds_path(with_runtime_roots(tree, list, candidates), candidates[i]),
    decreases candidates.len(),
{
    let before = with_runtime_roots(tree, list, candidates.drop_last());
    law_with_path(before, candidates.last());
    if i < candidates.len() - 1 {
        lemma_runtime_root_listed(tree, list, candidates.drop_last(), i);
        lemma_still_held(
            before,
            with_runtime_roots(tree, list, candidates),
            candidates[i],
        );
    }
}

/// Every candidate that is a runtime root is passed to GAP, which makes the packages of
/// a split installation available.
pub proof fn law_split_roots_passed(tree: TreeView, root: Seq<u8>, i: int)
    requires
        0 <= i < inferred_of(root).len(),
        is_runtime_root(tree, inferred_of(root)[i]),
    ensures
        holds_path(root_list(tree, root), inferred_of(root)[i]),
{
    let none: Seq<Seq<u8>> = seq![];
    lemma_runtime_root_listed(tree, with_path(none, root), inferred_of(root), i);
}

/// The siblings `lib/gap` and `share/gap` of every near ancestor below the file system's
/// root are candidates.
pub proof fn law_split_candidates(root: Seq<u8>, i: int)
    requires
        0 <= i < bases_of(root).len(),
    ensures
        holds_path(inferred_of(root), below(below(bases_of(root)[i], "lib"), "gap")),
        holds_path(inferred_of(root), below(below(bases_of(root)[i], "share"), "gap")),
{
    lemma_with_split_roots(seq![], bases_of(root), i);
}

}
