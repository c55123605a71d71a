//! Where to look in the file system, so that what was seen decides.
//!
//! Discovery and the root list read the file system only at the paths that the
//! functions here list, and at the entries of the directories among them. Whoever
//! looks there has seen all that matters.

use crate::discovery_laws::{law_candidates, law_inferred_libraries};
use crate::discovery_spec::{
    candidates_of, config_at, discovery, first_core_line, first_core_root, first_directory_line,
    has_headers, header_dirs_of, holds_libgap, init_file, is_core_root, layout_of, library_dirs_of,
    nonempty, path_entries, path_on_line, root_in_output, root_query, some_hold_libgap,
    source_header_dirs, with_header_prefix, with_library_children, with_library_dir,
    with_library_dirs_under, EnvView, OutcomeView, StepView,
};
use crate::gap_config::{
    bytes_view, gap_root_candidates, nonempty_path, parse_gap_root_line, parse_path_list,
    CommandOutcome, DiscoveryEnv,
};
use crate::path::{below, holds_path, joined, parent_of, with_path, PosixPath};
use crate::runtime_roots::{inferred_of, inferred_runtime_roots, root_arg_text, with_runtime_roots};
use crate::text::{lines, split_lines, text_of, utf8_lossy};
use crate::tree::TreeView;
use vstd::prelude::*;

verus! {

// --- Where to look ---
/// The headers in `dir`.
pub open spec fn header_paths(dir: Seq<u8>) -> Seq<Seq<u8>> {
    seq![below(dir, "libgap-api.h"), below(dir, "gap_all.h")]
}

/// The headers in `dir`, in either layout.
pub open spec fn layout_paths(dir: Seq<u8>) -> Seq<Seq<u8>> {
    header_paths(dir) + header_paths(below(dir, "gap"))
}

/// What is looked at around a root: its core file, and its header and library directories.
#[verifier::opaque]
pub open spec fn paths_around(root: Seq<u8>) -> Seq<Seq<u8>> {
    seq![init_file(root), root, below(root, "lib"), below(root, "build")] + layout_paths(
        below(root, "src"),
    ) + layout_paths(below(root, "build")) + layout_paths(below(root, "include")) + (
    match parent_of(root) {
        Some(parent) => paths_around_parent(parent),
        None => seq![],
    })
}

/// What is looked at around the parent of a root.
#[verifier::opaque]
pub open spec fn paths_around_parent(parent: Seq<u8>) -> Seq<Seq<u8>> {
    seq![parent, below(parent, "lib")] + layout_paths(below(parent, "include")) + (match parent_of(
        parent,
    ) {
        Some(prefix) => seq![below(prefix, "lib"), below(prefix, "lib64")] + layout_paths(
            below(prefix, "include"),
        ),
        None => seq![],
    })
}

/// What is looked at around each of the roots.
pub open spec fn paths_around_all(roots: Seq<Seq<u8>>) -> Seq<Seq<u8>>
    decreases roots.len(),
{
    if roots.len() == 0 {
        seq![]
    } else {
        paths_around_all(roots.drop_last()) + paths_around(roots.last())
    }
}

/// What is looked at for each root that was set or printed: all around its candidates.
pub open spec fn paths_near(starts: Seq<Seq<u8>>) -> Seq<Seq<u8>>
    decreases starts.len(),
{
    if starts.len() == 0 {
        seq![]
    } else {
        paths_near(starts.drop_last()) + paths_around_all(candidates_of(starts.last()))
    }
}

/// The paths on the lines.
pub open spec fn paths_on_lines(rows: Seq<Seq<char>>) -> Seq<Seq<u8>>
    decreases rows.len(),
{
    if rows.len() == 0 {
        seq![]
    } else {
        let before = paths_on_lines(rows.drop_last());
        match path_on_line(rows.last()) {
            Some(p) => before.push(p),
            None => before,
        }
    }
}

/// The paths in what the commands printed.
pub open spec fn printed_paths(outcomes: Seq<OutcomeView>) -> Seq<Seq<u8>>
    decreases outcomes.len(),
{
    if outcomes.len() == 0 {
        seq![]
    } else {
        let before = printed_paths(outcomes.drop_last());
        match outcomes.last() {
            OutcomeView::Exited { success: _, status: _, stdout } => before + paths_on_lines(
                split_lines(text_of(stdout)),
            ),
            OutcomeView::Failed { error: _ } => before,
        }
    }
}

/// The roots that were set or printed.
pub open spec fn start_paths(env: EnvView, outcomes: Seq<OutcomeView>) -> Seq<Seq<u8>> {
    match nonempty(env.root) {
        Some(root) => seq![root],
        None => printed_paths(outcomes),
    }
}

/// The headers in each of the directories, in either layout.
pub open spec fn all_layout_paths(dirs: Seq<Seq<u8>>) -> Seq<Seq<u8>>
    decreases dirs.len(),
{
    if dirs.len() == 0 {
        seq![]
    } else {
        all_layout_paths(dirs.drop_last()) + layout_paths(dirs.last())
    }
}

/// The directories in a setting, if it is there.
pub open spec fn set_dirs(setting: Option<Seq<u8>>, separator: u8) -> Seq<Seq<u8>> {
    match setting {
        Some(list) => path_entries(list, separator),
        None => seq![],
    }
}

/// Where discovery looks.
pub open spec fn discovery_paths(env: EnvView, outcomes: Seq<OutcomeView>) -> Seq<Seq<u8>> {
    paths_near(start_paths(env, outcomes)) + all_layout_paths(
        set_dirs(env.include_dirs, env.list_separator),
    ) + set_dirs(env.lib_dirs, env.list_separator)
}

/// Where the root list looks besides the root: at the core file and the packages of each
/// candidate.
pub open spec fn candidate_paths(candidates: Seq<Seq<u8>>) -> Seq<Seq<u8>>
    decreases candidates.len(),
{
    if candidates.len() == 0 {
        seq![]
    } else {
        candidate_paths(candidates.drop_last()) + seq![
            init_file(candidates.last()),
            below(candidates.last(), "pkg"),
        ]
    }
}

/// Where starting GAP at `root` looks.
pub open spec fn runtime_paths(root: Seq<u8>) -> Seq<Seq<u8>> {
    seq![init_file(root)] + candidate_paths(inferred_of(root))
}

// --- Looking there is enough ---
/// Whether two views of the file system say the same of `p` and of its entries.
pub open spec fn agree_at(t: TreeView, u: TreeView, p: Seq<u8>) -> bool {
    &&& t.is_file(p) == u.is_file(p)
    &&& t.is_dir(p) == u.is_dir(p)
    &&& t.listing(p) == u.listing(p)
    &&& t.listing(p) matches Some(names) ==> forall|i: int|
        0 <= i < names.len() ==> {
            &&& t.is_dir(#[trigger] joined(p, names[i])) == u.is_dir(joined(p, names[i]))
            &&& t.listing(joined(p, names[i])) == u.listing(joined(p, names[i]))
        }
}

/// Whether two views of the file system say the same of each of the paths.
pub open spec fn agree_on(t: TreeView, u: TreeView, list: Seq<Seq<u8>>) -> bool {
    forall|i: int| 0 <= i < list.len() ==> agree_at(t, u, #[trigger] list[i])
}

proof fn lemma_agree_split(t: TreeView, u: TreeView, a: Seq<Seq<u8>>, b: Seq<Seq<u8>>)
    requires
        agree_on(t, u, a + b),
    ensures
        agree_on(t, u, a),
        agree_on(t, u, b),
{
    assert forall|i: int| 0 <= i < a.len() implies agree_at(t, u, #[trigger] a[i]) by {
        assert((a + b)[i] == a[i]);
    }
    assert forall|i: int| 0 <= i < b.len() implies agree_at(t, u, #[trigger] b[i]) by {
        assert((a + b)[a.len() + i] == b[i]);
    }
}

/// Whether both views say the same of the headers in `dir`.
spec fn same_headers(t: TreeView, u: TreeView, dir: Seq<u8>) -> bool {
    &&& has_headers(t, dir) == has_headers(u, dir)
    &&& has_headers(t, below(dir, "gap")) == has_headers(u, below(dir, "gap"))
}

proof fn lemma_layout_paths(t: TreeView, u: TreeView, dir: Seq<u8>)
    requires
        agree_on(t, u, layout_paths(dir)),
    ensures
        same_headers(t, u, dir),
{
    lemma_agree_split(t, u, header_paths(dir), header_paths(below(dir, "gap")));
    assert(agree_at(t, u, header_paths(dir)[0]));
    assert(agree_at(t, u, header_paths(dir)[1]));
    assert(agree_at(t, u, header_paths(below(dir, "gap"))[0]));
    assert(agree_at(t, u, header_paths(below(dir, "gap"))[1]));
}

/// Whether both views say the same of the headers in each of the directories.
spec fn same_headers_in(t: TreeView, u: TreeView, dirs: Seq<Seq<u8>>) -> bool {
    forall|i: int| 0 <= i < dirs.len() ==> same_headers(t, u, #[trigger] dirs[i])
}

proof fn lemma_same_layout(t: TreeView, u: TreeView, dirs: Seq<Seq<u8>>)
    requires
        same_headers_in(t, u, dirs),
    ensures
        layout_of(t, dirs) == layout_of(u, dirs),
{
    assert(forall|i: int|
        0 <= i < dirs.len() ==> has_headers(t, below(#[trigger] dirs[i], "gap")) == has_headers(
            u,
            below(dirs[i], "gap"),
        ));
    assert(forall|i: int|
        0 <= i < dirs.len() ==> has_headers(t, #[trigger] dirs[i]) == has_headers(u, dirs[i]));
}

proof fn lemma_all_layout_paths(t: TreeView, u: TreeView, dirs: Seq<Seq<u8>>)
    requires
        agree_on(t, u, all_layout_paths(dirs)),
    ensures
        same_headers_in(t, u, dirs),
    decreases dirs.len(),
{
    if dirs.len() > 0 {
        lemma_agree_split(t, u, all_layout_paths(dirs.drop_last()), layout_paths(dirs.last()));
        lemma_all_layout_paths(t, u, dirs.drop_last());
        lemma_layout_paths(t, u, dirs.last());
        assert forall|i: int| 0 <= i < dirs.len() implies same_headers(t, u, #[trigger] dirs[i]) by {
            if i < dirs.len() - 1 {
                assert(dirs.drop_last()[i] == dirs[i]);
            }
        }
    }
}

proof fn lemma_with_prefix(t: TreeView, u: TreeView, list: Seq<Seq<u8>>, dir: Seq<u8>)
    requires
        same_headers_in(t, u, list),
        same_headers(t, u, dir),
    ensures
        with_header_prefix(t, list, dir) == with_header_prefix(u, list, dir),
        same_headers_in(t, u, with_header_prefix(t, list, dir)),
{
}

/// Both views give the same library directories below `dir`.
proof fn lemma_library_dirs_under(
    t: TreeView,
    u: TreeView,
    list: Seq<Seq<u8>>,
    dir: Seq<u8>,
)
    requires
        agree_at(t, u, dir),
    ensures
        with_library_dir(t, list, dir) == with_library_dir(u, list, dir),
        with_library_dirs_under(t, list, dir) == with_library_dirs_under(u, list, dir),
{
    if let Some(names) = t.listing(dir) {
        lemma_library_children(t, u, with_library_dir(t, list, dir), dir, names, names.len() as int);
        assert(names.take(names.len() as int) =~= names);
    }
}

proof fn lemma_library_children(
    t: TreeView,
    u: TreeView,
    list: Seq<Seq<u8>>,
    dir: Seq<u8>,
    names: Seq<Seq<u8>>,
    n: int,
)
    requires
        agree_at(t, u, dir),
        t.listing(dir) == Some(names),
        0 <= n <= names.len(),
    ensures
        with_library_children(t, list, dir, names.take(n)) == with_library_children(
            u,
            list,
            dir,
            names.take(n),
        ),
    decreases n,
{
    if n > 0 {
        lemma_library_children(t, u, list, dir, names, n - 1);
        assert(names.take(n).drop_last() =~= names.take(n - 1));
        assert(names.take(n).last() == names[n - 1]);
        let child = joined(dir, names[n - 1]);
        assert(t.is_dir(child) == u.is_dir(child) && t.listing(child) == u.listing(child));
    }
}

/// The pieces of what is looked at around a root.
proof fn lemma_paths_around(t: TreeView, u: TreeView, root: Seq<u8>)
    requires
        agree_on(t, u, paths_around(root)),
    ensures
        is_core_root(t, root) == is_core_root(u, root),
        agree_at(t, u, root),
        agree_at(t, u, below(root, "lib")),
        agree_at(t, u, below(root, "build")),
        same_headers(t, u, below(root, "src")),
        same_headers(t, u, below(root, "build")),
        same_headers(t, u, below(root, "include")),
        parent_of(root) matches Some(parent) ==> agree_on(t, u, paths_around_parent(parent)),
{
    reveal(paths_around);
    let first = seq![init_file(root), root, below(root, "lib"), below(root, "build")];
    let source = layout_paths(below(root, "src"));
    let build = layout_paths(below(root, "build"));
    let installed = layout_paths(below(root, "include"));
    let rest = match parent_of(root) {
        Some(parent) => paths_around_parent(parent),
        None => seq![],
    };
    lemma_agree_split(t, u, first + source + build + installed, rest);
    lemma_agree_split(t, u, first + source + build, installed);
    lemma_agree_split(t, u, first + source, build);
    lemma_agree_split(t, u, first, source);
    lemma_layout_paths(t, u, below(root, "src"));
    lemma_layout_paths(t, u, below(root, "build"));
    lemma_layout_paths(t, u, below(root, "include"));
    assert(agree_at(t, u, first[0]));
    assert(agree_at(t, u, first[1]));
    assert(agree_at(t, u, first[2]));
    assert(agree_at(t, u, first[3]));
}

/// The pieces of what is looked at around a root's parent.
proof fn lemma_paths_around_parent(t: TreeView, u: TreeView, parent: Seq<u8>)
    requires
        agree_on(t, u, paths_around_parent(parent)),
    ensures
        agree_at(t, u, parent),
        agree_at(t, u, below(parent, "lib")),
        same_headers(t, u, below(parent, "include")),
        parent_of(parent) matches Some(prefix) ==> agree_at(t, u, below(prefix, "lib"))
            && agree_at(t, u, below(prefix, "lib64")) && same_headers(
            t,
            u,
            below(prefix, "include"),
        ),
{
    reveal(paths_around_parent);
    let first = seq![parent, below(parent, "lib")];
    let installed = layout_paths(below(parent, "include"));
    match parent_of(parent) {
        Some(prefix) => {
            let dirs = seq![below(prefix, "lib"), below(prefix, "lib64")];
            let prefix_include = layout_paths(below(prefix, "include"));
            lemma_agree_split(t, u, first + installed, dirs + prefix_include);
            lemma_agree_split(t, u, dirs, prefix_include);
            lemma_layout_paths(t, u, below(prefix, "include"));
            assert(agree_at(t, u, dirs[0]));
            assert(agree_at(t, u, dirs[1]));
        },
        None => {
            lemma_agree_split(t, u, first + installed, seq![]);
        },
    }
    lemma_agree_split(t, u, first, installed);
    lemma_layout_paths(t, u, below(parent, "include"));
    assert(agree_at(t, u, first[0]));
    assert(agree_at(t, u, first[1]));
}

/// Both views give the same header directories for a root.
proof fn lemma_header_dirs(t: TreeView, u: TreeView, root: Seq<u8>)
    requires
        agree_on(t, u, paths_around(root)),
    ensures
        header_dirs_of(t, root) == header_dirs_of(u, root),
        layout_of(t, header_dirs_of(t, root)) == layout_of(u, header_dirs_of(t, root)),
{
    lemma_paths_around(t, u, root);
    let none: Seq<Seq<u8>> = seq![];
    let source = below(root, "src");
    let build = below(root, "build");
    let at_source = source_header_dirs(t, root);
    assert(at_source == source_header_dirs(u, root));
    assert(same_headers_in(t, u, at_source)) by {
        assert(!holds_path(none, source));
        assert(same_headers_in(t, u, with_path(none, source)));
    }
    lemma_with_prefix(t, u, at_source, below(root, "include"));
    let at_root = with_header_prefix(t, at_source, below(root, "include"));
    if let Some(parent) = parent_of(root) {
        lemma_paths_around_parent(t, u, parent);
        lemma_with_prefix(t, u, at_root, below(parent, "include"));
        let at_parent = with_header_prefix(t, at_root, below(parent, "include"));
        if let Some(prefix) = parent_of(parent) {
            lemma_with_prefix(t, u, at_parent, below(prefix, "include"));
        }
    }
    lemma_same_layout(t, u, header_dirs_of(t, root));
}

/// Both views give the same library directories for a root.
proof fn lemma_library_dirs(t: TreeView, u: TreeView, root: Seq<u8>)
    requires
        agree_on(t, u, paths_around(root)),
    ensures
        library_dirs_of(t, root) == library_dirs_of(u, root),
        some_hold_libgap(t, library_dirs_of(t, root)) == some_hold_libgap(
            u,
            library_dirs_of(t, root),
        ),
{
    lemma_paths_around(t, u, root);
    let none: Seq<Seq<u8>> = seq![];
    lemma_library_dirs_under(t, u, none, root);
    let at = with_library_dir(t, none, root);
    lemma_library_dirs_under(t, u, at, below(root, "lib"));
    let at_root = with_library_dirs_under(t, at, below(root, "lib"));
    if let Some(parent) = parent_of(root) {
        lemma_paths_around_parent(t, u, parent);
        lemma_library_dirs_under(t, u, at_root, parent);
        let near = with_library_dir(t, at_root, parent);
        lemma_library_dirs_under(t, u, near, below(parent, "lib"));
        let at_parent = with_library_dirs_under(t, near, below(parent, "lib"));
        if let Some(prefix) = parent_of(parent) {
            lemma_library_dirs_under(t, u, at_parent, below(prefix, "lib"));
            let at_lib = with_library_dirs_under(t, at_parent, below(prefix, "lib"));
            lemma_library_dirs_under(t, u, at_lib, below(prefix, "lib64"));
        }
    }
    law_inferred_libraries(t, root);
    law_inferred_libraries(u, root);
    let dirs = library_dirs_of(t, root);
    if dirs.len() > 0 {
        assert(holds_libgap(t, dirs[0]));
        assert(holds_libgap(u, library_dirs_of(u, root)[0]));
    }
}

proof fn lemma_around_all(t: TreeView, u: TreeView, roots: Seq<Seq<u8>>, i: int)
    requires
        agree_on(t, u, paths_around_all(roots)),
        0 <= i < roots.len(),
    ensures
        agree_on(t, u, paths_around(roots[i])),
    decreases roots.len(),
{
    lemma_agree_split(t, u, paths_around_all(roots.drop_last()), paths_around(roots.last()));
    if i < roots.len() - 1 {
        lemma_around_all(t, u, roots.drop_last(), i);
        assert(roots.drop_last()[i] == roots[i]);
    }
}

proof fn lemma_near(t: TreeView, u: TreeView, starts: Seq<Seq<u8>>, i: int)
    requires
        agree_on(t, u, paths_near(starts)),
        0 <= i < starts.len(),
    ensures
        agree_on(t, u, paths_around_all(candidates_of(starts[i]))),
    decreases starts.len(),
{
    lemma_agree_split(
        t,
        u,
        paths_near(starts.drop_last()),
        paths_around_all(candidates_of(starts.last())),
    );
    if i < starts.len() - 1 {
        lemma_near(t, u, starts.drop_last(), i);
        assert(starts.drop_last()[i] == starts[i]);
    }
}

/// Both views find the same core root among candidates, and it is one of them.
proof fn lemma_first_core_root_agrees(t: TreeView, u: TreeView, candidates: Seq<Seq<u8>>)
    requires
        forall|i: int|
            0 <= i < candidates.len() ==> is_core_root(t, #[trigger] candidates[i])
                == is_core_root(u, candidates[i]),
    ensures
        first_core_root(t, candidates) == first_core_root(u, candidates),
        first_core_root(t, candidates) matches Some(found) ==> candidates.contains(found),
    decreases candidates.len(),
{
    if candidates.len() > 0 {
        let rest = candidates.skip(1);
        assert(is_core_root(t, candidates[0]) == is_core_root(u, candidates[0]));
        assert forall|i: int| 0 <= i < rest.len() implies is_core_root(t, #[trigger] rest[i])
            == is_core_root(u, rest[i]) by {
            assert(rest[i] == candidates[i + 1]);
        }
        lemma_first_core_root_agrees(t, u, rest);
        if let Some(found) = first_core_root(t, candidates) {
            if !is_core_root(t, candidates[0]) {
                let i = rest.index_of(found);
                assert(candidates[i + 1] == found);
            }
        }
    }
}

/// Both views give the same configuration around a root that was set or printed.
proof fn lemma_config_agrees(env: EnvView, t: TreeView, u: TreeView, start: Seq<u8>)
    requires
        agree_on(t, u, paths_around_all(candidates_of(start))),
        agree_on(t, u, all_layout_paths(set_dirs(env.include_dirs, env.list_separator))),
        agree_on(t, u, set_dirs(env.lib_dirs, env.list_separator)),
    ensures
        config_at(env, t, start) == config_at(env, u, start),
{
    let candidates = candidates_of(start);
    assert forall|i: int| 0 <= i < candidates.len() implies is_core_root(t, #[trigger] candidates[i])
        == is_core_root(u, candidates[i]) by {
        lemma_around_all(t, u, candidates, i);
        lemma_paths_around(t, u, candidates[i]);
    }
    lemma_first_core_root_agrees(t, u, candidates);
    if let Some(root) = first_core_root(t, candidates) {
        let i = candidates.index_of(root);
        lemma_around_all(t, u, candidates, i);
        lemma_header_dirs(t, u, root);
        lemma_library_dirs(t, u, root);
        lemma_set_dirs(env, t, u);
    }
}

/// Both views say the same of directories that were set.
proof fn lemma_set_dirs(env: EnvView, t: TreeView, u: TreeView)
    requires
        agree_on(t, u, all_layout_paths(set_dirs(env.include_dirs, env.list_separator))),
        agree_on(t, u, set_dirs(env.lib_dirs, env.list_separator)),
    ensures
        layout_of(t, set_dirs(env.include_dirs, env.list_separator)) == layout_of(
            u,
            set_dirs(env.include_dirs, env.list_separator),
        ),
        some_hold_libgap(t, set_dirs(env.lib_dirs, env.list_separator)) == some_hold_libgap(
            u,
            set_dirs(env.lib_dirs, env.list_separator),
        ),
{
    lemma_all_layout_paths(t, u, set_dirs(env.include_dirs, env.list_separator));
    lemma_same_layout(t, u, set_dirs(env.include_dirs, env.list_separator));
    let dirs = set_dirs(env.lib_dirs, env.list_separator);
    assert(forall|i: int|
        0 <= i < dirs.len() ==> holds_libgap(t, #[trigger] dirs[i]) == holds_libgap(u, dirs[i]));
}

proof fn lemma_listed_line(rows: Seq<Seq<char>>, i: int)
    requires
        0 <= i < rows.len(),
    ensures
        path_on_line(rows[i]) matches Some(p) ==> paths_on_lines(rows).contains(p),
    decreases rows.len(),
{
    if let Some(p) = path_on_line(rows[i]) {
        let before = paths_on_lines(rows.drop_last());
        let all = paths_on_lines(rows);
        if i == rows.len() - 1 {
            assert(all[before.len() as int] == p);
        } else {
            lemma_listed_line(rows.drop_last(), i);
            assert(rows.drop_last()[i] == rows[i]);
            let j = before.index_of(p);
            assert(all[j] == p);
        }
    }
}

proof fn lemma_printed(outcomes: Seq<OutcomeView>, j: int, p: Seq<u8>)
    requires
        0 <= j < outcomes.len(),
        outcomes[j] matches OutcomeView::Exited { success: _, status: _, stdout }
            && paths_on_lines(split_lines(text_of(stdout))).contains(p),
    ensures
        printed_paths(outcomes).contains(p),
    decreases outcomes.len(),
{
    let before = printed_paths(outcomes.drop_last());
    let all = printed_paths(outcomes);
    if j == outcomes.len() - 1 {
        if let OutcomeView::Exited { success: _, status: _, stdout } = outcomes[j] {
            let found = paths_on_lines(split_lines(text_of(stdout)));
            let i = found.index_of(p);
            assert(all[before.len() + i] == p);
        }
    } else {
        assert(outcomes.drop_last()[j] == outcomes[j]);
        lemma_printed(outcomes.drop_last(), j, p);
        let i = before.index_of(p);
        assert(all[i] == p);
    }
}

/// Whether both views say the same of the root that a line gives.
spec fn same_line(t: TreeView, u: TreeView, row: Seq<char>) -> bool {
    path_on_line(row) matches Some(p) ==> is_core_root(t, p) == is_core_root(u, p) && t.is_dir(p)
        == u.is_dir(p)
}

proof fn lemma_lines_agree(t: TreeView, u: TreeView, rows: Seq<Seq<char>>)
    requires
        forall|i: int| 0 <= i < rows.len() ==> same_line(t, u, #[trigger] rows[i]),
    ensures
        first_core_line(t, rows) == first_core_line(u, rows),
        first_directory_line(t, rows) == first_directory_line(u, rows),
        first_core_line(t, rows) matches Some(p) ==> paths_on_lines(rows).contains(p),
        first_directory_line(t, rows) matches Some(p) ==> paths_on_lines(rows).contains(p),
    decreases rows.len(),
{
    if rows.len() > 0 {
        let rest = rows.skip(1);
        assert(same_line(t, u, rows[0]));
        assert forall|i: int| 0 <= i < rest.len() implies same_line(t, u, #[trigger] rest[i]) by {
            assert(rest[i] == rows[i + 1]);
        }
        lemma_lines_agree(t, u, rest);
        lemma_listed_line(rows, 0);
        assert forall|p: Seq<u8>| paths_on_lines(rest).contains(p) implies #[trigger] paths_on_lines(
            rows,
        ).contains(p) by {
            lemma_rest_listed(rows, p);
        }
    }
}

proof fn lemma_rest_listed(rows: Seq<Seq<char>>, p: Seq<u8>)
    requires
        rows.len() > 0,
        paths_on_lines(rows.skip(1)).contains(p),
    ensures
        paths_on_lines(rows).contains(p),
    decreases rows.len(),
{
    let rest = rows.skip(1);
    if rest.len() > 0 {
        let before = paths_on_lines(rest.drop_last());
        assert(rows.drop_last().skip(1) =~= rest.drop_last());
        assert(rest.last() == rows.last());
        if before.contains(p) {
            lemma_rest_listed(rows.drop_last(), p);
            let all = paths_on_lines(rows.drop_last());
            let i = all.index_of(p);
            assert(paths_on_lines(rows)[i] == p);
        } else {
            let i = paths_on_lines(rest).index_of(p);
            assert(i >= before.len()) by {
                if i < before.len() {
                    assert(before[i] == p);
                }
            }
            assert(path_on_line(rows.last()) == Some(p));
            lemma_listed_line(rows, rows.len() - 1);
        }
    }
}

/// Both views find the same root in a command's output, and it is one of the paths
/// that were printed.
proof fn lemma_output_agrees(
    t: TreeView,
    u: TreeView,
    outcomes: Seq<OutcomeView>,
    j: int,
    stdout: Seq<u8>,
)
    requires
        0 <= j < outcomes.len(),
        outcomes[j] matches OutcomeView::Exited { success: _, status: _, stdout: printed }
            && printed == stdout,
        agree_on(t, u, paths_near(printed_paths(outcomes))),
    ensures
        root_in_output(t, stdout) == root_in_output(u, stdout),
        root_in_output(t, stdout) matches Some(p) ==> printed_paths(outcomes).contains(p),
{
    let rows = split_lines(text_of(stdout));
    let starts = printed_paths(outcomes);
    assert forall|i: int| 0 <= i < rows.len() implies same_line(t, u, #[trigger] rows[i]) by {
        if let Some(p) = path_on_line(rows[i]) {
            lemma_listed_line(rows, i);
            lemma_printed(outcomes, j, p);
            lemma_near(t, u, starts, starts.index_of(p));
            law_candidates(p);
            lemma_around_all(t, u, candidates_of(p), 0);
            lemma_paths_around(t, u, p);
        }
    }
    lemma_lines_agree(t, u, rows);
    if let Some(p) = root_in_output(t, stdout) {
        lemma_printed(outcomes, j, p);
    }
}

/// Both views give the same next step of the root query, and a root that it ends with is
/// one of the paths that were printed.
proof fn lemma_query_agrees(
    env: EnvView,
    outcomes: Seq<OutcomeView>,
    t: TreeView,
    u: TreeView,
)
    requires
        agree_on(t, u, paths_near(printed_paths(outcomes))),
    ensures
        root_query(env, outcomes, t) == root_query(env, outcomes, u),
        root_query(env, outcomes, t) matches StepView::Finished(Ok(root)) ==> printed_paths(
            outcomes,
        ).contains(root),
{
    if outcomes.len() > 0 {
        if let OutcomeView::Exited { success: _, status: _, stdout } = outcomes[0] {
            lemma_output_agrees(t, u, outcomes, 0, stdout);
        }
        if outcomes.len() > 1 {
            if let OutcomeView::Exited { success: _, status: _, stdout } = outcomes[1] {
                lemma_output_agrees(t, u, outcomes, 1, stdout);
            }
        }
    }
}

/// Discovery depends on the file system only through the paths that it lists and the
/// entries of the directories among them.
pub proof fn law_discovery_paths_decide(
    env: EnvView,
    outcomes: Seq<OutcomeView>,
    t: TreeView,
    u: TreeView,
)
    requires
        agree_on(t, u, discovery_paths(env, outcomes)),
    ensures
        discovery(env, outcomes, t) == discovery(env, outcomes, u),
{
    let starts = start_paths(env, outcomes);
    let layouts = all_layout_paths(set_dirs(env.include_dirs, env.list_separator));
    lemma_agree_split(t, u, paths_near(starts) + layouts, set_dirs(env.lib_dirs, env.list_separator));
    lemma_agree_split(t, u, paths_near(starts), layouts);
    match nonempty(env.root) {
        Some(root) => {
            assert(starts[0] == root);
            lemma_near(t, u, starts, 0);
            lemma_config_agrees(env, t, u, root);
        },
        None => {
            lemma_query_agrees(env, outcomes, t, u);
            if let StepView::Finished(Ok(root)) = root_query(env, outcomes, t) {
                lemma_near(t, u, starts, starts.index_of(root));
                lemma_config_agrees(env, t, u, root);
            }
        },
    }
}

proof fn lemma_candidates_agree(
    t: TreeView,
    u: TreeView,
    list: Seq<Seq<u8>>,
    candidates: Seq<Seq<u8>>,
)
    requires
        agree_on(t, u, candidate_paths(candidates)),
    ensures
        with_runtime_roots(t, list, candidates) == with_runtime_roots(u, list, candidates),
    decreases candidates.len(),
{
    if candidates.len() > 0 {
        let last = candidates.last();
        let own = seq![init_file(last), below(last, "pkg")];
        lemma_agree_split(t, u, candidate_paths(candidates.drop_last()), own);
        lemma_candidates_agree(t, u, list, candidates.drop_last());
        assert(agree_at(t, u, own[0]));
        assert(agree_at(t, u, own[1]));
    }
}

/// Starting GAP depends on the file system only through the paths that it lists.
pub proof fn law_runtime_paths_decide(root: Seq<u8>, t: TreeView, u: TreeView)
    requires
        agree_on(t, u, runtime_paths(root)),
    ensures
        is_core_root(t, root) == is_core_root(u, root),
        root_arg_text(t, root) == root_arg_text(u, root),
{
    let own = seq![init_file(root)];
    lemma_agree_split(t, u, own, candidate_paths(inferred_of(root)));
    assert(agree_at(t, u, own[0]));
    lemma_candidates_agree(t, u, with_path(seq![], root), inferred_of(root));
}

// --- The lists ---
/// Appends the paths of `more`.
fn append_paths(list: &mut Vec<PosixPath>, more: Vec<PosixPath>)
    ensures
        final(list).deep_view() == old(list).deep_view() + more.deep_view(),
{
    let mut more = more;
    let ghost added = more.deep_view();
    list.append(&mut more);
    assert(list.deep_view() =~= old(list).deep_view() + added);
}

/// Appends one path.
fn append_path(list: &mut Vec<PosixPath>, path: PosixPath)
    ensures
        final(list).deep_view() == old(list).deep_view().push(path@),
{
    list.push(path);
    assert(list.deep_view() =~= old(list).deep_view().push(path@));
}

/// Appends the headers in `dir`, in either layout.
fn append_layout_paths(list: &mut Vec<PosixPath>, dir: &PosixPath)
    ensures
        final(list).deep_view() == old(list).deep_view() + layout_paths(dir@),
{
    let installed = dir.join("gap");
    append_path(list, dir.join("libgap-api.h"));
    append_path(list, dir.join("gap_all.h"));
    append_path(list, installed.join("libgap-api.h"));
    append_path(list, installed.join("gap_all.h"));
    assert(list.deep_view() =~= old(list).deep_view() + layout_paths(dir@));
}

/// Appends what is looked at around the parent of a root.
fn append_paths_around_parent(list: &mut Vec<PosixPath>, parent: &PosixPath)
    ensures
        final(list).deep_view() == old(list).deep_view() + paths_around_parent(parent@),
{
    let ghost start = list.deep_view();
    append_path(list, parent.clone());
    append_path(list, parent.join("lib"));
    append_layout_paths(list, &parent.join("include"));
    let ghost own = seq![parent@, below(parent@, "lib")] + layout_paths(below(parent@, "include"));
    assert(list.deep_view() =~= start + own);
    if let Some(prefix) = parent.parent() {
        append_path(list, prefix.join("lib"));
        append_path(list, prefix.join("lib64"));
        append_layout_paths(list, &prefix.join("include"));
        assert(list.deep_view() =~= start + (own + (seq![
            below(prefix@, "lib"),
            below(prefix@, "lib64"),
        ] + layout_paths(below(prefix@, "include")))));
    } else {
        assert(own + Seq::<Seq<u8>>::empty() =~= own);
    }
    reveal(paths_around_parent);
}

/// Appends what is looked at around a root.
fn append_paths_around(list: &mut Vec<PosixPath>, root: &PosixPath)
    ensures
        final(list).deep_view() == old(list).deep_view() + paths_around(root@),
{
    let ghost start = list.deep_view();
    append_path(list, root.join("lib").join("init.g"));
    append_path(list, root.clone());
    append_path(list, root.join("lib"));
    append_path(list, root.join("build"));
    let ghost first = seq![
        init_file(root@),
        root@,
        below(root@, "lib"),
        below(root@, "build"),
    ];
    assert(list.deep_view() =~= start + first);
    append_layout_paths(list, &root.join("src"));
    append_layout_paths(list, &root.join("build"));
    append_layout_paths(list, &root.join("include"));
    let ghost own = first + layout_paths(below(root@, "src")) + layout_paths(below(root@, "build"))
        + layout_paths(below(root@, "include"));
    assert(list.deep_view() =~= start + own);
    if let Some(parent) = root.parent() {
        append_paths_around_parent(list, &parent);
        assert(list.deep_view() =~= start + (own + paths_around_parent(parent@)));
    } else {
        assert(own + Seq::<Seq<u8>>::empty() =~= own);
    }
    reveal(paths_around);
}

/// Appends what is looked at for a root that was set or printed.
fn append_paths_near(list: &mut Vec<PosixPath>, start: &PosixPath)
    ensures
        final(list).deep_view() == old(list).deep_view() + paths_around_all(candidates_of(start@)),
{
    let candidates = gap_root_candidates(start);
    let ghost all = candidates.deep_view();
    let ghost before = list.deep_view();
    let mut i: usize = 0;
    assert(all.take(0) =~= seq![]);
    assert(before + Seq::<Seq<u8>>::empty() =~= before);
    while i < candidates.len()
        invariant
            i <= candidates.len(),
            all == candidates.deep_view(),
            list.deep_view() == before + paths_around_all(all.take(i as int)),
        decreases candidates.len() - i,
    {
        append_paths_around(list, &candidates[i]);
        proof {
            assert(all.take(i + 1).drop_last() =~= all.take(i as int));
            assert(all.take(i + 1).last() == candidates@[i as int]@);
            assert(list.deep_view() =~= before + paths_around_all(all.take(i + 1)));
        }
        i = i + 1;
    }
    assert(all.take(i as int) =~= all);
}

/// The paths in what a command printed.
fn paths_in(stdout: &[u8]) -> (list: Vec<PosixPath>)
    ensures
        list.deep_view() == paths_on_lines(split_lines(text_of(stdout@))),
{
    let text = utf8_lossy(stdout);
    let rows = lines(text.as_str());
    let ghost all = rows.deep_view();
    let mut list: Vec<PosixPath> = Vec::new();
    let mut i: usize = 0;
    assert(all.take(0) =~= seq![]);
    assert(list.deep_view() =~= seq![]);
    while i < rows.len()
        invariant
            i <= rows.len(),
            all == rows.deep_view(),
            list.deep_view() == paths_on_lines(all.take(i as int)),
        decreases rows.len() - i,
    {
        assert(all.take(i + 1).drop_last() =~= all.take(i as int));
        assert(all.take(i + 1).last() == rows@[i as int]@);
        if let Some(path) = parse_gap_root_line(rows[i].as_str()) {
            append_path(&mut list, path);
        }
        i = i + 1;
    }
    assert(all.take(i as int) =~= all);
    list
}

/// The roots that were set or printed.
fn starts(env: &DiscoveryEnv, outcomes: &Vec<CommandOutcome>) -> (list: Vec<PosixPath>)
    ensures
        list.deep_view() == start_paths(env.deep_view(), outcomes.deep_view()),
{
    let mut list: Vec<PosixPath> = Vec::new();
    assert(list.deep_view() =~= seq![]);
    if let Some(root) = nonempty_path(&env.root) {
        append_path(&mut list, root);
        assert(list.deep_view() =~= seq![root@]);
        return list;
    }
    let ghost all = outcomes.deep_view();
    let mut i: usize = 0;
    assert(all.take(0) =~= seq![]);
    while i < outcomes.len()
        invariant
            i <= outcomes.len(),
            all == outcomes.deep_view(),
            list.deep_view() == printed_paths(all.take(i as int)),
        decreases outcomes.len() - i,
    {
        assert(all.take(i + 1).drop_last() =~= all.take(i as int));
        assert(all.take(i + 1).last() == outcomes@[i as int].deep_view());
        if let CommandOutcome::Exited { success: _, status: _, stdout } = &outcomes[i] {
            append_paths(&mut list, paths_in(stdout.as_slice()));
        }
        i = i + 1;
    }
    assert(all.take(i as int) =~= all);
    list
}

/// The directories in a setting, if it is there.
fn dirs_set(setting: &Option<Vec<u8>>, separator: u8) -> (list: Vec<PosixPath>)
    ensures
        list.deep_view() == set_dirs(bytes_view(*setting), separator),
{
    match setting {
        Some(paths) => parse_path_list(paths.as_slice(), separator),
        None => {
            let list: Vec<PosixPath> = Vec::new();
            assert(list.deep_view() =~= seq![]);
            list
        },
    }
}

/// The paths at which discovery looks, given how the commands ended that were run so
/// far.
pub fn paths_to_discover(env: &DiscoveryEnv, outcomes: &Vec<CommandOutcome>) -> (list: Vec<
    PosixPath,
>)
    ensures
        list.deep_view() == discovery_paths(env.deep_view(), outcomes.deep_view()),
{
    let mut list: Vec<PosixPath> = Vec::new();
    let roots = starts(env, outcomes);
    let ghost all = roots.deep_view();
    let mut i: usize = 0;
    assert(all.take(0) =~= seq![]);
    assert(list.deep_view() =~= seq![]);
    while i < roots.len()
        invariant
            i <= roots.len(),
            all == roots.deep_view(),
            list.deep_view() == paths_near(all.take(i as int)),
        decreases roots.len() - i,
    {
        assert(all.take(i + 1).drop_last() =~= all.take(i as int));
        assert(all.take(i + 1).last() == roots@[i as int]@);
        append_paths_near(&mut list, &roots[i]);
        i = i + 1;
    }
    assert(all.take(i as int) =~= all);
    let ghost near = list.deep_view();
    let header_dirs = dirs_set(&env.include_dirs, env.list_separator);
    let ghost all = header_dirs.deep_view();
    i = 0;
    assert(all.take(0) =~= seq![]);
    assert(near + Seq::<Seq<u8>>::empty() =~= near);
    while i < header_dirs.len()
        invariant
            i <= header_dirs.len(),
            all == header_dirs.deep_view(),
            list.deep_view() == near + all_layout_paths(all.take(i as int)),
        decreases header_dirs.len() - i,
    {
        append_layout_paths(&mut list, &header_dirs[i]);
        proof {
            assert(all.take(i + 1).drop_last() =~= all.take(i as int));
            assert(all.take(i + 1).last() == header_dirs@[i as int]@);
            assert(list.deep_view() =~= near + all_layout_paths(all.take(i + 1)));
        }
        i = i + 1;
    }
    assert(all.take(i as int) =~= all);
    append_paths(&mut list, dirs_set(&env.lib_dirs, env.list_separator));
    list
}

/// The paths at which starting GAP at `root` looks.
pub fn paths_to_start(root: &PosixPath) -> (list: Vec<PosixPath>)
    ensures
        list.deep_view() == runtime_paths(root@),
{
    let mut list: Vec<PosixPath> = Vec::new();
    append_path(&mut list, root.join("lib").join("init.g"));
    let candidates = inferred_runtime_roots(root);
    let ghost all = candidates.deep_view();
    let ghost own = seq![init_file(root@)];
    let mut i: usize = 0;
    assert(all.take(0) =~= seq![]);
    assert(list.deep_view() =~= own + candidate_paths(all.take(0)));
    while i < candidates.len()
        invariant
            i <= candidates.len(),
            all == candidates.deep_view(),
            list.deep_view() == own + candidate_paths(all.take(i as int)),
        decreases candidates.len() - i,
    {
        append_path(&mut list, candidates[i].join("lib").join("init.g"));
        append_path(&mut list, candidates[i].join("pkg"));
        proof {
            assert(all.take(i + 1).drop_last() =~= all.take(i as int));
            assert(all.take(i + 1).last() == candidates@[i as int]@);
            assert(list.deep_view() =~= own + candidate_paths(all.take(i + 1)));
        }
        i = i + 1;
    }
    assert(all.take(i as int) =~= all);
    list
}

}
