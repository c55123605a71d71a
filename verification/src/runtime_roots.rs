//! The root list with which GAP is started.

use crate::discovery_spec::is_core_root;
use crate::error::GapError;
use crate::gap_config::has_init_file;
use crate::path::{ancestors_of, below, parent_of, path_texts, push_unique, with_path, PosixPath};
use crate::text::{join_texts, joined_texts, text_of};
use crate::tree::{Tree, TreeView};
use vstd::prelude::*;
use vstd::string::*;

verus! {

/// The near ancestors of `root` below the file system's root.
pub open spec fn bases_of(root: Seq<u8>) -> Seq<Seq<u8>> {
    ancestors_of(root, 4).filter(|p: Seq<u8>| parent_of(p) is Some)
}

/// `list` with the `lib/gap` and `share/gap` below each of `bases`.
pub open spec fn with_split_roots(list: Seq<Seq<u8>>, bases: Seq<Seq<u8>>) -> Seq<Seq<u8>>
    decreases bases.len(),
{
    if bases.len() == 0 {
        list
    } else {
        let before = with_split_roots(list, bases.drop_last());
        let base = bases.last();
        with_path(
            with_path(before, below(below(base, "lib"), "gap")),
            below(below(base, "share"), "gap"),
        )
    }
}

/// The candidate runtime roots near `root`.
pub open spec fn inferred_of(root: Seq<u8>) -> Seq<Seq<u8>> {
    with_split_roots(seq![], bases_of(root))
}

/// Whether `p` is a core root, or a package root, which holds `pkg`.
pub open spec fn is_runtime_root(tree: TreeView, p: Seq<u8>) -> bool {
    is_core_root(tree, p) || tree.is_dir(below(p, "pkg"))
}

/// `list` with those of the candidates that are runtime roots.
pub open spec fn with_runtime_roots(
    tree: TreeView,
    list: Seq<Seq<u8>>,
    candidates: Seq<Seq<u8>>,
) -> Seq<Seq<u8>>
    decreases candidates.len(),
{
    if candidates.len() == 0 {
        list
    } else {
        let before = with_runtime_roots(tree, list, candidates.drop_last());
        if is_runtime_root(tree, candidates.last()) {
            with_path(before, candidates.last())
        } else {
            before
        }
    }
}

/// The roots with which GAP is started: `root`, then the runtime roots near it.
pub open spec fn root_list(tree: TreeView, root: Seq<u8>) -> Seq<Seq<u8>> {
    with_runtime_roots(tree, with_path(seq![], root), inferred_of(root))
}

/// The roots as GAP's `-l` option takes them: separated and ended by semicolons.
pub open spec fn root_arg_text(tree: TreeView, root: Seq<u8>) -> Seq<char> {
    joined_texts(root_list(tree, root).map_values(|p: Seq<u8>| text_of(p)), ";"@) + ";"@
}

/// Appends `path` if it has not already been seen.
pub fn push_unique_path(paths: &mut Vec<PosixPath>, path: PosixPath)
    ensures
        final(paths).deep_view() == with_path(old(paths).deep_view(), path@),
{
    push_unique(paths, path);
}

/// Returns nearby candidate runtime roots for split GAP installations.
///
/// The search walks a small number of ancestors and looks for sibling
/// `lib/gap` and `share/gap` directories without probing all the way to the
/// filesystem root.
pub fn inferred_runtime_roots(root: &PosixPath) -> (roots: Vec<PosixPath>)
    ensures
        roots.deep_view() == inferred_of(root@),
{
    let mut roots: Vec<PosixPath> = Vec::new();
    let bases = root.ancestors(4);
    let ghost all = bases.deep_view();
    let ghost keep = |p: Seq<u8>| parent_of(p) is Some;
    let mut i: usize = 0;
    proof {
        assert(all.take(0) =~= seq![]);
        reveal(Seq::filter);
        assert(roots.deep_view() =~= seq![]);
    }
    while i < bases.len()
        invariant
            i <= bases.len(),
            all == bases.deep_view(),
            keep == (|p: Seq<u8>| parent_of(p) is Some),
            roots.deep_view() == with_split_roots(seq![], all.take(i as int).filter(keep)),
        decreases bases.len() - i,
    {
        let base = &bases[i];
        proof {
            reveal(Seq::filter);
            assert(all.take(i + 1).drop_last() =~= all.take(i as int));
            assert(all.take(i + 1).last() == base@);
            let before = all.take(i as int).filter(keep);
            assert(before.push(base@).drop_last() =~= before);
        }
        if base.parent().is_some() {
            push_unique_path(&mut roots, base.join("lib").join("gap"));
            push_unique_path(&mut roots, base.join("share").join("gap"));
        }
        i = i + 1;
    }
    assert(all.take(i as int) =~= all);
    roots
}

/// Returns whether `root` looks useful in GAP's runtime root list.
///
/// A core root contains `lib/init.g`; a package-only root contains `pkg`.
pub fn is_gap_runtime_root(root: &PosixPath, tree: &Tree) -> (b: bool)
    ensures
        b == is_runtime_root(tree@, root@),
{
    has_init_file(tree, root) || tree.is_dir(&root.join("pkg"))
}

/// Builds the semicolon-terminated value passed to GAP's `-l` option.
///
/// The first entry is always `root`. Additional inferred roots are appended
/// when they look like valid GAP runtime or package roots, which supports
/// package-manager layouts that split core files from packages.
pub fn gap_root_arg(root: &PosixPath, tree: &Tree) -> (arg: String)
    ensures
        arg@ == root_arg_text(tree@, root@),
{
    let mut roots: Vec<PosixPath> = Vec::new();
    assert(roots.deep_view() =~= seq![]);
    push_unique_path(&mut roots, root.clone());
    let ghost start = roots.deep_view();
    let candidates = inferred_runtime_roots(root);
    let ghost all = candidates.deep_view();
    let mut i: usize = 0;
    assert(all.take(0) =~= seq![]);
    while i < candidates.len()
        invariant
            i <= candidates.len(),
            all == candidates.deep_view(),
            roots.deep_view() == with_runtime_roots(tree@, start, all.take(i as int)),
        decreases candidates.len() - i,
    {
        assert(all.take(i + 1).drop_last() =~= all.take(i as int));
        assert(all.take(i + 1).last() == candidates@[i as int]@);
        if is_gap_runtime_root(&candidates[i], tree) {
            push_unique_path(&mut roots, candidates[i].clone());
        }
        i = i + 1;
    }
    assert(all.take(i as int) =~= all);
    let texts = path_texts(&roots);
    let mut arg = join_texts(&texts, ";");
    arg.append(";");
    arg
}

/// Checks that `root` contains the core GAP initialization file.
pub fn validate_gap_root(root: &PosixPath, tree: &Tree) -> (result: Result<(), GapError>)
    ensures
        match result {
            Ok(_) => is_core_root(tree@, root@),
            Err(e) => !is_core_root(tree@, root@) && e is InvalidRoot && e->InvalidRoot_0@ == root@,
        },
{
    if has_init_file(tree, root) {
        Ok(())
    } else {
        Err(GapError::InvalidRoot(root.clone()))
    }
}

/// Returns the runtime GAP root selected by the environment or the build.
///
/// The environment's root wins. Otherwise the root found at build time is used.
pub fn default_gap_root(env_root: &Option<PosixPath>, build_root: &PosixPath) -> (root: PosixPath)
    ensures
        root@ == (match env_root {
            Some(path) => path@,
            None => build_root@,
        }),
{
    match env_root {
        Some(path) => path.clone(),
        None => build_root.clone(),
    }
}

}
