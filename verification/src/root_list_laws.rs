//! What holds of the places that are tried for a root, and of the root list with which GAP
//! is started.

use crate::discovery_laws::{law_resolved_root, law_split_candidates, law_split_roots_passed};
use crate::discovery_spec::{candidates_of, init_file, is_core_root, resolved_root, with_nearby};
use crate::path::{
    ancestors_of, below, holds_path, joined, parent_of, paths_text, same_path, with_path, SLASH,
};
use crate::path_laws::{is_part, law_holds_path, law_join_adds_part, law_tree_lookup};
use crate::runtime_roots::{
    bases_of, inferred_of, is_runtime_root, root_arg_text, root_list, with_runtime_roots,
    with_split_roots,
};
use crate::text::{joined_texts, text_of};
use crate::tree::TreeView;
use vstd::prelude::*;
use vstd::string::*;
use vstd::utf8::*;

verus! {

// --- Which roots count ---
/// A root is a core root if `lib/init.g` below it is a file, and useful at run time if it
/// is one or `pkg` below it is a directory.
pub proof fn law_what_makes_a_root(tree: TreeView, root: Seq<u8>)
    ensures
        init_file(root) == joined(joined(root, encode_utf8("lib"@)), encode_utf8("init.g"@)),
        is_core_root(tree, root) <==> tree.is_file(
            joined(joined(root, encode_utf8("lib"@)), encode_utf8("init.g"@)),
        ),
        is_runtime_root(tree, root) <==> {
            ||| tree.is_file(joined(joined(root, encode_utf8("lib"@)), encode_utf8("init.g"@)))
            ||| tree.is_dir(joined(root, encode_utf8("pkg"@)))
        },
{
}

// --- Candidates ---
/// The paths of a list in order, each only where no earlier one names the same path.
pub open spec fn without_repeats(list: Seq<Seq<u8>>) -> Seq<Seq<u8>>
    decreases list.len(),
{
    if list.len() == 0 {
        seq![]
    } else {
        let before = without_repeats(list.drop_last());
        if exists|i: int| 0 <= i < before.len() && same_path(#[trigger] before[i], list.last()) {
            before
        } else {
            before.push(list.last())
        }
    }
}

pub(crate) proof fn lemma_without_repeats(list: Seq<Seq<u8>>, p: Seq<u8>)
    ensures
        without_repeats(list.push(p)) == with_path(without_repeats(list), p),
{
    let longer = list.push(p);
    assert(longer.drop_last() =~= list);
    law_holds_path(without_repeats(list), p);
}

/// The `lib/gap` and the `share/gap` of a path and of the paths above it, nearest first,
/// at most `levels` of them and without those that have no parent.
pub open spec fn split_places(p: Seq<u8>, levels: nat) -> Seq<Seq<u8>>
    decreases levels,
{
    if levels == 0 {
        seq![]
    } else {
        match parent_of(p) {
            Some(above) => seq![
                joined(joined(p, encode_utf8("lib"@)), encode_utf8("gap"@)),
                joined(joined(p, encode_utf8("share"@)), encode_utf8("gap"@)),
            ] + split_places(above, (levels - 1) as nat),
            None => seq![],
        }
    }
}

proof fn lemma_split_places(p: Seq<u8>, levels: nat, earlier: Seq<Seq<u8>>)
    ensures
        with_split_roots(
            without_repeats(earlier),
            ancestors_of(p, levels).filter(|q: Seq<u8>| parent_of(q) is Some),
        ) == without_repeats(earlier + split_places(p, levels)),
    decreases levels,
{
    let keep = |q: Seq<u8>| parent_of(q) is Some;
    let list = without_repeats(earlier);
    if levels == 0 {
        assert(ancestors_of(p, levels).filter(keep) =~= seq![]) by {
            reveal(Seq::filter);
        }
        assert(earlier + split_places(p, levels) =~= earlier);
    } else {
        match parent_of(p) {
            Some(above) => {
                let lib = below(below(p, "lib"), "gap");
                let share = below(below(p, "share"), "gap");
                let rest = ancestors_of(above, (levels - 1) as nat);
                let bases = rest.filter(keep);
                let more = earlier.push(lib).push(share);
                lemma_filter_first(p, rest, keep);
                lemma_without_repeats(earlier, lib);
                lemma_without_repeats(earlier.push(lib), share);
                lemma_split_roots_first(list, p, bases);
                lemma_split_places(above, (levels - 1) as nat, more);
                assert(more + split_places(above, (levels - 1) as nat) =~= earlier + split_places(
                    p,
                    levels,
                ));
            },
            None => {
                assert(ancestors_of(p, levels) =~= seq![p]);
                assert(seq![p].filter(keep) =~= seq![]) by {
                    reveal(Seq::filter);
                    assert(seq![p].drop_last() =~= seq![]);
                    assert(seq![p].drop_last().filter(keep) =~= seq![]);
                }
                assert(earlier + split_places(p, levels) =~= earlier);
            },
        }
    }
}

proof fn lemma_filter_first(p: Seq<u8>, rest: Seq<Seq<u8>>, keep: spec_fn(Seq<u8>) -> bool)
    requires
        keep(p),
    ensures
        (seq![p] + rest).filter(keep) == seq![p] + rest.filter(keep),
{
    Seq::filter_distributes_over_add(seq![p], rest, keep);
    assert(seq![p].filter(keep) =~= seq![p]) by {
        reveal(Seq::filter);
        assert(seq![p].drop_last() =~= seq![]);
        assert(seq![p].drop_last().filter(keep) =~= seq![]);
    }
}

/// Bases from the first on.
proof fn lemma_split_roots_first(list: Seq<Seq<u8>>, p: Seq<u8>, bases: Seq<Seq<u8>>)
    ensures
        with_split_roots(list, seq![p] + bases) == with_split_roots(
            with_path(
                with_path(list, below(below(p, "lib"), "gap")),
                below(below(p, "share"), "gap"),
            ),
            bases,
        ),
    decreases bases.len(),
{
    let all = seq![p] + bases;
    if bases.len() == 0 {
        assert(all.drop_last() =~= seq![]);
        assert(all.last() == p);
        assert(with_split_roots(list, all.drop_last()) == list);
    } else {
        lemma_split_roots_first(list, p, bases.drop_last());
        assert(all.drop_last() =~= seq![p] + bases.drop_last());
        assert(all.last() == bases.last());
    }
}

/// The candidate runtime roots are the `lib/gap` and the `share/gap` of the root and of
/// its three nearest ancestors, as far as those have a parent: nearest first, `lib` before
/// `share`, none twice, and no others.
pub proof fn law_split_candidates_are_near(root: Seq<u8>)
    ensures
        inferred_of(root) == without_repeats(split_places(root, 4)),
{
    let none: Seq<Seq<u8>> = seq![];
    lemma_split_places(root, 4, none);
    assert(without_repeats(none) =~= none);
    assert(none + split_places(root, 4) =~= split_places(root, 4));
}

/// Whether `p` is the root or one of its three nearest ancestors.
pub open spec fn is_near(root: Seq<u8>, p: Seq<u8>) -> bool {
    ||| p == root
    ||| parent_of(root) == Some(p)
    ||| parent_of(root) matches Some(q) && parent_of(q) == Some(p)
    ||| parent_of(root) matches Some(q) && parent_of(q) matches Some(r) && parent_of(r) == Some(p)
}

/// The root and each of its three nearest ancestors that has a parent is a base for
/// candidates, and `lib/gap` and `share/gap` below it are candidates.
pub proof fn law_every_near_ancestor_counts(root: Seq<u8>, p: Seq<u8>)
    requires
        is_near(root, p),
        parent_of(p) is Some,
    ensures
        ancestors_of(root, 4).contains(p),
        bases_of(root).contains(p),
        holds_path(inferred_of(root), below(below(p, "lib"), "gap")),
        holds_path(inferred_of(root), below(below(p, "share"), "gap")),
{
    let list = ancestors_of(root, 4);
    reveal_with_fuel(ancestors_of, 5);
    if p == root {
        assert(list[0] == p);
    } else if parent_of(root) == Some(p) {
        assert(list[1] == p);
    } else if parent_of(root) matches Some(q) && parent_of(q) == Some(p) {
        assert(list[2] == p);
    } else {
        assert(list[3] == p);
    }
    let keep = |q: Seq<u8>| parent_of(q) is Some;
    assert(list.contains(p) && keep(p));
    assert(bases_of(root).contains(p)) by {
        broadcast use vstd::seq_lib::group_filter_ensures;

    }
    let i = bases_of(root).index_of(p);
    law_split_candidates(root, i);
}

/// The places that are tried for a core root at a path and at the paths above it, nearest
/// first, at most `levels` of them.
pub open spec fn core_places(p: Seq<u8>, levels: nat) -> Seq<Seq<u8>>
    decreases levels,
{
    if levels == 0 {
        seq![]
    } else {
        seq![
            joined(p, encode_utf8("libexec"@)),
            joined(joined(p, encode_utf8("share"@)), encode_utf8("gap"@)),
            joined(joined(p, encode_utf8("lib"@)), encode_utf8("gap"@)),
        ] + match parent_of(p) {
            Some(above) => core_places(above, (levels - 1) as nat),
            None => seq![],
        }
    }
}

proof fn lemma_core_places(p: Seq<u8>, levels: nat, earlier: Seq<Seq<u8>>)
    ensures
        with_nearby(without_repeats(earlier), ancestors_of(p, levels)) == without_repeats(
            earlier + core_places(p, levels),
        ),
    decreases levels,
{
    let list = without_repeats(earlier);
    if levels == 0 {
        assert(earlier + core_places(p, levels) =~= earlier);
    } else {
        let libexec = below(p, "libexec");
        let share = below(below(p, "share"), "gap");
        let lib = below(below(p, "lib"), "gap");
        let more = earlier.push(libexec).push(share).push(lib);
        lemma_without_repeats(earlier, libexec);
        lemma_without_repeats(earlier.push(libexec), share);
        lemma_without_repeats(earlier.push(libexec).push(share), lib);
        match parent_of(p) {
            Some(above) => {
                let rest = ancestors_of(above, (levels - 1) as nat);
                lemma_nearby_first(list, p, rest);
                lemma_core_places(above, (levels - 1) as nat, more);
                assert(more + core_places(above, (levels - 1) as nat) =~= earlier + core_places(
                    p,
                    levels,
                ));
            },
            None => {
                let none: Seq<Seq<u8>> = seq![];
                lemma_nearby_first(list, p, none);
                assert(seq![p] + none =~= seq![p]);
                assert(more =~= earlier + core_places(p, levels));
            },
        }
    }
}

proof fn lemma_nearby_first(list: Seq<Seq<u8>>, p: Seq<u8>, bases: Seq<Seq<u8>>)
    ensures
        with_nearby(list, seq![p] + bases) == with_nearby(
            with_path(
                with_path(
                    with_path(list, below(p, "libexec")),
                    below(below(p, "share"), "gap"),
                ),
                below(below(p, "lib"), "gap"),
            ),
            bases,
        ),
    decreases bases.len(),
{
    let all = seq![p] + bases;
    if bases.len() == 0 {
        assert(all.drop_last() =~= seq![]);
        assert(all.last() == p);
        assert(with_nearby(list, all.drop_last()) == list);
    } else {
        lemma_nearby_first(list, p, bases.drop_last());
        assert(all.drop_last() =~= seq![p] + bases.drop_last());
        assert(all.last() == bases.last());
    }
}

/// The candidates for a core root are the root itself and then the `libexec`, `share/gap`
/// and `lib/gap` of the root and of its three nearest ancestors: nearest first, none
/// twice, and no others.
pub proof fn law_core_candidates_are_near(root: Seq<u8>)
    ensures
        candidates_of(root) == without_repeats(seq![root] + core_places(root, 4)),
{
    let none: Seq<Seq<u8>> = seq![];
    lemma_without_repeats(none, root);
    assert(without_repeats(none) =~= none);
    assert(none.push(root) =~= seq![root]);
    lemma_core_places(root, 4, seq![root]);
}

/// Resolving a root gives the first candidate with the core file, and an error that names
/// the root and all candidates if there is none.
pub proof fn law_resolution_tries_candidates(tree: TreeView, root: Seq<u8>)
    ensures
        match resolved_root(tree, root) {
            Ok(found) => exists|i: int|
                0 <= i < candidates_of(root).len() && #[trigger] candidates_of(root)[i] == found
                    && tree.is_file(init_file(found)) && forall|j: int|
                    0 <= j < i ==> !tree.is_file(init_file(#[trigger] candidates_of(root)[j])),
            Err(text) => (forall|j: int|
                0 <= j < candidates_of(root).len() ==> !tree.is_file(
                    init_file(#[trigger] candidates_of(root)[j]),
                )) && text == "GAP root `"@ + text_of(root)
                + "` does not contain `lib/init.g`. Tried: "@ + paths_text(candidates_of(root))
                + ". Set GAP_SYS_ROOT to a valid GAP root."@,
        },
{
    law_resolved_root(tree, root);
    match resolved_root(tree, root) {
        Ok(found) => {
            let i = choose|i: int|
                0 <= i < candidates_of(root).len() && #[trigger] candidates_of(root)[i] == found
                    && is_core_root(tree, found) && forall|j: int|
                    0 <= j < i ==> !is_core_root(tree, #[trigger] candidates_of(root)[j]);
            assert forall|j: int| 0 <= j < i implies !tree.is_file(
                init_file(#[trigger] candidates_of(root)[j]),
            ) by {
                assert(!is_core_root(tree, candidates_of(root)[j]));
            }
        },
        Err(_) => {
            assert forall|j: int| 0 <= j < candidates_of(root).len() implies !tree.is_file(
                init_file(#[trigger] candidates_of(root)[j]),
            ) by {
                assert(!is_core_root(tree, candidates_of(root)[j]));
            }
        },
    }
}

// --- The root list ---
/// Those of the candidates that hold `lib/init.g` or `pkg`, in order.
pub open spec fn useful_roots(tree: TreeView, candidates: Seq<Seq<u8>>) -> Seq<Seq<u8>>
    decreases candidates.len(),
{
    if candidates.len() == 0 {
        seq![]
    } else {
        let before = useful_roots(tree, candidates.drop_last());
        let last = candidates.last();
        if tree.is_file(joined(joined(last, encode_utf8("lib"@)), encode_utf8("init.g"@)))
            || tree.is_dir(joined(last, encode_utf8("pkg"@))) {
            before.push(last)
        } else {
            before
        }
    }
}

/// The root list is the root and then every candidate that is useful at run time, in
/// order, none twice.
pub proof fn law_root_list_is_root_and_useful_roots(tree: TreeView, root: Seq<u8>)
    ensures
        root_list(tree, root) == without_repeats(
            seq![root] + useful_roots(tree, inferred_of(root)),
        ),
{
    let none: Seq<Seq<u8>> = seq![];
    lemma_without_repeats(none, root);
    assert(without_repeats(none) =~= none);
    assert(none.push(root) =~= seq![root]);
    lemma_useful_roots(tree, root, inferred_of(root));
}

proof fn lemma_useful_roots(tree: TreeView, root: Seq<u8>, candidates: Seq<Seq<u8>>)
    ensures
        with_runtime_roots(tree, without_repeats(seq![root]), candidates) == without_repeats(
            seq![root] + useful_roots(tree, candidates),
        ),
    decreases candidates.len(),
{
    if candidates.len() == 0 {
        assert(seq![root] + useful_roots(tree, candidates) =~= seq![root]);
    } else {
        lemma_useful_roots(tree, root, candidates.drop_last());
        let before = seq![root] + useful_roots(tree, candidates.drop_last());
        let last = candidates.last();
        lemma_without_repeats(before, last);
        assert(before.push(last) =~= seq![root] + useful_roots(tree, candidates.drop_last()).push(
            last,
        ));
    }
}

/// Texts with a semicolon after each.
pub open spec fn ended_with_semicolons(texts: Seq<Seq<char>>) -> Seq<char>
    decreases texts.len(),
{
    if texts.len() == 0 {
        seq![]
    } else {
        ended_with_semicolons(texts.drop_last()) + texts.last() + seq![';']
    }
}

/// The root argument is the text of each root in the list, with a semicolon after each.
pub proof fn law_root_argument_lists_roots(tree: TreeView, root: Seq<u8>)
    ensures
        root_arg_text(tree, root) == ended_with_semicolons(
            Seq::new(root_list(tree, root).len(), |i: int| text_of(root_list(tree, root)[i])),
        ),
{
    let list = root_list(tree, root);
    let texts = list.map_values(|p: Seq<u8>| text_of(p));
    assert(texts =~= Seq::new(list.len(), |i: int| text_of(list[i])));
    crate::discovery_laws::law_root_list(tree, root);
    lemma_ended_with_semicolons(texts);
}

proof fn lemma_ended_with_semicolons(texts: Seq<Seq<char>>)
    requires
        texts.len() > 0,
    ensures
        joined_texts(texts, ";"@) + ";"@ == ended_with_semicolons(texts),
    decreases texts.len(),
{
    reveal_strlit(";");
    assert(";"@ =~= seq![';']);
    if texts.len() == 1 {
        assert(texts.drop_last() =~= seq![]);
        assert(ended_with_semicolons(texts.drop_last()) =~= seq![]);
        assert(Seq::<char>::empty() + texts.last() + seq![';'] =~= texts[0] + seq![';']);
    } else {
        lemma_ended_with_semicolons(texts.drop_last());
    }
}

/// The names of the places hold no separator.
proof fn lemma_plain_name(name: &str)
    requires
        is_ascii_chars(name@),
        name@.len() > 1,
        !name@.contains('/'),
    ensures
        is_part(encode_utf8(name@)),
{
    is_ascii_chars_encode_utf8(name@);
    let bytes = encode_utf8(name@);
    assert forall|i: int| 0 <= i < bytes.len() implies #[trigger] bytes[i] != SLASH by {
        assert(name@.contains(name@[i]));
        assert(bytes[i] == name@[i] as u8);
        let c = name@[i];
        assert(c != '/');
        assert((c as int) < 128);
    }
}

/// Places with the same name below the same path are the same.
proof fn lemma_same_below(p: Seq<u8>, q: Seq<u8>, name: Seq<u8>)
    requires
        same_path(p, q),
        is_part(name),
    ensures
        same_path(joined(p, name), joined(q, name)),
{
    law_join_adds_part(p, name);
    law_join_adds_part(q, name);
}

/// What was seen of a path does not depend on how it is spelled.
proof fn lemma_same_seen(tree: TreeView, p: Seq<u8>, q: Seq<u8>)
    requires
        same_path(p, q),
    ensures
        tree.is_file(p) == tree.is_file(q),
        tree.is_dir(p) == tree.is_dir(q),
{
    law_tree_lookup(tree, p);
    law_tree_lookup(tree, q);
    assert forall|r: Seq<u8>| same_path(r, p) == same_path(r, q) by {}
    if tree.is_file(p) {
        let i = choose|i: int| 0 <= i < tree.files.len() && same_path(#[trigger] tree.files[i], p);
        assert(same_path(tree.files[i], q));
    }
    if tree.is_file(q) {
        let i = choose|i: int| 0 <= i < tree.files.len() && same_path(#[trigger] tree.files[i], q);
        assert(same_path(tree.files[i], p));
    }
    if tree.is_dir(p) {
        let i = choose|i: int|
            0 <= i < tree.directories.len() && same_path((#[trigger] tree.directories[i]).path, p);
        assert(same_path(tree.directories[i].path, q));
    }
    if tree.is_dir(q) {
        let i = choose|i: int|
            0 <= i < tree.directories.len() && same_path((#[trigger] tree.directories[i]).path, q);
        assert(same_path(tree.directories[i].path, p));
    }
}

/// Whether a root is useful does not depend on how it is spelled.
pub proof fn law_usefulness_ignores_spelling(tree: TreeView, p: Seq<u8>, q: Seq<u8>)
    requires
        same_path(p, q),
    ensures
        is_core_root(tree, p) == is_core_root(tree, q),
        is_runtime_root(tree, p) == is_runtime_root(tree, q),
{
    reveal_strlit("lib");
    reveal_strlit("init.g");
    reveal_strlit("pkg");
    lemma_plain_name("lib");
    lemma_plain_name("init.g");
    lemma_plain_name("pkg");
    lemma_same_below(p, q, encode_utf8("lib"@));
    lemma_same_below(below(p, "lib"), below(q, "lib"), encode_utf8("init.g"@));
    lemma_same_below(p, q, encode_utf8("pkg"@));
    lemma_same_seen(tree, init_file(p), init_file(q));
    lemma_same_seen(tree, below(p, "pkg"), below(q, "pkg"));
}

/// Wherever the packages of a split installation are, in the `lib/gap` or `share/gap` of
/// the root or of one of its three nearest ancestors that has a parent, their root is in
/// the root list with which GAP is started.
pub proof fn law_package_root_is_passed(tree: TreeView, root: Seq<u8>, p: Seq<u8>)
    requires
        is_near(root, p),
        parent_of(p) is Some,
    ensures
        ({
            let lib = joined(joined(p, encode_utf8("lib"@)), encode_utf8("gap"@));
            let share = joined(joined(p, encode_utf8("share"@)), encode_utf8("gap"@));
            &&& tree.is_dir(joined(lib, encode_utf8("pkg"@))) ==> holds_path(
                root_list(tree, root),
                lib,
            )
            &&& tree.is_dir(joined(share, encode_utf8("pkg"@))) ==> holds_path(
                root_list(tree, root),
                share,
            )
            &&& tree.is_file(init_file(lib)) ==> holds_path(root_list(tree, root), lib)
            &&& tree.is_file(init_file(share)) ==> holds_path(root_list(tree, root), share)
        }),
{
    let lib = below(below(p, "lib"), "gap");
    let share = below(below(p, "share"), "gap");
    law_every_near_ancestor_counts(root, p);
    lemma_useful_place_passed(tree, root, lib);
    lemma_useful_place_passed(tree, root, share);
}

proof fn lemma_useful_place_passed(tree: TreeView, root: Seq<u8>, place: Seq<u8>)
    requires
        holds_path(inferred_of(root), place),
    ensures
        is_runtime_root(tree, place) ==> holds_path(root_list(tree, root), place),
{
    let list = inferred_of(root);
    let i = choose|i: int| 0 <= i < list.len() && #[trigger] same_path(list[i], place);
    law_usefulness_ignores_spelling(tree, list[i], place);
    if is_runtime_root(tree, place) {
        law_split_roots_passed(tree, root, i);
        let roots = root_list(tree, root);
        let j = choose|j: int| 0 <= j < roots.len() && #[trigger] same_path(roots[j], list[i]);
        assert(same_path(roots[j], place));
    }
}

}
