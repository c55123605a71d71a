//! What holds of paths and of lists of paths.

use crate::path::{
    ancestors_of, below, has_part, holds_path, is_rooted, joined, last_start, lemma_last_start,
    lemma_trim_tail, parent_of, parts, same_path, trim_tail, with_path, DOT, SLASH,
};
use crate::tree::{find_directory, DirectoryView, TreeView};
use vstd::prelude::*;
use vstd::utf8::encode_utf8;

verus! {

/// Whether no two entries of a list name the same path.
pub open spec fn no_repeats(list: Seq<Seq<u8>>) -> bool {
    forall|i: int, j: int| 0 <= i < j < list.len() ==> !#[trigger] same_path(list[i], list[j])
}

/// Whether `longer` is `list` with more entries after it.
pub open spec fn extends(list: Seq<Seq<u8>>, longer: Seq<Seq<u8>>) -> bool {
    &&& list.len() <= longer.len()
    &&& forall|i: int| 0 <= i < list.len() ==> #[trigger] longer[i] == list[i]
}

/// Adding a path to a list keeps the entries and their order, makes no repeats, and
/// the list holds the path then.
pub proof fn law_with_path(list: Seq<Seq<u8>>, p: Seq<u8>)
    ensures
        extends(list, with_path(list, p)),
        no_repeats(list) ==> no_repeats(with_path(list, p)),
        holds_path(with_path(list, p), p),
        with_path(with_path(list, p), p) == with_path(list, p),
{
    let longer = with_path(list, p);
    if !holds_path(list, p) {
        assert(same_path(longer[list.len() as int], p));
        if no_repeats(list) {
            assert forall|i: int, j: int| 0 <= i < j < longer.len() implies !#[trigger] same_path(
                longer[i],
                longer[j],
            ) by {
                if j < list.len() {
                    assert(!same_path(list[i], list[j]));
                } else {
                    assert(!same_path(list[i], p));
                }
            }
        }
    }
}

/// A path that is one part: not empty, not `.`, and without a separator.
pub open spec fn is_part(name: Seq<u8>) -> bool {
    &&& name.len() > 0
    &&& name != seq![DOT]
    &&& !name.contains(SLASH)
}

/// Trimming does not change what comes before a part.
proof fn lemma_part_ends(prefix: Seq<u8>, name: Seq<u8>)
    requires
        is_part(name),
        prefix.len() > 0 ==> prefix.last() == SLASH,
    ensures
        trim_tail(prefix + name) == prefix + name,
        has_part(prefix + name),
        last_start(prefix + name) == prefix.len(),
        (prefix + name).take(prefix.len() as int) == prefix,
        (prefix + name).skip(prefix.len() as int) == name,
{
    let p = prefix + name;
    assert(p.last() == name.last());
    assert(name.contains(name.last())) by {
        assert(name[name.len() - 1] == name.last());
    }
    if p.last() == DOT && p.len() >= 2 && p[p.len() - 2] == SLASH {
        if name.len() >= 2 {
            assert(name[name.len() - 2] == SLASH);
        } else {
            assert(name =~= seq![DOT]);
        }
    }
    if p == seq![SLASH] {
        assert(p[0] == name.last());
    }
    lemma_last_start_of_part(prefix, name);
    assert(p.take(prefix.len() as int) =~= prefix);
    assert(p.skip(prefix.len() as int) =~= name);
}

proof fn lemma_last_start_of_part(prefix: Seq<u8>, name: Seq<u8>)
    requires
        !name.contains(SLASH),
        prefix.len() > 0 ==> prefix.last() == SLASH,
    ensures
        last_start(prefix + name) == prefix.len(),
    decreases name.len(),
{
    let p = prefix + name;
    if name.len() == 0 {
        assert(p =~= prefix);
    } else {
        assert(p.last() == name.last());
        assert(name[name.len() - 1] == name.last());
        let shorter = name.drop_last();
        assert forall|b: u8| #[trigger] shorter.contains(b) implies name.contains(b) by {
            let i = shorter.index_of(b);
            assert(name[i] == b);
        }
        assert(p.drop_last() =~= prefix + shorter);
        lemma_last_start_of_part(prefix, shorter);
    }
}

/// A separator at the end does not count.
proof fn lemma_trailing_separator(p: Seq<u8>)
    requires
        p.len() > 0,
    ensures
        trim_tail(p.push(SLASH)) == trim_tail(p),
        parts(p.push(SLASH)) == parts(p),
{
    assert(p.push(SLASH).drop_last() =~= p);
}

/// Joining a part to a path adds the part at the end, and what the path starts at stays.
pub proof fn law_join_adds_part(p: Seq<u8>, name: Seq<u8>)
    requires
        is_part(name),
    ensures
        parts(joined(p, name)) == parts(p).push(name),
        is_rooted(joined(p, name)) == is_rooted(p),
{
    assert(!is_rooted(name)) by {
        if is_rooted(name) {
            assert(name.contains(name[0]));
        }
    }
    let prefix = if p.len() == 0 || p.last() == SLASH {
        p
    } else {
        p.push(SLASH)
    };
    assert(joined(p, name) =~= prefix + name);
    lemma_part_ends(prefix, name);
    if p.len() > 0 && p.last() != SLASH {
        lemma_trailing_separator(p);
    }
    assert(parts(prefix) == parts(p));
}

/// The parent of a path with a part joined to it is that path.
pub proof fn law_parent_of_join(p: Seq<u8>, name: Seq<u8>)
    requires
        is_part(name),
    ensures
        parent_of(joined(p, name)) is Some,
        same_path(parent_of(joined(p, name))->0, p),
{
    law_join_adds_part(p, name);
    let prefix = if p.len() == 0 || p.last() == SLASH {
        p
    } else {
        p.push(SLASH)
    };
    assert(joined(p, name) =~= prefix + name);
    lemma_part_ends(prefix, name);
    lemma_trim_tail(prefix);
    if p.len() > 0 && p.last() != SLASH {
        lemma_trailing_separator(p);
    }
    assert(parent_of(joined(p, name)) == Some(trim_tail(prefix)));
    lemma_trim_keeps_path(prefix);
}

/// Trimming a path does not change which path it is.
proof fn lemma_trim_keeps_path(p: Seq<u8>)
    ensures
        same_path(trim_tail(p), p),
{
    lemma_trim_tail(p);
    lemma_last_start(trim_tail(p));
}

/// A path's parent has all of its parts but the last, and starts where the path starts.
pub proof fn law_parent_drops_part(p: Seq<u8>)
    ensures
        parent_of(p) is Some <==> parts(p).len() > 0,
        parent_of(p) matches Some(q) ==> parts(q) == parts(p).drop_last() && is_rooted(q)
            == is_rooted(p),
{
    let t = trim_tail(p);
    lemma_trim_tail(p);
    lemma_last_start(t);
    if has_part(t) {
        let start = last_start(t);
        let q = trim_tail(t.take(start));
        lemma_trim_keeps_path(t.take(start));
        assert(parts(p).drop_last() =~= parts(t.take(start)));
        if start > 0 {
            assert(t.take(start)[0] == t[0]);
        } else {
            assert(!is_rooted(t.take(start)));
            assert(t[0] != SLASH);
        }
    }
}


// --- Bytes of paths ---
/// Joining puts the name after the path, with one separator between unless the path ends
/// with one; a name that starts at the root takes the place of the path, and so does any
/// name where the path is empty.
pub proof fn law_join_bytes(p: Seq<u8>, name: Seq<u8>)
    ensures
        ({
            let whole = joined(p, name);
            if p.len() == 0 || (name.len() > 0 && name[0] == 47) {
                whole == name
            } else if p[p.len() - 1] == 47 {
                &&& whole.len() == p.len() + name.len()
                &&& forall|i: int| 0 <= i < p.len() ==> #[trigger] whole[i] == p[i]
                &&& forall|i: int|
                    p.len() <= i < whole.len() ==> #[trigger] whole[i] == name[i - p.len()]
            } else {
                &&& whole.len() == p.len() + 1 + name.len()
                &&& forall|i: int| 0 <= i < p.len() ==> #[trigger] whole[i] == p[i]
                &&& whole[p.len() as int] == 47
                &&& forall|i: int|
                    p.len() < i < whole.len() ==> #[trigger] whole[i] == name[i - p.len() - 1]
            }
        }),
{
}

/// A name that is given as text is joined as the bytes that encode it.
pub proof fn law_below_is_join(p: Seq<u8>, name: &str)
    ensures
        below(p, name) == joined(p, encode_utf8(name@)),
{
}

/// A path's parent is a shorter stretch of the path from its start, and ends with neither
/// a separator nor a separator and a `.`, unless it is the root.
pub proof fn law_parent_is_prefix(p: Seq<u8>)
    ensures
        parent_of(p) matches Some(q) ==> q.len() < p.len() && (q.len() >= 2 ==> q[q.len() - 1]
            != 47 && !(q[q.len() - 1] == 46 && q[q.len() - 2] == 47)) && forall|i: int|
            0 <= i < q.len() ==> #[trigger] q[i] == p[i],
{
    let t = trim_tail(p);
    lemma_trim_tail(p);
    lemma_last_start(t);
    if has_part(t) {
        let start = last_start(t);
        let above = t.take(start);
        lemma_trim_tail(above);
        let q = trim_tail(above);
        lemma_trim_tail(q.drop_last());
        assert(trim_tail(q) == q);
        assert forall|i: int| 0 <= i < q.len() implies #[trigger] q[i] == p[i] by {
            assert(q[i] == above[i]);
            assert(above[i] == t[i]);
            assert(t[i] == p[i]);
        }
    }
}

/// A path with the given parts, with one separator between each two, that starts at the
/// root or not.
pub open spec fn spelled(rooted: bool, names: Seq<Seq<u8>>) -> Seq<u8>
    decreases names.len(),
{
    if names.len() == 0 {
        if rooted {
            seq![47u8]
        } else {
            seq![]
        }
    } else {
        let before = spelled(rooted, names.drop_last());
        if before.len() == 0 || before[before.len() - 1] == 47 {
            before + names.last()
        } else {
            before + seq![47u8] + names.last()
        }
    }
}

/// A path that is spelled from parts has those parts, and starts where it was spelled to
/// start.
pub proof fn law_spelled_parts(rooted: bool, names: Seq<Seq<u8>>)
    requires
        forall|i: int| 0 <= i < names.len() ==> is_part(#[trigger] names[i]),
    ensures
        parts(spelled(rooted, names)) == names,
        is_rooted(spelled(rooted, names)) == rooted,
    decreases names.len(),
{
    let p = spelled(rooted, names);
    if names.len() == 0 {
        assert(parts(p) =~= names);
    } else {
        let before = spelled(rooted, names.drop_last());
        let name = names.last();
        assert(is_part(names[names.len() - 1]));
        assert forall|i: int| 0 <= i < names.drop_last().len() implies is_part(
            #[trigger] names.drop_last()[i],
        ) by {
            assert(is_part(names[i]));
        }
        law_spelled_parts(rooted, names.drop_last());
        law_join_adds_part(before, name);
        assert(!(name[0] == SLASH)) by {
            assert(name.contains(name[0]));
        }
        assert(p =~= joined(before, name));
        assert(parts(p) =~= names);
    }
}

/// Two paths are the same if both or neither start with a separator and they have the
/// same parts in the same order.
pub proof fn law_same_path(p: Seq<u8>, q: Seq<u8>)
    ensures
        same_path(p, q) <==> {
            &&& (p.len() > 0 && p[0] == 47) == (q.len() > 0 && q[0] == 47)
            &&& parts(p).len() == parts(q).len()
            &&& forall|i: int| 0 <= i < parts(p).len() ==> #[trigger] parts(p)[i] == parts(q)[i]
        },
        same_path(p, p),
        same_path(p, q) == same_path(q, p),
{
    if parts(p).len() == parts(q).len() && (forall|i: int|
        0 <= i < parts(p).len() ==> #[trigger] parts(p)[i] == parts(q)[i]) {
        assert(parts(p) =~= parts(q));
    }
}

/// Paths that are the same as a third are the same.
pub proof fn law_same_path_goes_on(p: Seq<u8>, q: Seq<u8>, r: Seq<u8>)
    requires
        same_path(p, q),
        same_path(q, r),
    ensures
        same_path(p, r),
{
}

/// A separator at the end does not count, nor does a `.` after one.
pub proof fn law_trailing_separator_does_not_count(p: Seq<u8>)
    requires
        p.len() > 0,
    ensures
        same_path(p.push(47), p),
        same_path(p.push(47).push(46), p),
{
    lemma_trailing_separator(p);
    let q = p.push(SLASH);
    assert(q.push(DOT).drop_last() =~= q);
    assert(q.push(DOT)[q.push(DOT).len() - 2] == SLASH);
    assert(trim_tail(q.push(DOT)) == trim_tail(q));
    assert(parts(q.push(DOT)) == parts(q));
}

/// A `.` alone is a part, and one after a separator is none.
pub proof fn law_dot_parts(p: Seq<u8>)
    requires
        p.len() > 0,
        p[p.len() - 1] == 47,
    ensures
        parts(seq![46u8]) == seq![seq![46u8]],
        parts(p.push(46)) == parts(p),
{
    let dot = seq![DOT];
    reveal_with_fuel(parts, 2);
    reveal_with_fuel(last_start, 2);
    assert(trim_tail(dot) == dot);
    assert(dot.drop_last() =~= seq![]);
    assert(last_start(dot) == 0);
    assert(dot.take(0) =~= seq![]);
    assert(dot.skip(0) =~= dot);
    assert(parts(dot) =~= seq![dot]);
    assert(p.push(DOT).drop_last() =~= p);
    assert(trim_tail(p.push(DOT)) == trim_tail(p));
}

/// A path comes first among the paths above it, each is the parent of the one before, and
/// they end at the given number or where there is no parent.
pub proof fn law_ancestors(p: Seq<u8>, count: nat)
    ensures
        ({
            let list = ancestors_of(p, count);
            &&& list.len() <= count
            &&& count > 0 ==> list.len() > 0 && list[0] == p
            &&& forall|i: int|
                0 <= i < list.len() - 1 ==> parent_of(#[trigger] list[i]) == Some(list[i + 1])
            &&& 0 < list.len() < count ==> parent_of(list.last()) is None
        }),
    decreases count,
{
    if count > 0 {
        if let Some(q) = parent_of(p) {
            law_ancestors(q, (count - 1) as nat);
            let list = ancestors_of(p, count);
            let rest = ancestors_of(q, (count - 1) as nat);
            assert(list =~= seq![p] + rest);
            assert forall|i: int| 0 <= i < list.len() - 1 implies parent_of(#[trigger] list[i])
                == Some(list[i + 1]) by {
                assert(list[i + 1] == rest[i]);
                if i > 0 {
                    assert(list[i] == rest[i - 1]);
                }
            }
            if list.len() > 1 {
                assert(list.last() == rest.last());
            }
        }
    }
}

/// A path is added at the end of a list, if no entry names the same path, and the list
/// stays as it is otherwise.
pub proof fn law_with_path_adds_once(list: Seq<Seq<u8>>, p: Seq<u8>)
    ensures
        (exists|i: int| 0 <= i < list.len() && same_path(#[trigger] list[i], p)) ==> with_path(
            list,
            p,
        ) == list,
        (forall|i: int| 0 <= i < list.len() ==> !same_path(#[trigger] list[i], p)) ==> with_path(
            list,
            p,
        ) == list.push(p),
{
    if exists|i: int| 0 <= i < list.len() && same_path(#[trigger] list[i], p) {
        let i = choose|i: int| 0 <= i < list.len() && same_path(#[trigger] list[i], p);
        assert(same_path(list[i], p));
    }
}

/// A list holds a path if one of its entries names the same path.
pub proof fn law_holds_path(list: Seq<Seq<u8>>, p: Seq<u8>)
    ensures
        holds_path(list, p) <==> exists|i: int|
            0 <= i < list.len() && same_path(#[trigger] list[i], p),
{
    if holds_path(list, p) {
        let i = choose|i: int| 0 <= i < list.len() && #[trigger] same_path(list[i], p);
        assert(same_path(list[i], p));
    }
    if exists|i: int| 0 <= i < list.len() && same_path(#[trigger] list[i], p) {
        let i = choose|i: int| 0 <= i < list.len() && same_path(#[trigger] list[i], p);
        assert(same_path(list[i], p));
    }
}

// --- What was seen of the file system ---
/// A path is a file if one of the files seen names it, and a directory if one of the
/// directories seen does; the names in it are those of the first such directory.
pub proof fn law_tree_lookup(tree: TreeView, p: Seq<u8>)
    ensures
        tree.is_file(p) <==> exists|i: int|
            0 <= i < tree.files.len() && same_path(#[trigger] tree.files[i], p),
        tree.is_dir(p) <==> exists|i: int|
            0 <= i < tree.directories.len() && same_path((#[trigger] tree.directories[i]).path, p),
        !tree.is_dir(p) ==> tree.listing(p) is None,
        forall|i: int|
            0 <= i < tree.directories.len() && same_path((#[trigger] tree.directories[i]).path, p)
                && (forall|j: int|
                0 <= j < i ==> !same_path((#[trigger] tree.directories[j]).path, p))
                ==> tree.listing(p) == tree.directories[i].entries,
{
    law_holds_path(tree.files, p);
    lemma_find_directory(tree.directories, p);
}

proof fn lemma_find_directory(list: Seq<DirectoryView>, p: Seq<u8>)
    ensures
        match find_directory(list, p) {
            Some(d) => exists|i: int|
                0 <= i < list.len() && #[trigger] list[i] == d && same_path(d.path, p) && (forall|
                    j: int,
                |
                    0 <= j < i ==> !same_path((#[trigger] list[j]).path, p)),
            None => forall|j: int|
                0 <= j < list.len() ==> !same_path((#[trigger] list[j]).path, p),
        },
    decreases list.len(),
{
    if list.len() > 0 && !same_path(list[0].path, p) {
        let rest = list.skip(1);
        lemma_find_directory(rest, p);
        match find_directory(list, p) {
            Some(d) => {
                let i = choose|i: int|
                    0 <= i < rest.len() && #[trigger] rest[i] == d && same_path(d.path, p) && (
                    forall|j: int| 0 <= j < i ==> !same_path((#[trigger] rest[j]).path, p));
                assert(list[i + 1] == d);
                assert forall|j: int| 0 <= j < i + 1 implies !same_path(
                    (#[trigger] list[j]).path,
                    p,
                ) by {
                    if j > 0 {
                        assert(rest[j - 1] == list[j]);
                    }
                }
            },
            None => {
                assert forall|j: int| 0 <= j < list.len() implies !same_path(
                    (#[trigger] list[j]).path,
                    p,
                ) by {
                    if j > 0 {
                        assert(rest[j - 1] == list[j]);
                    }
                }
            },
        }
    } else if list.len() > 0 {
        assert(list[0] == list[0]);
    }
}

}
