//! File system paths as byte strings with `/` between their parts.
//!
//! Two paths are the same when they have the same parts: repeated and trailing
//! separators do not count, nor does a `.` part, except at the start of a relative
//! path.

use crate::text::{join_texts, joined_texts, text_of, utf8_lossy};
use vstd::prelude::*;
use vstd::string::*;
use vstd::utf8::encode_utf8;

verus! {

/// The byte `/`.
pub const SLASH: u8 = 0x2f;

/// The byte `.`.
pub const DOT: u8 = 0x2e;

/// Whether the path starts at the root.
pub open spec fn is_rooted(p: Seq<u8>) -> bool {
    p.len() > 0 && p[0] == SLASH
}

/// The text up to the end of the last part: without trailing separators and `.` parts.
pub open spec fn trim_tail(p: Seq<u8>) -> Seq<u8>
    decreases p.len(),
{
    if p.len() >= 2 && (p.last() == SLASH || (p.last() == DOT && p[p.len() - 2] == SLASH)) {
        trim_tail(p.drop_last())
    } else {
        p
    }
}

/// Whether a path without a tail to trim has a part, beyond the root.
pub open spec fn has_part(t: Seq<u8>) -> bool {
    t.len() > 0 && t != seq![SLASH]
}

/// Where the last part of `t` starts: after its last separator.
pub open spec fn last_start(t: Seq<u8>) -> int
    decreases t.len(),
{
    if t.len() == 0 || t.last() == SLASH {
        t.len() as int
    } else {
        last_start(t.drop_last())
    }
}

/// The parts of `p` beyond the root, in order.
pub open spec fn parts(p: Seq<u8>) -> Seq<Seq<u8>>
    decreases p.len(),
{
    let t = trim_tail(p);
    if has_part(t) {
        proof {
            lemma_trim_tail(p);
            lemma_last_start(t);
        }
        parts(t.take(last_start(t))).push(t.skip(last_start(t)))
    } else {
        seq![]
    }
}

/// Whether `p` and `q` name the same path.
pub open spec fn same_path(p: Seq<u8>, q: Seq<u8>) -> bool {
    is_rooted(p) == is_rooted(q) && parts(p) == parts(q)
}

/// The path without its last part, if it has one.
pub open spec fn parent_of(p: Seq<u8>) -> Option<Seq<u8>> {
    let t = trim_tail(p);
    if has_part(t) {
        Some(trim_tail(t.take(last_start(t))))
    } else {
        None
    }
}

/// `p` followed by `name`; a rooted `name` takes the place of `p`.
pub open spec fn joined(p: Seq<u8>, name: Seq<u8>) -> Seq<u8> {
    if is_rooted(name) || p.len() == 0 {
        name
    } else if p.last() == SLASH {
        p + name
    } else {
        p.push(SLASH) + name
    }
}

/// `p` followed by the text `name`.
pub open spec fn below(p: Seq<u8>, name: &str) -> Seq<u8> {
    joined(p, encode_utf8(name@))
}

/// `p` and the paths above it, nearest first, at most `count` of them.
pub open spec fn ancestors_of(p: Seq<u8>, count: nat) -> Seq<Seq<u8>>
    decreases count,
{
    if count == 0 {
        seq![]
    } else {
        match parent_of(p) {
            Some(q) => seq![p] + ancestors_of(q, (count - 1) as nat),
            None => seq![p],
        }
    }
}

/// Whether a list holds the path `p`, under any spelling.
pub open spec fn holds_path(list: Seq<Seq<u8>>, p: Seq<u8>) -> bool {
    exists|i: int| 0 <= i < list.len() && #[trigger] same_path(list[i], p)
}

/// `list` with `p` at its end, unless it holds that path already.
pub open spec fn with_path(list: Seq<Seq<u8>>, p: Seq<u8>) -> Seq<Seq<u8>> {
    if holds_path(list, p) {
        list
    } else {
        list.push(p)
    }
}

/// Trimming leaves a prefix that keeps its first byte and has nothing more to trim.
pub proof fn lemma_trim_tail(p: Seq<u8>)
    ensures
        trim_tail(p).len() <= p.len(),
        trim_tail(p) == p.take(trim_tail(p).len() as int),
        p.len() > 0 ==> trim_tail(p).len() > 0,
        is_rooted(trim_tail(p)) == is_rooted(p),
        trim_tail(trim_tail(p)) == trim_tail(p),
    decreases p.len(),
{
    if trim_tail(p) != p {
        lemma_trim_tail(p.drop_last());
        let n = trim_tail(p).len() as int;
        assert(p.drop_last().take(n) =~= p.take(n));
    } else {
        assert(p.take(p.len() as int) =~= p);
    }
}

/// The last part starts within the text, right after a separator or at the start, and
/// holds no separator.
pub proof fn lemma_last_start(t: Seq<u8>)
    ensures
        0 <= last_start(t) <= t.len(),
        last_start(t) > 0 ==> t[last_start(t) - 1] == SLASH,
        forall|i: int| last_start(t) <= i < t.len() ==> t[i] != SLASH,
        has_part(trim_tail(t)) && t == trim_tail(t) ==> last_start(t) < t.len(),
    decreases t.len(),
{
    if t.len() > 0 && t.last() != SLASH {
        let shorter = t.drop_last();
        lemma_last_start(shorter);
        assert forall|i: int| last_start(t) <= i < t.len() implies t[i] != SLASH by {
            if i < shorter.len() {
                assert(shorter[i] == t[i]);
            }
        }
    } else if t.len() == 1 {
        assert(t =~= seq![SLASH]);
    } else if t.len() >= 2 {
        lemma_trim_tail(t.drop_last());
    }
}

/// A file system path.
#[derive(Debug)]
pub struct PosixPath {
    /// The path as it was written.
    pub bytes: Vec<u8>,
}

impl View for PosixPath {
    type V = Seq<u8>;

    open spec fn view(&self) -> Seq<u8> {
        self.bytes@
    }
}

impl DeepView for PosixPath {
    type V = Seq<u8>;

    open spec fn deep_view(&self) -> Seq<u8> {
        self.bytes@
    }
}

impl Clone for PosixPath {
    fn clone(&self) -> (copy: Self)
        ensures
            copy@ == self@,
    {
        PosixPath { bytes: copy_bytes(self.bytes.as_slice()) }
    }
}

impl PartialEq for PosixPath {
    /// Whether both name the same path.
    fn eq(&self, other: &Self) -> (b: bool) {
        self.same(other)
    }
}

impl vstd::std_specs::cmp::PartialEqSpecImpl for PosixPath {
    open spec fn obeys_eq_spec() -> bool {
        true
    }

    open spec fn eq_spec(&self, other: &Self) -> bool {
        same_path(self@, other@)
    }
}

impl Eq for PosixPath {

}

fn copy_bytes(bytes: &[u8]) -> (copy: Vec<u8>)
    ensures
        copy@ == bytes@,
{
    let mut copy: Vec<u8> = Vec::new();
    append_bytes(&mut copy, bytes);
    assert(Seq::<u8>::empty() + bytes@ =~= bytes@);
    copy
}

fn append_bytes(target: &mut Vec<u8>, bytes: &[u8])
    ensures
        final(target)@ == old(target)@ + bytes@,
{
    let mut i: usize = 0;
    let ghost before = target@;
    assert(before + bytes@.take(0) =~= before);
    while i < bytes.len()
        invariant
            i <= bytes.len(),
            target@ == before + bytes@.take(i as int),
        decreases bytes.len() - i,
    {
        target.push(bytes[i]);
        assert(before + bytes@.take(i + 1) =~= (before + bytes@.take(i as int)).push(
            bytes@[i as int],
        ));
        i = i + 1;
    }
    assert(bytes@.take(i as int) =~= bytes@);
}

impl PosixPath {
    /// The path that `text` spells.
    pub fn from_text(text: &str) -> (path: PosixPath)
        ensures
            path@ == encode_utf8(text@),
    {
        PosixPath { bytes: copy_bytes(text.as_bytes()) }
    }

    /// Whether the path is empty.
    pub fn is_empty(&self) -> (b: bool)
        ensures
            b == (self@.len() == 0),
    {
        self.bytes.len() == 0
    }

    /// The path followed by the name in `name`.
    pub fn join_bytes(&self, name: &[u8]) -> (path: PosixPath)
        ensures
            path@ == joined(self@, name@),
    {
        let n: usize = self.bytes.len();
        if n == 0 || (name.len() > 0 && name[0] == SLASH) {
            return PosixPath { bytes: copy_bytes(name) };
        }
        let mut bytes = copy_bytes(self.bytes.as_slice());
        if self.bytes[n - 1] != SLASH {
            bytes.push(SLASH);
        }
        append_bytes(&mut bytes, name);
        PosixPath { bytes }
    }

    /// The path followed by `name`.
    pub fn join(&self, name: &str) -> (path: PosixPath)
        ensures
            path@ == below(self@, name),
    {
        self.join_bytes(name.as_bytes())
    }

    /// The length of the first `n` bytes without trailing separators and `.` parts.
    fn trimmed_len(&self, n: usize) -> (m: usize)
        requires
            n <= self@.len(),
        ensures
            m <= n,
            self@.take(m as int) == trim_tail(self@.take(n as int)),
    {
        let mut m: usize = n;
        while m >= 2 && (self.bytes[m - 1] == SLASH || (self.bytes[m - 1] == DOT && self.bytes[m - 2]
            == SLASH))
            invariant
                m <= n <= self@.len(),
                trim_tail(self@.take(m as int)) == trim_tail(self@.take(n as int)),
            decreases m,
        {
            assert(self@.take(m as int).drop_last() =~= self@.take(m - 1));
            m = m - 1;
        }
        m
    }

    /// Where the last part of the first `n` bytes starts.
    fn part_start(&self, n: usize) -> (m: usize)
        requires
            n <= self@.len(),
        ensures
            m <= n,
            m == last_start(self@.take(n as int)),
    {
        let mut m: usize = n;
        while m > 0 && self.bytes[m - 1] != SLASH
            invariant
                m <= n <= self@.len(),
                last_start(self@.take(m as int)) == last_start(self@.take(n as int)),
            decreases m,
        {
            assert(self@.take(m as int).drop_last() =~= self@.take(m - 1));
            m = m - 1;
        }
        m
    }

    /// Whether the first `n` bytes, trimmed, have a part beyond the root.
    fn has_part_before(&self, n: usize) -> (b: bool)
        requires
            n <= self@.len(),
        ensures
            b == has_part(self@.take(n as int)),
    {
        if n == 1 {
            assert(self@.take(1)[0] == self@[0]);
            if self.bytes[0] == SLASH {
                assert(self@.take(1) =~= seq![SLASH]);
            }
            self.bytes[0] != SLASH
        } else {
            n > 0
        }
    }

    /// The path without its last part, if it has one.
    pub fn parent(&self) -> (path: Option<PosixPath>)
        ensures
            match path {
                Some(q) => parent_of(self@) == Some(q@),
                None => parent_of(self@) is None,
            },
    {
        let n: usize = self.bytes.len();
        assert(self@.take(n as int) =~= self@);
        let end = self.trimmed_len(n);
        if !self.has_part_before(end) {
            return None;
        }
        let start = self.part_start(end);
        assert(self@.take(end as int).take(start as int) =~= self@.take(start as int));
        let cut = self.trimmed_len(start);
        let mut bytes: Vec<u8> = Vec::new();
        let mut i: usize = 0;
        while i < cut
            invariant
                i <= cut <= self@.len(),
                bytes@ == self@.take(i as int),
            decreases cut - i,
        {
            bytes.push(self.bytes[i]);
            assert(self@.take(i + 1) =~= self@.take(i as int).push(self@[i as int]));
            i = i + 1;
        }
        Some(PosixPath { bytes })
    }

    /// Whether both name the same path.
    pub fn same(&self, other: &PosixPath) -> (b: bool)
        ensures
            b == same_path(self@, other@),
    {
        let self_rooted: bool = self.bytes.len() > 0 && self.bytes[0] == SLASH;
        let other_rooted: bool = other.bytes.len() > 0 && other.bytes[0] == SLASH;
        if self_rooted != other_rooted {
            return false;
        }
        let mut n: usize = self.bytes.len();
        let mut m: usize = other.bytes.len();
        assert(self@.take(n as int) =~= self@);
        assert(other@.take(m as int) =~= other@);
        loop
            invariant
                n <= self@.len(),
                m <= other@.len(),
                is_rooted(self@) == is_rooted(other@),
                (parts(self@) == parts(other@)) == (parts(self@.take(n as int)) == parts(
                    other@.take(m as int),
                )),
            decreases n,
        {
            let ghost p = self@.take(n as int);
            let ghost q = other@.take(m as int);
            let n_end = self.trimmed_len(n);
            let m_end = other.trimmed_len(m);
            let n_part = self.has_part_before(n_end);
            let m_part = other.has_part_before(m_end);
            if !n_part || !m_part {
                assert(n_part != m_part ==> parts(p).len() != parts(q).len());
                return n_part == m_part;
            }
            let n_start = self.part_start(n_end);
            let m_start = other.part_start(m_end);
            proof {
                let t = self@.take(n_end as int);
                let u = other@.take(m_end as int);
                lemma_trim_tail(p);
                lemma_trim_tail(q);
                lemma_last_start(t);
                lemma_last_start(u);
                assert(t.take(n_start as int) =~= self@.take(n_start as int));
                assert(u.take(m_start as int) =~= other@.take(m_start as int));
                assert(parts(p).last() == t.skip(n_start as int));
                assert(parts(q).last() == u.skip(m_start as int));
                assert(parts(p).drop_last() =~= parts(self@.take(n_start as int)));
                assert(parts(q).drop_last() =~= parts(other@.take(m_start as int)));
                assert(parts(p) =~= parts(p).drop_last().push(parts(p).last()));
                assert(parts(q) =~= parts(q).drop_last().push(parts(q).last()));
            }
            if !same_stretch(&self.bytes, n_start, n_end, &other.bytes, m_start, m_end) {
                return false;
            }
            n = n_start;
            m = m_start;
        }
    }

    /// The path as text.
    pub fn display(&self) -> (text: String)
        ensures
            text@ == text_of(self@),
    {
        utf8_lossy(self.bytes.as_slice())
    }

    /// The path and the paths above it, nearest first, at most `count` of them.
    pub fn ancestors(&self, count: usize) -> (list: Vec<PosixPath>)
        ensures
            list.deep_view() == ancestors_of(self@, count as nat),
        decreases count,
    {
        let mut list: Vec<PosixPath> = Vec::new();
        if count == 0 {
            assert(list.deep_view() =~= seq![]);
            return list;
        }
        list.push(self.clone());
        assert(list.deep_view() =~= seq![self@]);
        match self.parent() {
            Some(above) => {
                let mut rest = above.ancestors(count - 1);
                let ghost tail = rest.deep_view();
                list.append(&mut rest);
                assert(list.deep_view() =~= seq![self@] + tail);
            },
            None => {},
        }
        list
    }
}

/// Whether two stretches of bytes are equal.
fn same_stretch(a: &Vec<u8>, a_from: usize, a_to: usize, b: &Vec<u8>, b_from: usize, b_to: usize)
    -> (same: bool)
    requires
        a_from <= a_to <= a@.len(),
        b_from <= b_to <= b@.len(),
    ensures
        same == (a@.take(a_to as int).skip(a_from as int) == b@.take(b_to as int).skip(
            b_from as int,
        )),
{
    let ghost left = a@.take(a_to as int).skip(a_from as int);
    let ghost right = b@.take(b_to as int).skip(b_from as int);
    let n: usize = a_to - a_from;
    if n != b_to - b_from {
        assert(left.len() != right.len());
        return false;
    }
    let mut i: usize = 0;
    while i < n
        invariant
            i <= n,
            a_from + n == a_to <= a@.len(),
            b_from + n == b_to <= b@.len(),
            left == a@.take(a_to as int).skip(a_from as int),
            right == b@.take(b_to as int).skip(b_from as int),
            forall|j: int| 0 <= j < i ==> left[j] == right[j],
        decreases n - i,
    {
        if a[a_from + i] != b[b_from + i] {
            assert(left[i as int] != right[i as int]);
            return false;
        }
        i = i + 1;
    }
    assert(left =~= right);
    true
}

/// Appends `path` if it is not already present.
pub fn push_unique(paths: &mut Vec<PosixPath>, path: PosixPath)
    ensures
        final(paths).deep_view() == with_path(old(paths).deep_view(), path@),
{
    let mut i: usize = 0;
    let ghost list = paths.deep_view();
    while i < paths.len()
        invariant
            i <= paths.len(),
            list == paths.deep_view(),
            *paths == *old(paths),
            forall|j: int| 0 <= j < i ==> !#[trigger] same_path(list[j], path@),
        decreases paths.len() - i,
    {
        if paths[i].same(&path) {
            assert(same_path(list[i as int], path@));
            return;
        }
        i = i + 1;
    }
    paths.push(path);
    assert(paths.deep_view() =~= list.push(path@));
}

/// The paths as text, for a reader.
pub open spec fn paths_text(list: Seq<Seq<u8>>) -> Seq<char> {
    if list.len() == 0 {
        "<none>"@
    } else {
        joined_texts(list.map_values(|p: Seq<u8>| text_of(p)), ", "@)
    }
}

/// Formats a path list for human-readable error messages.
pub fn display_paths(paths: &Vec<PosixPath>) -> (text: String)
    ensures
        text@ == paths_text(paths.deep_view()),
{
    if paths.len() == 0 {
        return "<none>".to_owned();
    }
    let texts = path_texts(paths);
    join_texts(&texts, ", ")
}

/// The text of each path.
pub fn path_texts(paths: &Vec<PosixPath>) -> (texts: Vec<String>)
    ensures
        texts.deep_view() == paths.deep_view().map_values(|p: Seq<u8>| text_of(p)),
{
    let mut texts: Vec<String> = Vec::new();
    let mut i: usize = 0;
    while i < paths.len()
        invariant
            i <= paths.len(),
            texts@.len() == i,
            forall|j: int| 0 <= j < i ==> (#[trigger] texts@[j])@ == text_of(paths@[j]@),
        decreases paths.len() - i,
    {
        texts.push(paths[i].display());
        i = i + 1;
    }
    assert(texts.deep_view() =~= paths.deep_view().map_values(|p: Seq<u8>| text_of(p)));
    texts
}

}
