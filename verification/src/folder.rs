use vstd::prelude::*;

use crate::align::strings_view;
use crate::chars::{char_vec, push_char};
use crate::names::{
    ends_with_ci, ends_with_ignore_case, lemma_name_lt_asymmetric, lemma_name_lt_irreflexive,
    lemma_name_lt_total, lemma_name_lt_transitive, name_less, name_lt, strictly_sorted,
};
use crate::text::{filter_of, parse_filter, passes, str_eq, window_of, RowFilter};

verus! {

/// What a tree entry is: a directory, an archive that can be entered, or a
/// plain file.
#[derive(Debug, Clone, Copy, PartialEq, Eq, Structural)]
pub enum FolderKind {
    Dir,
    Archive,
    File,
}

/// How an entry of the left tree relates to the entry of the same name in
/// the right tree.
#[derive(Debug, Clone, Copy, PartialEq, Eq, Structural)]
pub enum FolderStatus {
    Equal,
    Different,
    LeftOnly,
    RightOnly,
    TypeConflict,
}

/// One node of a scanned tree. A directory lists its children by name (each
/// name once); a file or archive carries the SHA-256 of its contents and its
/// size.
#[derive(Debug)]
pub struct FolderNode {
    pub kind: FolderKind,
    pub hash: Option<[u8; 32]>,
    pub size: Option<u64>,
    pub mtime: Option<i64>,
    pub children: Vec<(String, FolderNode)>,
}

/// No two entries share a name.
pub open spec fn unique_names(s: Seq<(String, FolderNode)>) -> bool {
    forall|i: int, j: int|
        0 <= i < s.len() && 0 <= j < s.len() && i != j ==> (#[trigger] s[i]).0@ != (
        #[trigger] s[j]).0@
}

/// Every child list in the tree names each entry once.
pub open spec fn wf(node: FolderNode) -> bool
    decreases node,
{
    &&& unique_names(node.children@)
    &&& forall|i: int| 0 <= i < node.children@.len() ==> wf(#[trigger] node.children@[i].1)
}

pub open spec fn wf_children(s: Seq<(String, FolderNode)>) -> bool {
    &&& unique_names(s)
    &&& forall|i: int| 0 <= i < s.len() ==> wf(#[trigger] s[i].1)
}

/// The entry named `name` in a child list.
pub open spec fn lookup(s: Seq<(String, FolderNode)>, name: Seq<char>) -> Option<FolderNode>
    decreases s.len(),
{
    if s.len() == 0 {
        None
    } else if s[0].0@ == name {
        Some(s[0].1)
    } else {
        lookup(s.drop_first(), name)
    }
}

/// The node at the end of a path of names below a child list.
pub open spec fn node_at_path(s: Seq<(String, FolderNode)>, path: Seq<Seq<char>>) -> Option<
    FolderNode,
>
    decreases path.len(),
{
    if path.len() == 0 {
        None
    } else {
        match lookup(s, path[0]) {
            None => None,
            Some(c) => if path.len() == 1 {
                Some(c)
            } else {
                node_at_path(c.children@, path.drop_first())
            },
        }
    }
}

pub proof fn lemma_lookup_first(s: Seq<(String, FolderNode)>, i: int)
    requires
        0 <= i < s.len(),
        forall|k: int| 0 <= k < i ==> (#[trigger] s[k]).0@ != s[i].0@,
    ensures
        lookup(s, s[i].0@) == Some(s[i].1),
    decreases i,
{
    if i > 0 {
        assert(s[0].0@ != s[i].0@);
        assert forall|k: int| 0 <= k < i - 1 implies (#[trigger] s.drop_first()[k]).0@ != s.drop_first()[i - 1].0@ by {
            assert(s.drop_first()[k] == s[k + 1]);
        }
        lemma_lookup_first(s.drop_first(), i - 1);
    }
}

pub proof fn lemma_lookup_none(s: Seq<(String, FolderNode)>, name: Seq<char>)
    requires
        forall|k: int| 0 <= k < s.len() ==> (#[trigger] s[k]).0@ != name,
    ensures
        lookup(s, name) is None,
    decreases s.len(),
{
    if s.len() > 0 {
        assert(s[0].0@ != name);
        assert forall|k: int| 0 <= k < s.len() - 1 implies (#[trigger] s.drop_first()[k]).0@ != name by {
            assert(s.drop_first()[k] == s[k + 1]);
        }
        lemma_lookup_none(s.drop_first(), name);
    }
}

pub proof fn lemma_lookup_some(s: Seq<(String, FolderNode)>, name: Seq<char>)
    requires
        lookup(s, name) is Some,
    ensures
        exists|i: int| 0 <= i < s.len() && #[trigger] s[i].0@ == name && lookup(s, name) == Some(s[i].1),
    decreases s.len(),
{
    if s[0].0@ != name {
        lemma_lookup_some(s.drop_first(), name);
        let i = choose|i: int| 0 <= i < s.drop_first().len() && #[trigger] s.drop_first()[i].0@ == name
            && lookup(s.drop_first(), name) == Some(s.drop_first()[i].1);
        assert(s[i + 1] == s.drop_first()[i]);
    } else {
        assert(s[0].0@ == name);
    }
}

pub proof fn lemma_lookup_push(s: Seq<(String, FolderNode)>, x: (String, FolderNode), name: Seq<char>)
    ensures
        lookup(s.push(x), name) == if lookup(s, name) is Some {
            lookup(s, name)
        } else if x.0@ == name {
            Some(x.1)
        } else {
            None
        },
    decreases s.len(),
{
    if s.len() > 0 {
        assert(s.push(x)[0] == s[0]);
        assert(s.push(x).drop_first() == s.drop_first().push(x));
        lemma_lookup_push(s.drop_first(), x, name);
        if s[0].0@ != name {
            assert(lookup(s, name) == lookup(s.drop_first(), name));
            assert(lookup(s.push(x), name) == lookup(s.drop_first().push(x), name));
        }
    } else {
        assert(s.push(x)[0] == x);
        assert(s.push(x).drop_first() == Seq::<(String, FolderNode)>::empty());
        assert(lookup(Seq::<(String, FolderNode)>::empty(), name) is None);
        assert(lookup(s, name) is None);
    }
}

pub proof fn lemma_lookup_update(s: Seq<(String, FolderNode)>, idx: int, x: (String, FolderNode), name: Seq<char>)
    requires
        0 <= idx < s.len(),
        s[idx].0@ == x.0@,
        forall|k: int| 0 <= k < idx ==> (#[trigger] s[k]).0@ != x.0@,
    ensures
        lookup(s.update(idx, x), name) == if name == x.0@ {
            Some(x.1)
        } else {
            lookup(s, name)
        },
    decreases idx,
{
    if idx == 0 {
        assert(s.update(idx, x)[0] == x);
        assert(s.update(idx, x).drop_first() == s.drop_first());
    } else {
        assert(s.update(idx, x)[0] == s[0]);
        assert(s.update(idx, x).drop_first() == s.drop_first().update(idx - 1, x));
        assert forall|k: int| 0 <= k < idx - 1 implies (#[trigger] s.drop_first()[k]).0@ != x.0@ by {
            assert(s.drop_first()[k] == s[k + 1]);
        }
        assert(s[0].0@ != x.0@);
        lemma_lookup_update(s.drop_first(), idx - 1, x, name);
    }
}

/// Where an entry named `name` sits in a child list: its first position, or
/// none.
pub fn find_child(children: &Vec<(String, FolderNode)>, name: &str) -> (found: Option<usize>)
    ensures
        match found {
            Some(i) => i < children@.len() && children@[i as int].0@ == name@ && forall|k: int|
                0 <= k < i ==> (#[trigger] children@[k]).0@ != name@,
            None => forall|k: int| 0 <= k < children@.len() ==> (#[trigger] children@[k]).0@ != name@,
        },
{
    let mut i: usize = 0;
    while i < children.len()
        invariant
            i <= children@.len(),
            forall|k: int| 0 <= k < i ==> (#[trigger] children@[k]).0@ != name@,
        decreases children@.len() - i,
    {
        if str_eq(children[i].0.as_str(), name) {
            return Some(i);
        }
        i += 1;
    }
    None
}

/// Splitting state of a `/`-separated path: the finished parts and the part
/// being read.
pub open spec fn parts_state(s: Seq<char>) -> (Seq<Seq<char>>, Seq<char>)
    decreases s.len(),
{
    if s.len() == 0 {
        (seq![], seq![])
    } else {
        let (done, cur) = parts_state(s.drop_last());
        if s.last() == '/' {
            if cur.len() > 0 {
                (done.push(cur), seq![])
            } else {
                (done, seq![])
            }
        } else {
            (done, cur.push(s.last()))
        }
    }
}

/// The non-empty `/`-separated parts of a relative path.
pub open spec fn path_parts(s: Seq<char>) -> Seq<Seq<char>> {
    let (done, cur) = parts_state(s);
    if cur.len() > 0 {
        done.push(cur)
    } else {
        done
    }
}

pub fn split_path(rel: &str) -> (parts: Vec<String>)
    ensures
        strings_view(parts@) == path_parts(rel@),
{
    let chars = char_vec(rel);
    let mut parts: Vec<String> = Vec::new();
    let mut cur = String::new();
    let mut i: usize = 0;
    while i < chars.len()
        invariant
            i <= chars@.len(),
            chars@ == rel@,
            (strings_view(parts@), cur@) == parts_state(chars@.take(i as int)),
        decreases chars@.len() - i,
    {
        assert(chars@.take(i + 1).drop_last() == chars@.take(i as int));
        if chars[i] == '/' {
            if !cur.as_str().is_empty() {
                parts.push(cur);
                cur = String::new();
            } else {
                cur = String::new();
            }
        } else {
            push_char(&mut cur, chars[i]);
        }
        i += 1;
    }
    assert(chars@.take(chars@.len() as int) == chars@);
    if !cur.as_str().is_empty() {
        parts.push(cur);
    }
    parts
}

/// The file placed at the end of a path: its kind, content hash, size and
/// modification time.
#[derive(Debug, Clone, Copy)]
pub struct Leaf {
    pub kind: FolderKind,
    pub hash: [u8; 32],
    pub size: u64,
    pub mtime: Option<i64>,
}

pub open spec fn is_leaf(c: FolderNode, leaf: Leaf) -> bool {
    &&& c.kind == leaf.kind
    &&& c.hash == Some(leaf.hash)
    &&& c.size == Some(leaf.size)
    &&& c.mtime == leaf.mtime
    &&& c.children@.len() == 0
}

/// A directory made on the way to a path keeps what the entry it replaces
/// carried, or carries nothing when there was none.
pub open spec fn keeps_fields(old: Option<FolderNode>, new: FolderNode) -> bool {
    match old {
        Some(o) => new.hash == o.hash && new.size == o.size && new.mtime == o.mtime,
        None => new.hash is None && new.size is None && new.mtime is None,
    }
}

/// `new` is the child list `old` after walking `parts`: every entry on the
/// way is (made) a directory, and the last part becomes `leaf` when there is
/// one; everything off the path is unchanged.
pub open spec fn put_path(
    old: Seq<(String, FolderNode)>,
    new: Seq<(String, FolderNode)>,
    parts: Seq<Seq<char>>,
    leaf: Option<Leaf>,
) -> bool
    decreases parts.len(),
{
    if parts.len() == 0 {
        forall|n: Seq<char>| #[trigger] lookup(new, n) == lookup(old, n)
    } else {
        &&& forall|n: Seq<char>| n != parts[0] ==> #[trigger] lookup(new, n) == lookup(old, n)
        &&& match lookup(new, parts[0]) {
            None => false,
            Some(c) => if parts.len() == 1 && leaf is Some {
                is_leaf(c, leaf->0)
            } else {
                &&& c.kind == FolderKind::Dir
                &&& keeps_fields(lookup(old, parts[0]), c)
                &&& put_path(
                    match lookup(old, parts[0]) {
                        Some(o) => o.children@,
                        None => seq![],
                    },
                    c.children@,
                    parts.drop_first(),
                    leaf,
                )
            },
        }
    }
}

/// Two nodes found at a path carry the same: both are missing, or both
/// are there with the same kind, hash, size and modification time.
pub open spec fn same_node(x: Option<FolderNode>, y: Option<FolderNode>) -> bool {
    match (x, y) {
        (None, None) => true,
        (Some(u), Some(v)) => u.kind == v.kind && u.hash == v.hash && u.size == v.size && u.mtime
            == v.mtime,
        _ => false,
    }
}

/// Making the folders of a path makes each of them: every prefix of the
/// path leads to a folder.
pub proof fn law_ensure_dir_makes_folders(
    a: Seq<(String, FolderNode)>,
    b: Seq<(String, FolderNode)>,
    parts: Seq<Seq<char>>,
    k: int,
)
    requires
        put_path(a, b, parts, None),
        1 <= k <= parts.len(),
    ensures
        node_at_path(b, parts.take(k)) matches Some(d) && d.kind == FolderKind::Dir,
    decreases k,
{
    let cb = lookup(b, parts[0])->0;
    let ao = match lookup(a, parts[0]) {
        Some(o) => o.children@,
        None => seq![],
    };
    assert(parts.take(k)[0] == parts[0]);
    if k > 1 {
        law_ensure_dir_makes_folders(ao, cb.children@, parts.drop_first(), k - 1);
        assert(parts.take(k).drop_first() == parts.drop_first().take(k - 1));
    }
}

/// Making the folders of a path a second time changes nothing: below the
/// result of the first time and of the second, every path leads to the same
/// (or to nothing in both).
pub proof fn law_ensure_dir_twice(
    a: Seq<(String, FolderNode)>,
    b: Seq<(String, FolderNode)>,
    c: Seq<(String, FolderNode)>,
    parts: Seq<Seq<char>>,
    q: Seq<Seq<char>>,
)
    requires
        put_path(a, b, parts, None),
        put_path(b, c, parts, None),
    ensures
        same_node(node_at_path(b, q), node_at_path(c, q)),
    decreases q.len(),
{
    if q.len() > 0 {
        if parts.len() == 0 || q[0] != parts[0] {
            assert(lookup(c, q[0]) == lookup(b, q[0]));
            lemma_node_at_path_same(b, c, q);
        } else {
            let cb = lookup(b, parts[0])->0;
            let cc = lookup(c, parts[0])->0;
            let ao = match lookup(a, parts[0]) {
                Some(o) => o.children@,
                None => seq![],
            };
            if q.len() > 1 {
                law_ensure_dir_twice(ao, cb.children@, cc.children@, parts.drop_first(), q.drop_first());
            }
        }
    }
}

/// Two lists whose first lookup along a path agrees lead to the same node.
proof fn lemma_node_at_path_same(b: Seq<(String, FolderNode)>, c: Seq<(String, FolderNode)>, q: Seq<Seq<char>>)
    requires
        q.len() > 0,
        lookup(c, q[0]) == lookup(b, q[0]),
    ensures
        node_at_path(b, q) == node_at_path(c, q),
{
}

pub proof fn lemma_wf_children_update(s: Seq<(String, FolderNode)>, idx: int, x: (String, FolderNode))
    requires
        wf_children(s),
        0 <= idx < s.len(),
        s[idx].0@ == x.0@,
        wf(x.1),
    ensures
        wf_children(s.update(idx, x)),
{
    let t = s.update(idx, x);
    assert forall|i: int, j: int|
        0 <= i < t.len() && 0 <= j < t.len() && i != j implies (#[trigger] t[i]).0@ != (
        #[trigger] t[j]).0@ by {
        assert(s[i].0@ != s[j].0@);
    }
    assert forall|i: int| 0 <= i < t.len() implies wf(#[trigger] t[i].1) by {
        if i != idx {
            assert(t[i] == s[i]);
        }
    }
}

proof fn lemma_wf_children_push(s: Seq<(String, FolderNode)>, x: (String, FolderNode))
    requires
        wf_children(s),
        forall|k: int| 0 <= k < s.len() ==> (#[trigger] s[k]).0@ != x.0@,
        wf(x.1),
    ensures
        wf_children(s.push(x)),
{
    let t = s.push(x);
    assert forall|i: int, j: int|
        0 <= i < t.len() && 0 <= j < t.len() && i != j implies (#[trigger] t[i]).0@ != (
        #[trigger] t[j]).0@ by {
        if i < s.len() && j < s.len() {
            assert(s[i].0@ != s[j].0@);
        } else if i < s.len() {
            assert(s[i].0@ != x.0@);
        } else {
            assert(s[j].0@ != x.0@);
        }
    }
    assert forall|i: int| 0 <= i < t.len() implies wf(#[trigger] t[i].1) by {
        if i < s.len() {
            assert(t[i] == s[i]);
        }
    }
}

fn put_path_exec(
    children: &mut Vec<(String, FolderNode)>,
    parts: &Vec<String>,
    i: usize,
    leaf: Option<Leaf>,
)
    requires
        i <= parts@.len(),
        wf_children(old(children)@),
    ensures
        put_path(old(children)@, final(children)@, strings_view(parts@).skip(i as int), leaf),
        wf_children(final(children)@),
    decreases parts@.len() - i,
{
    let ghost rest = strings_view(parts@).skip(i as int);
    let ghost before = children@;
    if i == parts.len() {
        assert(rest.len() == 0);
        assert(forall|n: Seq<char>| #[trigger] lookup(children@, n) == lookup(before, n));
        return ;
    }
    assert(rest[0] == parts@[i as int]@);
    assert(rest.drop_first() == strings_view(parts@).skip(i + 1));
    let found = find_child(children, parts[i].as_str());
    if i + 1 == parts.len() && leaf.is_some() {
        let l = leaf.unwrap();
        let node = FolderNode {
            kind: l.kind,
            hash: Some(l.hash),
            size: Some(l.size),
            mtime: l.mtime,
            children: Vec::new(),
        };
        assert(wf(node));
        let entry = (parts[i].clone(), node);
        match found {
            Some(idx) => {
                children.remove(idx);
                children.insert(idx, entry);
                proof {
                    assert(children@ == before.update(idx as int, entry));
                    assert forall|n: Seq<char>| #[trigger] lookup(children@, n) == if n == rest[0] {
                        Some(node)
                    } else {
                        lookup(before, n)
                    } by {
                        lemma_lookup_update(before, idx as int, entry, n);
                    }
                    lemma_wf_children_update(before, idx as int, entry);
                    assert(lookup(children@, rest[0]) == Some(node));
                    assert(is_leaf(node, leaf->0));
                }
            },
            None => {
                children.push(entry);
                proof {
                    lemma_lookup_none(before, rest[0]);
                    lemma_lookup_push(before, entry, rest[0]);
                    assert(lookup(children@, rest[0]) == Some(node));
                    assert forall|n: Seq<char>| #[trigger] lookup(children@, n) == if n == rest[0] {
                        Some(node)
                    } else {
                        lookup(before, n)
                    } by {
                        lemma_lookup_push(before, entry, n);
                    }
                    lemma_wf_children_push(before, entry);
                }
            },
        }
    } else {
        let (mut child, at) = match found {
            Some(idx) => {
                let (_name, c) = children.remove(idx);
                (c, Some(idx))
            },
            None => (FolderNode::dir(), None),
        };
        let ghost old_child = child;
        proof {
            match found {
                Some(idx) => {
                    lemma_lookup_first(before, idx as int);
                    assert(old_child == before[idx as int].1);
                },
                None => {
                    lemma_lookup_none(before, rest[0]);
                    assert(old_child.children@ == Seq::<(String, FolderNode)>::empty());
                },
            }
            assert(keeps_fields(lookup(before, rest[0]), old_child));
        }
        child.kind = FolderKind::Dir;
        put_path_exec(&mut child.children, parts, i + 1, leaf);
        assert(wf(child));
        let entry = (parts[i].clone(), child);
        match at {
            Some(idx) => {
                children.insert(idx, entry);
                proof {
                    assert(children@ == before.update(idx as int, entry));
                    assert forall|n: Seq<char>| #[trigger] lookup(children@, n) == if n == rest[0] {
                        Some(child)
                    } else {
                        lookup(before, n)
                    } by {
                        lemma_lookup_update(before, idx as int, entry, n);
                    }
                    lemma_wf_children_update(before, idx as int, entry);
                    assert(lookup(children@, rest[0]) == Some(child));
                }
            },
            None => {
                children.push(entry);
                proof {
                    lemma_lookup_push(before, entry, rest[0]);
                    assert(lookup(children@, rest[0]) == Some(child));
                    assert forall|n: Seq<char>| #[trigger] lookup(children@, n) == if n == rest[0] {
                        Some(child)
                    } else {
                        lookup(before, n)
                    } by {
                        lemma_lookup_push(before, entry, n);
                    }
                    lemma_wf_children_push(before, entry);
                }
            },
        }
    }
}

impl FolderNode {
    /// An empty directory.
    pub fn dir() -> (node: Self)
        ensures
            node.kind == FolderKind::Dir,
            node.hash is None,
            node.size is None,
            node.mtime is None,
            node.children@.len() == 0,
            wf(node),
    {
        FolderNode { kind: FolderKind::Dir, hash: None, size: None, mtime: None, children: Vec::new() }
    }

    /// A file (or archive) with the given content hash and size.
    pub fn file(kind: FolderKind, hash: [u8; 32], size: u64) -> (node: Self)
        ensures
            node.kind == kind,
            node.hash == Some(hash),
            node.size == Some(size),
            node.mtime is None,
            node.children@.len() == 0,
            wf(node),
    {
        FolderNode { kind, hash: Some(hash), size: Some(size), mtime: None, children: Vec::new() }
    }

    /// The same node with its modification time set.
    pub fn with_mtime(self, mtime: Option<i64>) -> (node: Self)
        ensures
            node == (FolderNode { mtime, ..self }),
    {
        let mut node = self;
        node.mtime = mtime;
        node
    }

    /// Places a file at the `/`-separated relative path `rel`, making every
    /// directory on the way; an empty path changes nothing.
    pub fn insert_file(&mut self, rel: &str, kind: FolderKind, hash: [u8; 32], size: u64)
        requires
            wf(*old(self)),
        ensures
            path_parts(rel@).len() == 0 ==> *final(self) == *old(self),
            path_parts(rel@).len() > 0 ==> put_path(
                old(self).children@,
                final(self).children@,
                path_parts(rel@),
                Some(Leaf { kind, hash, size, mtime: None }),
            ),
            final(self).kind == old(self).kind,
            final(self).hash == old(self).hash,
            final(self).size == old(self).size,
            final(self).mtime == old(self).mtime,
            wf(*final(self)),
    {
        self.insert_entry(rel, kind, hash, size, None);
    }

    /// Places a file with a modification time at the `/`-separated relative
    /// path `rel`, making every directory on the way (an entry on the way
    /// that was a file becomes a directory); an empty path changes nothing.
    pub fn insert_entry(
        &mut self,
        rel: &str,
        kind: FolderKind,
        hash: [u8; 32],
        size: u64,
        mtime: Option<i64>,
    )
        requires
            wf(*old(self)),
        ensures
            path_parts(rel@).len() == 0 ==> *final(self) == *old(self),
            path_parts(rel@).len() > 0 ==> put_path(
                old(self).children@,
                final(self).children@,
                path_parts(rel@),
                Some(Leaf { kind, hash, size, mtime }),
            ),
            final(self).kind == old(self).kind,
            final(self).hash == old(self).hash,
            final(self).size == old(self).size,
            final(self).mtime == old(self).mtime,
            wf(*final(self)),
    {
        let parts = split_path(rel);
        if parts.len() == 0 {
            return ;
        }
        assert(strings_view(parts@).skip(0) == strings_view(parts@));
        put_path_exec(&mut self.children, &parts, 0, Some(Leaf { kind, hash, size, mtime }));
    }

    /// Makes every directory of the `/`-separated relative path `rel`.
    pub fn ensure_dir(&mut self, rel: &str)
        requires
            wf(*old(self)),
        ensures
            path_parts(rel@).len() == 0 ==> *final(self) == *old(self),
            put_path(old(self).children@, final(self).children@, path_parts(rel@), None),
            final(self).kind == old(self).kind,
            final(self).hash == old(self).hash,
            final(self).size == old(self).size,
            final(self).mtime == old(self).mtime,
            wf(*final(self)),
    {
        let parts = split_path(rel);
        if parts.len() == 0 {
            return ;
        }
        assert(strings_view(parts@).skip(0) == strings_view(parts@));
        put_path_exec(&mut self.children, &parts, 0, None);
    }

    /// Puts `node` among the children under `name`, in place of the entry
    /// of that name if there is one.
    pub fn insert_child(&mut self, name: String, node: FolderNode)
        requires
            wf(*old(self)),
            wf(node),
        ensures
            wf(*final(self)),
            lookup(final(self).children@, name@) == Some(node),
            forall|n: Seq<char>|
                n != name@ ==> #[trigger] lookup(final(self).children@, n) == lookup(old(self).children@, n),
            final(self).kind == old(self).kind,
            final(self).hash == old(self).hash,
            final(self).size == old(self).size,
            final(self).mtime == old(self).mtime,
    {
        let ghost before = self.children@;
        let ghost key = name@;
        match find_child(&self.children, name.as_str()) {
            Some(idx) => {
                let entry = (name, node);
                self.children.remove(idx);
                self.children.insert(idx, entry);
                proof {
                    assert(self.children@ == before.update(idx as int, entry));
                    lemma_wf_children_update(before, idx as int, entry);
                    assert forall|n: Seq<char>| #[trigger] lookup(self.children@, n) == if n == key {
                        Some(node)
                    } else {
                        lookup(before, n)
                    } by {
                        lemma_lookup_update(before, idx as int, entry, n);
                    }
                    assert(lookup(self.children@, key) == Some(node));
                }
            },
            None => {
                let entry = (name, node);
                self.children.push(entry);
                proof {
                    lemma_lookup_none(before, key);
                    assert forall|n: Seq<char>| #[trigger] lookup(self.children@, n) == if n == key {
                        Some(node)
                    } else {
                        lookup(before, n)
                    } by {
                        lemma_lookup_push(before, entry, n);
                    }
                    assert(lookup(self.children@, key) == Some(node));
                    lemma_wf_children_push(before, entry);
                }
            },
        }
    }

    /// The child named `name`.
    pub fn child(&self, name: &str) -> (c: Option<&FolderNode>)
        ensures
            match c {
                Some(n) => lookup(self.children@, name@) == Some(*n),
                None => lookup(self.children@, name@) is None,
            },
    {
        match find_child(&self.children, name) {
            Some(i) => {
                proof {
                    lemma_lookup_first(self.children@, i as int);
                }
                Some(&self.children[i].1)
            },
            None => {
                proof {
                    lemma_lookup_none(self.children@, name@);
                }
                None
            },
        }
    }
}


/// One row of a directory listing that sets the two trees side by side.
#[derive(Debug, PartialEq, Eq)]
pub struct FolderRow {
    pub name: String,
    pub kind: FolderKind,
    pub status: FolderStatus,
    pub left_size: Option<u64>,
    pub right_size: Option<u64>,
    pub left_mtime: Option<i64>,
    pub right_mtime: Option<i64>,
}

/// The mathematical value of a [`FolderRow`].
pub struct FolderRowView {
    pub name: Seq<char>,
    pub kind: FolderKind,
    pub status: FolderStatus,
    pub left_size: Option<u64>,
    pub right_size: Option<u64>,
    pub left_mtime: Option<i64>,
    pub right_mtime: Option<i64>,
}

impl View for FolderRow {
    type V = FolderRowView;

    open spec fn view(&self) -> FolderRowView {
        FolderRowView {
            name: self.name@,
            kind: self.kind,
            status: self.status,
            left_size: self.left_size,
            right_size: self.right_size,
            left_mtime: self.left_mtime,
            right_mtime: self.right_mtime,
        }
    }
}

impl Clone for FolderRow {
    fn clone(&self) -> (r: Self)
        ensures
            r@ == self@,
    {
        FolderRow {
            name: self.name.clone(),
            kind: self.kind,
            status: self.status,
            left_size: self.left_size,
            right_size: self.right_size,
            left_mtime: self.left_mtime,
            right_mtime: self.right_mtime,
        }
    }
}

pub open spec fn folder_rows_view(rows: Seq<FolderRow>) -> Seq<FolderRowView> {
    rows.map_values(|r: FolderRow| r@)
}

pub open spec fn is_dir(n: FolderNode) -> bool {
    n.kind == FolderKind::Dir
}

pub open spec fn hash_view(h: Option<[u8; 32]>) -> Option<Seq<u8>> {
    match h {
        Some(a) => Some(a@),
        None => None,
    }
}

/// How two nodes of the same name compare: a directory against a
/// non-directory is a type conflict; two directories are equal when their
/// children are; two files are equal when their content hashes are.
pub open spec fn compare_both(l: FolderNode, r: FolderNode) -> FolderStatus
    decreases l, r, 1int,
{
    if is_dir(l) != is_dir(r) {
        FolderStatus::TypeConflict
    } else if is_dir(l) {
        if children_equal(l, r) {
            FolderStatus::Equal
        } else {
            FolderStatus::Different
        }
    } else if hash_view(l.hash) == hash_view(r.hash) {
        FolderStatus::Equal
    } else {
        FolderStatus::Different
    }
}

/// Every name on either side is present on both, and each pair of children
/// compares equal.
pub open spec fn children_equal(l: FolderNode, r: FolderNode) -> bool
    decreases l, r, 0int,
{
    &&& forall|i: int|
        0 <= i < l.children@.len() ==> ((#[trigger] lookup(r.children@, l.children@[i].0@)) matches Some(
            rc,
        ) && compare_both(l.children@[i].1, rc) == FolderStatus::Equal)
    &&& forall|j: int|
        0 <= j < r.children@.len() ==> (#[trigger] lookup(l.children@, r.children@[j].0@)) is Some
}

/// The status of a name given the node (if any) on each side.
pub open spec fn status_spec(l: Option<FolderNode>, r: Option<FolderNode>) -> FolderStatus {
    match (l, r) {
        (None, None) => FolderStatus::Equal,
        (Some(_), None) => FolderStatus::LeftOnly,
        (None, Some(_)) => FolderStatus::RightOnly,
        (Some(a), Some(b)) => compare_both(a, b),
    }
}

/// The kind a row shows: a directory when both sides are directories, an
/// archive when either side is one, a directory when either side is one,
/// and otherwise the kind of the left (or only) node.
pub open spec fn row_kind_spec(l: Option<FolderNode>, r: Option<FolderNode>) -> FolderKind {
    match (l, r) {
        (None, None) => FolderKind::File,
        (Some(a), None) => a.kind,
        (None, Some(b)) => b.kind,
        (Some(a), Some(b)) => if is_dir(a) && is_dir(b) {
            FolderKind::Dir
        } else if a.kind == FolderKind::Archive || b.kind == FolderKind::Archive {
            FolderKind::Archive
        } else if is_dir(a) || is_dir(b) {
            FolderKind::Dir
        } else {
            a.kind
        },
    }
}

pub open spec fn size_of(n: Option<FolderNode>) -> Option<u64> {
    match n {
        Some(x) => x.size,
        None => None,
    }
}

pub open spec fn mtime_of(n: Option<FolderNode>) -> Option<i64> {
    match n {
        Some(x) => x.mtime,
        None => None,
    }
}

/// The row of `name` given the node (if any) on each side.
pub open spec fn row_for(name: Seq<char>, l: Option<FolderNode>, r: Option<FolderNode>) -> FolderRowView {
    FolderRowView {
        name,
        kind: row_kind_spec(l, r),
        status: status_spec(l, r),
        left_size: size_of(l),
        right_size: size_of(r),
        left_mtime: mtime_of(l),
        right_mtime: mtime_of(r),
    }
}

pub open spec fn row_names(rows: Seq<FolderRowView>) -> Seq<Seq<char>> {
    rows.map_values(|r: FolderRowView| r.name)
}

/// `rows` set the child lists `l` and `r` side by side: one row per name of
/// either side, in strictly increasing name order, each with the row of its
/// name.
pub open spec fn aligned(
    l: Seq<(String, FolderNode)>,
    r: Seq<(String, FolderNode)>,
    rows: Seq<FolderRowView>,
) -> bool {
    &&& strictly_sorted(row_names(rows))
    &&& forall|n: Seq<char>|
        #![trigger row_names(rows).contains(n)]
        row_names(rows).contains(n) <==> (lookup(l, n) is Some || lookup(r, n) is Some)
    &&& forall|i: int|
        0 <= i < rows.len() ==> #[trigger] rows[i] == row_for(
            rows[i].name,
            lookup(l, rows[i].name),
            lookup(r, rows[i].name),
        )
}

pub open spec fn opt_node(o: Option<&FolderNode>) -> Option<FolderNode> {
    match o {
        Some(n) => Some(*n),
        None => None,
    }
}

fn hash_eq(a: &Option<[u8; 32]>, b: &Option<[u8; 32]>) -> (r: bool)
    ensures
        r == (hash_view(*a) == hash_view(*b)),
{
    match (a, b) {
        (None, None) => true,
        (Some(x), Some(y)) => {
            let mut i: usize = 0;
            while i < 32
                invariant
                    i <= 32,
                    x@.len() == 32,
                    y@.len() == 32,
                    hash_view(*a) == Some(x@),
                    hash_view(*b) == Some(y@),
                    forall|k: int| 0 <= k < i ==> x@[k] == y@[k],
                decreases 32 - i,
            {
                if x[i] != y[i] {
                    assert(x@[i as int] != y@[i as int]);
                    return false;
                }
                i += 1;
            }
            assert(x@ == y@);
            true
        },
        _ => false,
    }
}

fn add_name(names: &mut Vec<String>, name: &String)
    requires
        strictly_sorted(strings_view(old(names)@)),
    ensures
        strictly_sorted(strings_view(final(names)@)),
        forall|n: Seq<char>|
            #![trigger strings_view(final(names)@).contains(n)]
            strings_view(final(names)@).contains(n) <==> (strings_view(old(names)@).contains(n) || n
                == name@),
{
    let ghost s = strings_view(names@);
    let mut pos: usize = 0;
    while pos < names.len() && name_less(names[pos].as_str(), name.as_str())
        invariant
            pos <= names@.len(),
            s == strings_view(names@),
            forall|k: int| 0 <= k < pos ==> name_lt(#[trigger] s[k], name@),
        decreases names@.len() - pos,
    {
        pos += 1;
    }
    if pos < names.len() && str_eq(names[pos].as_str(), name.as_str()) {
        assert(s[pos as int] == name@);
        assert forall|n: Seq<char>| s.contains(n) <==> (s.contains(n) || n == name@) by {
            if n == name@ {
                assert(s[pos as int] == n);
            }
        }
        return ;
    }
    proof {
        if pos < s.len() {
            lemma_name_lt_total(s[pos as int], name@);
        }
    }
    names.insert(pos, name.clone());
    let ghost t = strings_view(names@);
    assert(t == s.insert(pos as int, name@));
    assert forall|i: int, j: int| 0 <= i < j < t.len() implies name_lt(#[trigger] t[i], #[trigger] t[j]) by {
        if j < pos {
        } else if j == pos {
        } else if i < pos {
            assert(t[j] == s[j - 1]);
            assert(name_lt(s[i], s[j - 1]));
        } else if i == pos {
            assert(t[j] == s[j - 1]);
            if j - 1 > pos {
                assert(name_lt(s[pos as int], s[j - 1]));
                lemma_name_lt_transitive(name@, s[pos as int], s[j - 1]);
            }
        } else {
            assert(t[i] == s[i - 1]);
            assert(t[j] == s[j - 1]);
        }
    }
    assert forall|n: Seq<char>| #![trigger t.contains(n)] t.contains(n) <==> (s.contains(n) || n == name@) by {
        if t.contains(n) {
            let k = choose|k: int| 0 <= k < t.len() && t[k] == n;
            if k < pos {
                assert(s[k] == n);
            } else if k > pos {
                assert(s[k - 1] == n);
            }
        }
        if s.contains(n) {
            let k = choose|k: int| 0 <= k < s.len() && s[k] == n;
            if k < pos {
                assert(t[k] == n);
            } else {
                assert(t[k + 1] == n);
            }
        }
        if n == name@ {
            assert(t[pos as int] == n);
        }
    }
}

fn node_kind(left: Option<&FolderNode>, right: Option<&FolderNode>) -> (k: FolderKind)
    ensures
        k == row_kind_spec(opt_node(left), opt_node(right)),
{
    match (left, right) {
        (None, None) => FolderKind::File,
        (Some(a), None) => a.kind,
        (None, Some(b)) => b.kind,
        (Some(a), Some(b)) => {
            let da = a.kind == FolderKind::Dir;
            let db = b.kind == FolderKind::Dir;
            if da && db {
                FolderKind::Dir
            } else if a.kind == FolderKind::Archive || b.kind == FolderKind::Archive {
                FolderKind::Archive
            } else if da || db {
                FolderKind::Dir
            } else {
                a.kind
            }
        },
    }
}

/// Two folders compare equal exactly when every row of the listing that
/// sets their children side by side is equal.
pub proof fn law_folder_rollup(l: FolderNode, r: FolderNode, rows: Seq<FolderRowView>)
    requires
        wf(l),
        wf(r),
        is_dir(l),
        is_dir(r),
        aligned(l.children@, r.children@, rows),
    ensures
        (compare_both(l, r) == FolderStatus::Equal) == all_equal(rows),
        compare_both(l, r) == FolderStatus::Equal || compare_both(l, r) == FolderStatus::Different,
{
    lemma_rollup_children(l, r, rows);
}

/// When one side has nothing, every row of the listing is there on the
/// other side only, with no size or time on the empty side.
pub proof fn law_one_side_only(s: Seq<(String, FolderNode)>, rows: Seq<FolderRowView>)
    ensures
        aligned(s, seq![], rows) ==> forall|i: int|
            0 <= i < rows.len() ==> (#[trigger] rows[i]).status == FolderStatus::LeftOnly
                && rows[i].right_size is None && rows[i].right_mtime is None,
        aligned(seq![], s, rows) ==> forall|i: int|
            0 <= i < rows.len() ==> (#[trigger] rows[i]).status == FolderStatus::RightOnly
                && rows[i].left_size is None && rows[i].left_mtime is None,
{
    let e: Seq<(String, FolderNode)> = seq![];
    assert forall|n: Seq<char>| lookup(e, n) is None by {}
    assert forall|i: int| 0 <= i < rows.len() && aligned(s, e, rows) implies (#[trigger] rows[i]).status
        == FolderStatus::LeftOnly && rows[i].right_size is None && rows[i].right_mtime is None by {
        assert(row_names(rows)[i] == rows[i].name);
        assert(row_names(rows).contains(rows[i].name));
    }
    assert forall|i: int| 0 <= i < rows.len() && aligned(e, s, rows) implies (#[trigger] rows[i]).status
        == FolderStatus::RightOnly && rows[i].left_size is None && rows[i].left_mtime is None by {
        assert(row_names(rows)[i] == rows[i].name);
        assert(row_names(rows).contains(rows[i].name));
    }
}

/// A nested archive compares as a file until it is entered: by the hash of
/// its bytes alone, whatever has been read below it; against a folder it is
/// a type conflict.
pub proof fn law_archives_compare_by_hash(l: FolderNode, r: FolderNode)
    requires
        l.kind == FolderKind::Archive,
    ensures
        r.kind != FolderKind::Dir ==> compare_both(l, r) == if hash_view(l.hash) == hash_view(r.hash) {
            FolderStatus::Equal
        } else {
            FolderStatus::Different
        },
        r.kind == FolderKind::Dir ==> compare_both(l, r) == FolderStatus::TypeConflict,
{
}

/// `a` and `b` are the same tree but for sizes and modification times.
pub open spec fn same_but_times(a: FolderNode, b: FolderNode) -> bool
    decreases a,
{
    &&& a.kind == b.kind
    &&& a.hash == b.hash
    &&& a.children@.len() == b.children@.len()
    &&& forall|i: int|
        0 <= i < a.children@.len() ==> (#[trigger] a.children@[i]).0@ == b.children@[i].0@
            && same_but_times(a.children@[i].1, b.children@[i].1)
}

/// Two trees that differ only in sizes and modification times compare
/// equal: only names, kinds and content hashes decide.
pub proof fn law_times_do_not_matter(a: FolderNode, b: FolderNode)
    requires
        wf(a),
        wf(b),
        same_but_times(a, b),
    ensures
        compare_both(a, b) == FolderStatus::Equal,
    decreases a,
{
    if is_dir(a) {
        assert forall|i: int| 0 <= i < a.children@.len() implies ((#[trigger] lookup(
            b.children@,
            a.children@[i].0@,
        )) matches Some(rc) && compare_both(a.children@[i].1, rc) == FolderStatus::Equal) by {
            lemma_wf_lookup(b.children@, i);
            assert(wf(a.children@[i].1) && wf(b.children@[i].1));
            law_times_do_not_matter(a.children@[i].1, b.children@[i].1);
        }
        assert forall|j: int| 0 <= j < b.children@.len() implies (#[trigger] lookup(
            a.children@,
            b.children@[j].0@,
        )) is Some by {
            assert(a.children@[j].0@ == b.children@[j].0@);
            lemma_wf_lookup(a.children@, j);
        }
        assert(children_equal(a, b));
    }
}

/// Whether every row is equal (an empty listing is equal).
pub open spec fn all_equal(rows: Seq<FolderRowView>) -> bool {
    forall|i: int| 0 <= i < rows.len() ==> (#[trigger] rows[i]).status == FolderStatus::Equal
}

fn rollup(rows: &Vec<FolderRow>) -> (s: FolderStatus)
    ensures
        s == if all_equal(folder_rows_view(rows@)) {
            FolderStatus::Equal
        } else {
            FolderStatus::Different
        },
{
    let ghost rv = folder_rows_view(rows@);
    let mut i: usize = 0;
    while i < rows.len()
        invariant
            i <= rows@.len(),
            rv == folder_rows_view(rows@),
            forall|k: int| 0 <= k < i ==> (#[trigger] rv[k]).status == FolderStatus::Equal,
        decreases rows@.len() - i,
    {
        if rows[i].status != FolderStatus::Equal {
            assert(rv[i as int].status != FolderStatus::Equal);
            return FolderStatus::Different;
        }
        i += 1;
    }
    FolderStatus::Equal
}

pub proof fn lemma_wf_lookup(s: Seq<(String, FolderNode)>, i: int)
    requires
        unique_names(s),
        0 <= i < s.len(),
    ensures
        lookup(s, s[i].0@) == Some(s[i].1),
{
    assert forall|k: int| 0 <= k < i implies (#[trigger] s[k]).0@ != s[i].0@ by {
        assert(s[k].0@ != s[i].0@);
    }
    lemma_lookup_first(s, i);
}

proof fn lemma_lookup_in(s: Seq<(String, FolderNode)>, name: Seq<char>)
    requires
        lookup(s, name) is Some,
    ensures
        exists|i: int| 0 <= i < s.len() && #[trigger] s[i].0@ == name,
        forall|i: int| 0 <= i < s.len() && unique_names(s) && (#[trigger] s[i].0@) == name ==> lookup(s, name) == Some(s[i].1),
{
    lemma_lookup_some(s, name);
    assert forall|i: int| 0 <= i < s.len() && unique_names(s) && (#[trigger] s[i].0@) == name implies lookup(s, name) == Some(s[i].1) by {
        lemma_wf_lookup(s, i);
    }
}

proof fn lemma_rollup_children(l: FolderNode, r: FolderNode, rows: Seq<FolderRowView>)
    requires
        wf(l),
        wf(r),
        aligned(l.children@, r.children@, rows),
    ensures
        all_equal(rows) == children_equal(l, r),
{
    let ls = l.children@;
    let rs = r.children@;
    if all_equal(rows) {
        assert forall|i: int| 0 <= i < ls.len() implies ((#[trigger] lookup(rs, ls[i].0@)) matches Some(rc)
            && compare_both(ls[i].1, rc) == FolderStatus::Equal) by {
            let n = ls[i].0@;
            lemma_wf_lookup(ls, i);
            assert(row_names(rows).contains(n));
            let k = choose|k: int| 0 <= k < row_names(rows).len() && row_names(rows)[k] == n;
            assert(rows[k] == row_for(rows[k].name, lookup(ls, rows[k].name), lookup(rs, rows[k].name)));
            assert(rows[k].status == FolderStatus::Equal);
        }
        assert forall|j: int| 0 <= j < rs.len() implies (#[trigger] lookup(ls, rs[j].0@)) is Some by {
            let n = rs[j].0@;
            lemma_wf_lookup(rs, j);
            assert(row_names(rows).contains(n));
            let k = choose|k: int| 0 <= k < row_names(rows).len() && row_names(rows)[k] == n;
            assert(rows[k] == row_for(rows[k].name, lookup(ls, rows[k].name), lookup(rs, rows[k].name)));
            assert(rows[k].status == FolderStatus::Equal);
        }
    }
    if children_equal(l, r) {
        assert forall|k: int| 0 <= k < rows.len() implies (#[trigger] rows[k]).status == FolderStatus::Equal by {
            let n = rows[k].name;
            assert(row_names(rows)[k] == n);
            assert(row_names(rows).contains(n));
            if lookup(ls, n) is Some {
                lemma_lookup_in(ls, n);
                let i = choose|i: int| 0 <= i < ls.len() && #[trigger] ls[i].0@ == n;
                assert(lookup(rs, ls[i].0@) is Some);
            } else {
                lemma_lookup_in(rs, n);
                let j = choose|j: int| 0 <= j < rs.len() && #[trigger] rs[j].0@ == n;
                assert(lookup(ls, rs[j].0@) is Some);
            }
        }
    }
}

fn compare_pair(l: &FolderNode, r: &FolderNode) -> (s: FolderStatus)
    requires
        wf(*l),
        wf(*r),
    ensures
        s == compare_both(*l, *r),
    decreases *l, *r, 1int,
{
    let dl = l.kind == FolderKind::Dir;
    let dr = r.kind == FolderKind::Dir;
    if dl != dr {
        FolderStatus::TypeConflict
    } else if dl {
        let rows = align_children(&l.children, &r.children);
        proof {
            lemma_rollup_children(*l, *r, folder_rows_view(rows@));
        }
        rollup(&rows)
    } else if hash_eq(&l.hash, &r.hash) {
        FolderStatus::Equal
    } else {
        FolderStatus::Different
    }
}

/// How the node (if any) of a name on the left compares with the node of
/// that name on the right.
pub fn compare_nodes(left: Option<&FolderNode>, right: Option<&FolderNode>) -> (s: FolderStatus)
    requires
        left matches Some(n) ==> wf(*n),
        right matches Some(n) ==> wf(*n),
    ensures
        s == status_spec(opt_node(left), opt_node(right)),
{
    match (left, right) {
        (None, None) => FolderStatus::Equal,
        (Some(_), None) => FolderStatus::LeftOnly,
        (None, Some(_)) => FolderStatus::RightOnly,
        (Some(l), Some(r)) => compare_pair(l, r),
    }
}

fn entry_at<'a>(children: &'a Vec<(String, FolderNode)>, name: &str) -> (c: Option<&'a FolderNode>)
    ensures
        opt_node(c) == lookup(children@, name@),
        c matches Some(n) ==> exists|i: int| 0 <= i < children@.len() && children@[i].1 == *n,
{
    match find_child(children, name) {
        Some(i) => {
            proof {
                lemma_lookup_first(children@, i as int);
            }
            Some(&children[i].1)
        },
        None => {
            proof {
                lemma_lookup_none(children@, name@);
            }
            None
        },
    }
}

/// Sets two child lists side by side: one row per name of either side, in
/// name order, with the kind, status, sizes and times of each side.
pub fn align_children(left: &Vec<(String, FolderNode)>, right: &Vec<(String, FolderNode)>) -> (rows: Vec<
    FolderRow,
>)
    requires
        wf_children(left@),
        wf_children(right@),
    ensures
        aligned(left@, right@, folder_rows_view(rows@)),
    decreases left, right, 0int,
{
    let mut names: Vec<String> = Vec::new();
    let mut i: usize = 0;
    while i < left.len()
        invariant
            i <= left@.len(),
            strictly_sorted(strings_view(names@)),
            forall|n: Seq<char>|
                #![trigger strings_view(names@).contains(n)]
                strings_view(names@).contains(n) <==> exists|k: int| 0 <= k < i && #[trigger] left@[k].0@ == n,
        decreases left@.len() - i,
    {
        add_name(&mut names, &left[i].0);
        proof {
            assert forall|n: Seq<char>| #![trigger strings_view(names@).contains(n)]
                strings_view(names@).contains(n) <==> exists|k: int| 0 <= k < i + 1 && #[trigger] left@[k].0@ == n by {
                if n == left@[i as int].0@ {
                    assert(left@[i as int].0@ == n);
                }
            }
        }
        i += 1;
    }
    let mut j: usize = 0;
    while j < right.len()
        invariant
            j <= right@.len(),
            strictly_sorted(strings_view(names@)),
            forall|n: Seq<char>|
                #![trigger strings_view(names@).contains(n)]
                strings_view(names@).contains(n) <==> (exists|k: int| 0 <= k < left@.len() && #[trigger] left@[k].0@ == n)
                    || (exists|k: int| 0 <= k < j && #[trigger] right@[k].0@ == n),
        decreases right@.len() - j,
    {
        add_name(&mut names, &right[j].0);
        proof {
            assert forall|n: Seq<char>| #![trigger strings_view(names@).contains(n)]
                strings_view(names@).contains(n) <==> (exists|k: int| 0 <= k < left@.len() && #[trigger] left@[k].0@ == n)
                    || (exists|k: int| 0 <= k < j + 1 && #[trigger] right@[k].0@ == n) by {
                if n == right@[j as int].0@ {
                    assert(right@[j as int].0@ == n);
                }
            }
        }
        j += 1;
    }
    let ghost nv = strings_view(names@);
    let mut rows: Vec<FolderRow> = Vec::new();
    let mut k: usize = 0;
    while k < names.len()
        invariant
            k <= names@.len(),
            nv == strings_view(names@),
            wf_children(left@),
            wf_children(right@),
            folder_rows_view(rows@).len() == k,
            forall|t: int| 0 <= t < k ==> (#[trigger] folder_rows_view(rows@)[t]).name == nv[t],
            forall|t: int|
                0 <= t < k ==> #[trigger] folder_rows_view(rows@)[t] == row_for(
                    nv[t],
                    lookup(left@, nv[t]),
                    lookup(right@, nv[t]),
                ),
        decreases names@.len() - k,
    {
        let name = names[k].as_str();
        let l = entry_at(left, name);
        let r = entry_at(right, name);
        proof {
            if let Some(n) = l {
                let t = choose|t: int| 0 <= t < left@.len() && left@[t].1 == *n;
                assert(wf(left@[t].1));
            }
            if let Some(n) = r {
                let t = choose|t: int| 0 <= t < right@.len() && right@[t].1 == *n;
                assert(wf(right@[t].1));
            }
        }
        let status = match (l, r) {
            (None, None) => FolderStatus::Equal,
            (Some(_), None) => FolderStatus::LeftOnly,
            (None, Some(_)) => FolderStatus::RightOnly,
            (Some(a), Some(b)) => {
                proof {
                    let t = choose|t: int| 0 <= t < left@.len() && left@[t].1 == *a;
                    assert(decreases_to!(left => left@[t].1));
                }
                compare_pair(a, b)
            },
        };
        let row = FolderRow {
            name: names[k].clone(),
            kind: node_kind(l, r),
            status,
            left_size: match l {
                Some(n) => n.size,
                None => None,
            },
            right_size: match r {
                Some(n) => n.size,
                None => None,
            },
            left_mtime: match l {
                Some(n) => n.mtime,
                None => None,
            },
            right_mtime: match r {
                Some(n) => n.mtime,
                None => None,
            },
        };
        let ghost before = folder_rows_view(rows@);
        rows.push(row);
        assert(folder_rows_view(rows@) == before.push(row@));
        k += 1;
    }
    let ghost rv = folder_rows_view(rows@);
    assert(row_names(rv) == nv);
    proof {
        assert forall|n: Seq<char>| #![trigger row_names(rv).contains(n)]
            row_names(rv).contains(n) <==> (lookup(left@, n) is Some || lookup(right@, n) is Some) by {
            if lookup(left@, n) is Some {
                lemma_lookup_in(left@, n);
                let t = choose|t: int| 0 <= t < left@.len() && #[trigger] left@[t].0@ == n;
                assert(nv.contains(n));
            }
            if lookup(right@, n) is Some {
                lemma_lookup_in(right@, n);
                let t = choose|t: int| 0 <= t < right@.len() && #[trigger] right@[t].0@ == n;
                assert(nv.contains(n));
            }
            if nv.contains(n) {
                if exists|t: int| 0 <= t < left@.len() && #[trigger] left@[t].0@ == n {
                    let t = choose|t: int| 0 <= t < left@.len() && #[trigger] left@[t].0@ == n;
                    lemma_wf_lookup(left@, t);
                } else {
                    let t = choose|t: int| 0 <= t < right@.len() && #[trigger] right@[t].0@ == n;
                    lemma_wf_lookup(right@, t);
                }
            }
        }
    }
    rows
}


/// Whether a row with `status` passes the filter named `filter`.
pub fn folder_row_matches(status: FolderStatus, filter: &str) -> (r: bool)
    ensures
        r == passes(filter_of(filter@), status == FolderStatus::Equal),
{
    match parse_filter(filter) {
        RowFilter::Same => status == FolderStatus::Equal,
        RowFilter::Diff => status != FolderStatus::Equal,
        RowFilter::All => true,
    }
}

/// The rows of `rows` that pass `filter`, in order.
pub open spec fn matching_folder_rows(rows: Seq<FolderRowView>, filter: RowFilter) -> Seq<FolderRowView>
    decreases rows.len(),
{
    if rows.len() == 0 {
        seq![]
    } else {
        let p = matching_folder_rows(rows.drop_last(), filter);
        if passes(filter, rows.last().status == FolderStatus::Equal) {
            p.push(rows.last())
        } else {
            p
        }
    }
}

/// A window over the rows that pass `filter`: the rows from `offset` on, at
/// most `limit` of them, and the number of rows that pass.
pub fn window_folder_rows(rows: &[FolderRow], filter: &str, offset: usize, limit: usize) -> (res: (
    Vec<FolderRow>,
    usize,
))
    ensures
        folder_rows_view(res.0@) == window_of(
            matching_folder_rows(folder_rows_view(rows@), filter_of(filter@)),
            offset as int,
            limit as int,
        ),
        res.1 == matching_folder_rows(folder_rows_view(rows@), filter_of(filter@)).len(),
{
    let f = parse_filter(filter);
    let ghost rv = folder_rows_view(rows@);
    let mut total: usize = 0;
    let mut window: Vec<FolderRow> = Vec::new();
    let mut i: usize = 0;
    while i < rows.len()
        invariant
            i <= rows@.len(),
            rv == folder_rows_view(rows@),
            f == filter_of(filter@),
            total == matching_folder_rows(rv.take(i as int), f).len(),
            total <= i,
            folder_rows_view(window@) == window_of(matching_folder_rows(rv.take(i as int), f), offset as int, limit as int),
        decreases rows@.len() - i,
    {
        let ghost before = matching_folder_rows(rv.take(i as int), f);
        assert(rv.take(i + 1).drop_last() == rv.take(i as int));
        let keep = match f {
            RowFilter::Same => rows[i].status == FolderStatus::Equal,
            RowFilter::Diff => rows[i].status != FolderStatus::Equal,
            RowFilter::All => true,
        };
        if keep {
            if total >= offset && total - offset < limit {
                let c = rows[i].clone();
                assert(c@ == rv[i as int]);
                let ghost w0 = folder_rows_view(window@);
                window.push(c);
                assert(folder_rows_view(window@) == w0.push(rv[i as int]));
                assert(window_of(before, offset as int, limit as int) == before.subrange(offset as int, before.len() as int));
                assert(window_of(before.push(rv[i as int]), offset as int, limit as int) == before.push(rv[i as int]).subrange(offset as int, before.len() + 1 as int));
                assert(before.push(rv[i as int]).subrange(offset as int, before.len() + 1 as int) == before.subrange(offset as int, before.len() as int).push(rv[i as int]));
            } else {
                assert(window_of(before, offset as int, limit as int) == window_of(before.push(rv[i as int]), offset as int, limit as int));
            }
            total += 1;
        }
        i += 1;
    }
    assert(rv.take(rows@.len() as int) == rv);
    (window, total)
}

/// Number of rows that are equal.
pub open spec fn count_equal(rows: Seq<FolderRowView>) -> nat
    decreases rows.len(),
{
    if rows.len() == 0 {
        0
    } else {
        count_equal(rows.drop_last()) + if rows.last().status == FolderStatus::Equal {
            1nat
        } else {
            0nat
        }
    }
}

proof fn lemma_count_equal_bound(rows: Seq<FolderRowView>)
    ensures
        count_equal(rows) <= rows.len(),
    decreases rows.len(),
{
    if rows.len() > 0 {
        lemma_count_equal_bound(rows.drop_last());
    }
}

/// The count of equal rows is the number of rows the "same" filter shows,
/// the count of the others the number the "diff" filter shows, and the
/// "all" filter shows every row.
pub proof fn law_counts_match_filters(rows: Seq<FolderRowView>)
    ensures
        matching_folder_rows(rows, RowFilter::Same).len() == count_equal(rows),
        matching_folder_rows(rows, RowFilter::Diff).len() == rows.len() - count_equal(rows),
        matching_folder_rows(rows, RowFilter::All) == rows,
    decreases rows.len(),
{
    if rows.len() > 0 {
        law_counts_match_filters(rows.drop_last());
        assert(rows.drop_last().push(rows.last()) == rows);
    }
}

/// How many rows are equal and how many are not.
pub fn folder_summary_counts(rows: &[FolderRow]) -> (counts: (u32, u32))
    requires
        rows@.len() <= u32::MAX,
    ensures
        counts.0 == count_equal(folder_rows_view(rows@)),
        counts.0 + counts.1 == rows@.len(),
{
    let ghost rv = folder_rows_view(rows@);
    let mut equal: u32 = 0;
    let mut i: usize = 0;
    while i < rows.len()
        invariant
            i <= rows@.len() <= u32::MAX,
            rv == folder_rows_view(rows@),
            equal == count_equal(rv.take(i as int)),
        decreases rows@.len() - i,
    {
        proof {
            assert(rv.take(i + 1).drop_last() == rv.take(i as int));
            lemma_count_equal_bound(rv.take(i as int));
        }
        if rows[i].status == FolderStatus::Equal {
            equal = equal + 1;
        }
        i += 1;
    }
    proof {
        assert(rv.take(rows@.len() as int) == rv);
        lemma_count_equal_bound(rv);
    }
    let different = rows.len() as u32 - equal;
    (equal, different)
}

/// The text of one segment of the path bar: its name followed by `!/` for
/// an archive, `/` otherwise.
pub open spec fn path_segment(seg: (String, bool)) -> Seq<char> {
    seg.0@ + if seg.1 {
        "!/"@
    } else {
        "/"@
    }
}

/// The path bar: every segment in turn.
pub open spec fn path_bar_spec(segments: Seq<(String, bool)>) -> Seq<char>
    decreases segments.len(),
{
    if segments.len() == 0 {
        seq![]
    } else {
        path_bar_spec(segments.drop_last()) + path_segment(segments.last())
    }
}

/// Joins the names of the entered folders and archives into a path bar,
/// e.g. `BOOT-INF/lib/foo.jar!/`.
pub fn format_path_bar(segments: &[(String, bool)]) -> (bar: String)
    ensures
        bar@ == path_bar_spec(segments@),
{
    let mut out = String::new();
    let mut i: usize = 0;
    while i < segments.len()
        invariant
            i <= segments@.len(),
            out@ == path_bar_spec(segments@.take(i as int)),
        decreases segments@.len() - i,
    {
        assert(segments@.take(i + 1).drop_last() == segments@.take(i as int));
        out.append(segments[i].0.as_str());
        if segments[i].1 {
            out.append("!/");
        } else {
            out.append("/");
        }
        i += 1;
    }
    assert(segments@.take(segments@.len() as int) == segments@);
    out
}

/// Whether `name` ends (ignoring ASCII case) with `.jar`, `.zip`, `.war` or
/// `.ear`.
pub open spec fn archive_name(name: Seq<char>) -> bool {
    ends_with_ci(name, ".jar"@) || ends_with_ci(name, ".zip"@) || ends_with_ci(name, ".war"@)
        || ends_with_ci(name, ".ear"@)
}

/// Every name ending (ignoring ASCII case) in `.jar`, `.zip`, `.war` or
/// `.ear` is an archive name.
pub proof fn law_archive_suffixes(name: Seq<char>)
    ensures
        ends_with_ci(name, ".jar"@) ==> archive_name(name),
        ends_with_ci(name, ".zip"@) ==> archive_name(name),
        ends_with_ci(name, ".war"@) ==> archive_name(name),
        ends_with_ci(name, ".ear"@) ==> archive_name(name),
{
}

pub fn is_archive_name(name: &str) -> (r: bool)
    ensures
        r == archive_name(name@),
        ends_with_ci(name@, ".jar"@) ==> r,
        ends_with_ci(name@, ".zip"@) ==> r,
        ends_with_ci(name@, ".war"@) ==> r,
        ends_with_ci(name@, ".ear"@) ==> r,
        r ==> ends_with_ci(name@, ".jar"@) || ends_with_ci(name@, ".zip"@) || ends_with_ci(name@, ".war"@)
            || ends_with_ci(name@, ".ear"@),
{
    proof {
        law_archive_suffixes(name@);
    }
    ends_with_ignore_case(name, ".jar") || ends_with_ignore_case(name, ".zip")
        || ends_with_ignore_case(name, ".war") || ends_with_ignore_case(name, ".ear")
}

/// Whether `name` ends (ignoring ASCII case) with `.class`.
pub fn is_class_name(name: &str) -> (r: bool)
    ensures
        r == ends_with_ci(name@, ".class"@),
{
    ends_with_ignore_case(name, ".class")
}

/// Whether `name` ends (ignoring ASCII case) with one of the extensions that
/// are read as text.
pub open spec fn text_name(name: Seq<char>) -> bool {
    ||| ends_with_ci(name, ".xml"@)
    ||| ends_with_ci(name, ".yml"@)
    ||| ends_with_ci(name, ".yaml"@)
    ||| ends_with_ci(name, ".properties"@)
    ||| ends_with_ci(name, ".html"@)
    ||| ends_with_ci(name, ".htm"@)
    ||| ends_with_ci(name, ".md"@)
    ||| ends_with_ci(name, ".txt"@)
    ||| ends_with_ci(name, ".json"@)
    ||| ends_with_ci(name, ".js"@)
    ||| ends_with_ci(name, ".ts"@)
    ||| ends_with_ci(name, ".css"@)
    ||| ends_with_ci(name, ".java"@)
    ||| ends_with_ci(name, ".kt"@)
    ||| ends_with_ci(name, ".sql"@)
    ||| ends_with_ci(name, ".conf"@)
    ||| ends_with_ci(name, ".ini"@)
    ||| ends_with_ci(name, ".csv"@)
    ||| ends_with_ci(name, ".gradle"@)
}

pub fn is_text_name(name: &str) -> (r: bool)
    ensures
        r == text_name(name@),
{
    ends_with_ignore_case(name, ".xml") || ends_with_ignore_case(name, ".yml")
        || ends_with_ignore_case(name, ".yaml") || ends_with_ignore_case(name, ".properties")
        || ends_with_ignore_case(name, ".html") || ends_with_ignore_case(name, ".htm")
        || ends_with_ignore_case(name, ".md") || ends_with_ignore_case(name, ".txt")
        || ends_with_ignore_case(name, ".json") || ends_with_ignore_case(name, ".js")
        || ends_with_ignore_case(name, ".ts") || ends_with_ignore_case(name, ".css")
        || ends_with_ignore_case(name, ".java") || ends_with_ignore_case(name, ".kt")
        || ends_with_ignore_case(name, ".sql") || ends_with_ignore_case(name, ".conf")
        || ends_with_ignore_case(name, ".ini") || ends_with_ignore_case(name, ".csv")
        || ends_with_ignore_case(name, ".gradle")
}

} // verus!
