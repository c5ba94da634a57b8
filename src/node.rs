use crate::list::{records, DuruFile, Record};
use vstd::prelude::*;

verus! {

broadcast use {vstd::std_specs::vec::group_vec_axioms, vstd::seq::group_seq_axioms};

/// The errors of the tree model and of its flattening.
#[derive(Debug, PartialEq, Eq, Clone, Copy, Structural)]
pub enum DuruError {
    NotADir,
    NotAFile,
    IsLeaf,
    NotRoot,
    ExistingChildren,
    NoChildren,
    RootCantBeChild,
    FailedListExtraction,
    DirectoryUnreadable,
}

/// One node of the scanned tree.  `children` is `None` until the node is
/// expanded.  A `Dir` stores its own resolved path; a `File` stores the path
/// of the directory that holds it.
#[derive(Debug)]
#[allow(inconsistent_fields)]
pub enum Node {
    File { name: String, path: String, size: u64 },
    Dir { name: String, path: String, size: Option<u64>, children: Option<Vec<Node>> },
    Root { children: Option<Vec<Node>>, path: String },
}

/// The files reachable from `n`, depth first and in listing order.
pub open spec fn files_of(n: Node) -> Seq<Record>
    decreases n,
{
    match n {
        Node::File { name, path, size } => seq![(name@, path@, size)],
        Node::Dir { children, .. } => match children {
            Some(c) => files_of_seq(c@),
            None => Seq::empty(),
        },
        Node::Root { children, .. } => match children {
            Some(c) => files_of_seq(c@),
            None => Seq::empty(),
        },
    }
}

/// The files reachable from each node of `s`, concatenated in order.
pub open spec fn files_of_seq(s: Seq<Node>) -> Seq<Record>
    decreases s,
{
    if s.len() == 0 {
        Seq::empty()
    } else {
        files_of_seq(s.drop_last()) + files_of(s.last())
    }
}

/// The number of leaf files reachable from `n` through expanded nodes.
pub open spec fn leaf_count(n: Node) -> nat
    decreases n,
{
    match n {
        Node::File { .. } => 1,
        Node::Dir { children, .. } => match children {
            Some(c) => leaf_count_seq(c@),
            None => 0,
        },
        Node::Root { children, .. } => match children {
            Some(c) => leaf_count_seq(c@),
            None => 0,
        },
    }
}

/// The number of leaf files reachable from the nodes of `s`.
pub open spec fn leaf_count_seq(s: Seq<Node>) -> nat
    decreases s,
{
    if s.len() == 0 {
        0
    } else {
        leaf_count_seq(s.drop_last()) + leaf_count(s.last())
    }
}

/// Flattening yields one record per leaf file, at any depth of nesting.
pub proof fn lemma_record_count(n: Node)
    ensures
        files_of(n).len() == leaf_count(n),
    decreases n,
{
    match n {
        Node::File { .. } => {},
        Node::Dir { children, .. } => match children {
            Some(c) => lemma_record_count_seq(c@),
            None => {},
        },
        Node::Root { children, .. } => match children {
            Some(c) => lemma_record_count_seq(c@),
            None => {},
        },
    }
}

/// Flattening the nodes of `s` yields one record per leaf file under them.
pub proof fn lemma_record_count_seq(s: Seq<Node>)
    ensures
        files_of_seq(s).len() == leaf_count_seq(s),
    decreases s,
{
    if s.len() > 0 {
        lemma_record_count_seq(s.drop_last());
        lemma_record_count(s.last());
    }
}

/// Whether a `Root` stands among the expanded descendants of `n`.
pub open spec fn nests_root(n: Node) -> bool
    decreases n,
{
    match n {
        Node::File { .. } => false,
        Node::Dir { children, .. } => match children {
            Some(c) => nests_root_seq(c@),
            None => false,
        },
        Node::Root { children, .. } => match children {
            Some(c) => nests_root_seq(c@),
            None => false,
        },
    }
}

/// Whether a `Root` stands in `s` or among the expanded descendants of its nodes.
pub open spec fn nests_root_seq(s: Seq<Node>) -> bool
    decreases s,
{
    if s.len() == 0 {
        false
    } else {
        nests_root_seq(s.drop_last()) || s.last() is Root || nests_root(s.last())
    }
}

/// Flattens the subtree under `node` into the records of its files, or fails
/// with `RootCantBeChild` where a `Root` is nested in it.
fn file_list_recurse(node: &Node) -> (r: Result<Vec<DuruFile>, DuruError>)
    ensures
        match r {
            Ok(v) => !nests_root(*node) && records(v@) == files_of(*node),
            Err(e) => nests_root(*node) && e == DuruError::RootCantBeChild,
        },
    decreases node,
{
    match node {
        Node::File { name, path, size } => {
            let mut v: Vec<DuruFile> = Vec::new();
            v.push(DuruFile::new(name.clone(), path.clone(), *size));
            assert(records(v@) =~= files_of(*node));
            Ok(v)
        },
        Node::Dir { children, .. } | Node::Root { children, .. } => {
            match children {
                None => {
                    let v: Vec<DuruFile> = Vec::new();
                    assert(records(v@) =~= files_of(*node));
                    Ok(v)
                },
                Some(c) => {
                    let mut acc: Vec<DuruFile> = Vec::new();
                    let mut i: usize = 0;
                    assert(decreases_to!(*node => *c));
                    while i < c.len()
                        invariant
                            i <= c.len(),
                            files_of(*node) == files_of_seq(c@),
                            nests_root(*node) == nests_root_seq(c@),
                            decreases_to!(*node => *c),
                            !nests_root_seq(c@.subrange(0, i as int)),
                            records(acc@) == files_of_seq(c@.subrange(0, i as int)),
                        decreases c.len() - i,
                    {
                        let ghost pre = c@.subrange(0, i as int);
                        let ghost next = c@.subrange(0, i as int + 1);
                        assert(next.drop_last() =~= pre);
                        assert(next.last() == c@[i as int]);
                        if let Node::Root { .. } = &c[i] {
                            assert(nests_root_seq(c@)) by {
                                lemma_nests_root_prefix(c@, i as int + 1);
                            }
                            return Err(DuruError::RootCantBeChild);
                        }
                        assert(decreases_to!(*c => c[i as int]));
                        assert(decreases_to!(*node => c[i as int]));
                        match file_list_recurse(&c[i]) {
                            Ok(mut sub) => {
                                let ghost before = acc@;
                                acc.append(&mut sub);
                                assert(records(acc@) =~= records(before) + files_of(c@[i as int]));
                            },
                            Err(e) => {
                                assert(nests_root_seq(c@)) by {
                                    lemma_nests_root_prefix(c@, i as int + 1);
                                }
                                return Err(e);
                            },
                        }
                        i = i + 1;
                    }
                    assert(c@.subrange(0, c@.len() as int) =~= c@);
                    Ok(acc)
                },
            }
        },
    }
}

/// A nested `Root` in a prefix of `s` is one in `s`.
proof fn lemma_nests_root_prefix(s: Seq<Node>, k: int)
    requires
        0 <= k <= s.len(),
        nests_root_seq(s.subrange(0, k)),
    ensures
        nests_root_seq(s),
    decreases s.len() - k,
{
    if k < s.len() {
        let t = s.subrange(0, k + 1);
        assert(t.drop_last() =~= s.subrange(0, k));
        lemma_nests_root_prefix(s, k + 1);
    } else {
        assert(s.subrange(0, k) =~= s);
    }
}

/// One entry of a directory listing: its name, whether it is a directory,
/// and its size in bytes.
pub struct Entry {
    pub name: String,
    pub is_dir: bool,
    pub size: u64,
}

/// `p` joined with the name `n`: a separator is put between them unless `p`
/// is empty or already ends in one.
pub open spec fn joined(p: Seq<char>, n: Seq<char>) -> Seq<char> {
    if p.len() == 0 {
        n
    } else if p.last() == '/' {
        p + n
    } else {
        p + seq!['/'] + n
    }
}

/// The path of the directory `p` joined with the entry name `n`.
pub fn join_path(p: &String, n: &String) -> (r: String)
    ensures
        r@ == joined(p@, n@),
{
    let len = p.as_str().unicode_len();
    if len == 0 {
        return n.clone();
    }
    let mut r = p.clone();
    if p.as_str().get_char(len - 1) != '/' {
        r.append("/");
        proof {
            reveal_strlit("/");
        }
    }
    r.append(n.as_str());
    r
}

/// `n` is the node made from the entry `e` listed in the directory `dir`:
/// an unexpanded `Dir` at its own path, or a `File` at `dir`.
pub open spec fn node_of_entry(n: Node, e: Entry, dir: Seq<char>) -> bool {
    if e.is_dir {
        n matches Node::Dir { name, path, size, children } && name@ == e.name@ && path@ == joined(
            dir,
            e.name@,
        ) && size is None && children is None
    } else {
        n matches Node::File { name, path, size } && name@ == e.name@ && path@ == dir && size
            == e.size
    }
}

/// `c` holds one node per entry of `es`, in the same order.
pub open spec fn nodes_of_entries(c: Seq<Node>, es: Seq<Entry>, dir: Seq<char>) -> bool {
    &&& c.len() == es.len()
    &&& forall|i: int| 0 <= i < c.len() ==> node_of_entry(#[trigger] c[i], es[i], dir)
}

/// `n` is the unexpanded `Root` or `Dir` node `o` with its children set to
/// the nodes of the listing `es`.
pub open spec fn expanded(o: Node, n: Node, es: Seq<Entry>) -> bool {
    match o {
        Node::File { .. } => false,
        Node::Dir { name, path, size, children } => {
            &&& children is None
            &&& n matches Node::Dir { name: n2, path: p2, size: s2, children: Some(c2) }
            &&& n2 == name && p2 == path && s2 == size
            &&& nodes_of_entries(c2@, es, path@)
        },
        Node::Root { children, path } => {
            &&& children is None
            &&& n matches Node::Root { children: Some(c2), path: p2 }
            &&& p2 == path
            &&& nodes_of_entries(c2@, es, path@)
        },
    }
}

/// Expanding a node a second time leaves it as the first expansion left it,
/// whatever the second listing: no child is added twice.
pub proof fn lemma_expand_idempotent(
    o: Node,
    l1: Option<Vec<Entry>>,
    n1: Node,
    r1: Result<(), DuruError>,
    l2: Option<Vec<Entry>>,
    n2: Node,
    r2: Result<(), DuruError>,
)
    requires
        expand_outcome(o, l1, n1, r1),
        r1 is Ok,
        expand_outcome(n1, l2, n2, r2),
    ensures
        n2 == n1,
        r2 is Ok,
{
}

/// What one call of `expand` on `o` with `listing` may leave: the node `n`
/// and the result `r`.
pub open spec fn expand_outcome(
    o: Node,
    listing: Option<Vec<Entry>>,
    n: Node,
    r: Result<(), DuruError>,
) -> bool {
    match o {
        Node::File { .. } => n == o && r == Err::<(), DuruError>(DuruError::IsLeaf),
        Node::Dir { children: Some(_), .. } | Node::Root { children: Some(_), .. } => n == o && r
            == Ok::<(), DuruError>(()),
        _ => match listing {
            None => n == o && r == Err::<(), DuruError>(DuruError::DirectoryUnreadable),
            Some(es) => r == Ok::<(), DuruError>(()) && expanded(o, n, es@),
        },
    }
}

/// The path of the first node under `n`, in depth-first order, that still
/// waits to be expanded.
pub open spec fn pending_of(n: Node) -> Option<Seq<char>>
    decreases n,
{
    match n {
        Node::File { .. } => None,
        Node::Dir { path, children, .. } => match children {
            None => Some(path@),
            Some(c) => pending_seq(c@),
        },
        Node::Root { path, children } => match children {
            None => Some(path@),
            Some(c) => pending_seq(c@),
        },
    }
}

/// The path of the first node under the nodes of `s` that still waits to be
/// expanded.
pub open spec fn pending_seq(s: Seq<Node>) -> Option<Seq<char>>
    decreases s,
{
    if s.len() == 0 {
        None
    } else if pending_seq(s.drop_last()) is Some {
        pending_seq(s.drop_last())
    } else {
        pending_of(s.last())
    }
}

/// `n` is `o` with its first node that waits to be expanded given the
/// children listed in `es`.
pub open spec fn expands_first(o: Node, n: Node, es: Seq<Entry>) -> bool
    decreases o,
{
    match o {
        Node::File { .. } => false,
        Node::Dir { name, path, size, children } => match children {
            None => expanded(o, n, es),
            Some(c) => n matches Node::Dir { name: n2, path: p2, size: s2, children: Some(c2) }
                && n2 == name && p2 == path && s2 == size && expands_first_seq(c@, c2@, es),
        },
        Node::Root { path, children } => match children {
            None => expanded(o, n, es),
            Some(c) => n matches Node::Root { children: Some(c2), path: p2 } && p2 == path
                && expands_first_seq(c@, c2@, es),
        },
    }
}

/// `n` is `o` with the first node under it that waits to be expanded given
/// the children listed in `es`.
pub open spec fn expands_first_seq(o: Seq<Node>, n: Seq<Node>, es: Seq<Entry>) -> bool
    decreases o,
{
    if o.len() == 0 {
        false
    } else if pending_seq(o.drop_last()) is Some {
        &&& n.len() == o.len()
        &&& n.last() == o.last()
        &&& expands_first_seq(o.drop_last(), n.drop_last(), es)
    } else {
        &&& n.len() == o.len()
        &&& n.drop_last() == o.drop_last()
        &&& expands_first(o.last(), n.last(), es)
    }
}

/// Taking one more node into a prefix: the first waiting node stays the
/// first where the prefix had one.
proof fn lemma_pending_step(c: Seq<Node>, i: int)
    requires
        0 <= i < c.len(),
    ensures
        pending_seq(c.subrange(0, i + 1)) == if pending_seq(c.subrange(0, i)) is Some {
            pending_seq(c.subrange(0, i))
        } else {
            pending_of(c[i])
        },
{
    let t = c.subrange(0, i + 1);
    assert(t.drop_last() =~= c.subrange(0, i));
    assert(t.last() == c[i]);
}

/// Once a prefix holds a waiting node, every longer prefix does.
proof fn lemma_pending_extends(c: Seq<Node>, i: int, j: int)
    requires
        0 <= i <= j <= c.len(),
        pending_seq(c.subrange(0, i)) is Some,
    ensures
        pending_seq(c.subrange(0, j)) == pending_seq(c.subrange(0, i)),
    decreases j - i,
{
    if i < j {
        lemma_pending_step(c, i);
        lemma_pending_extends(c, i + 1, j);
    }
}

/// Replacing the first waiting node at `k` by its expansion `x` expands the
/// whole sequence.
proof fn lemma_expands_at(o: Seq<Node>, k: int, x: Node, es: Seq<Entry>)
    requires
        0 <= k < o.len(),
        pending_seq(o.subrange(0, k)) is None,
        pending_of(o[k]) is Some,
        expands_first(o[k], x, es),
    ensures
        expands_first_seq(o, o.update(k, x), es),
    decreases o.len(),
{
    let n = o.update(k, x);
    if o.len() == k + 1 {
        assert(o.drop_last() =~= o.subrange(0, k));
        assert(n.drop_last() =~= o.drop_last());
    } else {
        let d = o.drop_last();
        lemma_pending_step(o, k);
        lemma_pending_extends(o, k + 1, o.len() - 1);
        assert(d =~= o.subrange(0, o.len() - 1));
        assert(d.subrange(0, k) =~= o.subrange(0, k));
        assert(n.drop_last() =~= d.update(k, x));
        lemma_expands_at(d, k, x, es);
    }
}

/// The index of the first node of `c` under which a node waits to be expanded.
fn first_pending_index(c: &Vec<Node>) -> (k: usize)
    requires
        pending_seq(c@) is Some,
    ensures
        k < c@.len(),
        pending_seq(c@.subrange(0, k as int)) is None,
        pending_of(c@[k as int]) is Some,
{
    let mut i: usize = 0;
    while i < c.len()
        invariant
            i <= c.len(),
            pending_seq(c@) is Some,
            pending_seq(c@.subrange(0, i as int)) is None,
        decreases c.len() - i,
    {
        if c[i].pending_path().is_some() {
            return i;
        }
        proof {
            lemma_pending_step(c@, i as int);
        }
        i = i + 1;
    }
    assert(c@.subrange(0, c@.len() as int) =~= c@);
    0
}

/// Expands the first node under `n`, in depth-first order, that waits to be
/// expanded, with the children listed in `es`.
fn expand_first(n: Node, es: Vec<Entry>) -> (r: Node)
    requires
        pending_of(n) is Some,
    ensures
        expands_first(n, r, es@),
    decreases n,
{
    let ghost old_n = n;
    match n {
        Node::File { name, path, size } => Node::File { name, path, size },
        Node::Dir { name, path, size, children } => match children {
            None => {
                let c = Node::to_nodes(es, &path);
                Node::Dir { name, path, size, children: Some(c) }
            },
            Some(c) => {
                let mut c = c;
                let ghost c0 = c@;
                let k = first_pending_index(&c);
                let child = c.remove(k);
                assert(decreases_to!(old_n => c0[k as int]));
                let x = expand_first(child, es);
                c.insert(k, x);
                proof {
                    assert(c@ =~= c0.update(k as int, x));
                    lemma_expands_at(c0, k as int, x, es@);
                }
                Node::Dir { name, path, size, children: Some(c) }
            },
        },
        Node::Root { children, path } => match children {
            None => {
                let c = Node::to_nodes(es, &path);
                Node::Root { children: Some(c), path }
            },
            Some(c) => {
                let mut c = c;
                let ghost c0 = c@;
                let k = first_pending_index(&c);
                let child = c.remove(k);
                assert(decreases_to!(old_n => c0[k as int]));
                let x = expand_first(child, es);
                c.insert(k, x);
                proof {
                    assert(c@ =~= c0.update(k as int, x));
                    lemma_expands_at(c0, k as int, x, es@);
                }
                Node::Root { children: Some(c), path }
            },
        },
    }
}

impl Node {
    /// The path of the first node under this one, in depth-first order,
    /// that waits to be expanded; `None` once the whole tree is expanded.
    pub fn pending_path(&self) -> (r: Option<String>)
        ensures
            r is None <==> pending_of(*self) is None,
            r matches Some(p) ==> pending_of(*self) == Some(p@),
        decreases self,
    {
        let (path, children) = match self {
            Node::File { .. } => {
                return None;
            },
            Node::Dir { path, children, .. } => (path, children),
            Node::Root { path, children } => (path, children),
        };
        match children {
            None => Some(path.clone()),
            Some(c) => {
                assert(decreases_to!(*self => *c));
                let mut i: usize = 0;
                while i < c.len()
                    invariant
                        i <= c.len(),
                        pending_of(*self) == pending_seq(c@),
                        pending_seq(c@.subrange(0, i as int)) is None,
                        decreases_to!(*self => *c),
                    decreases c.len() - i,
                {
                    assert(decreases_to!(*c => c[i as int]));
                    let p = c[i].pending_path();
                    proof {
                        lemma_pending_step(c@, i as int);
                    }
                    if p.is_some() {
                        proof {
                            lemma_pending_extends(c@, i as int + 1, c@.len() as int);
                            assert(c@.subrange(0, c@.len() as int) =~= c@);
                        }
                        return p;
                    }
                    i = i + 1;
                }
                assert(c@.subrange(0, c@.len() as int) =~= c@);
                None
            },
        }
    }

    /// One step of building the tree: the first node, in depth-first order,
    /// that waits to be expanded is given the children of `listing`, the
    /// listing of its path.  Where no node waits, nothing changes; where the
    /// directory could not be listed, the scan fails with
    /// `DirectoryUnreadable`.
    pub fn recurse(&mut self, listing: Option<Vec<Entry>>) -> (r: Result<(), DuruError>)
        ensures
            pending_of(*old(self)) is None ==> r == Ok::<(), DuruError>(()) && *final(self)
                == *old(self),
            pending_of(*old(self)) is Some && listing is None ==> r == Err::<(), DuruError>(
                DuruError::DirectoryUnreadable,
            ) && *final(self) == *old(self),
            pending_of(*old(self)) is Some ==> (listing matches Some(es) ==> r == Ok::<
                (),
                DuruError,
            >(()) && expands_first(*old(self), *final(self), es@)),
    {
        if self.pending_path().is_none() {
            return Ok(());
        }
        match listing {
            None => Err(DuruError::DirectoryUnreadable),
            Some(es) => {
                let mut n = Node::File { name: String::new(), path: String::new(), size: 0 };
                core::mem::swap(self, &mut n);
                *self = expand_first(n, es);
                Ok(())
            },
        }
    }

    /// Makes one node per listed entry: a `File` with its size, or a `Dir`
    /// at its own path that is not expanded yet.
    pub fn to_nodes(entries: Vec<Entry>, path: &String) -> (r: Vec<Node>)
        ensures
            nodes_of_entries(r@, entries@, path@),
    {
        let mut r: Vec<Node> = Vec::new();
        let mut i: usize = 0;
        while i < entries.len()
            invariant
                i <= entries.len(),
                r@.len() == i,
                forall|j: int| 0 <= j < i ==> node_of_entry(#[trigger] r@[j], entries@[j], path@),
            decreases entries.len() - i,
        {
            let e = &entries[i];
            if e.is_dir {
                r.push(
                    Node::Dir {
                        name: e.name.clone(),
                        path: join_path(path, &e.name),
                        size: None,
                        children: None,
                    },
                );
            } else {
                r.push(Node::File { name: e.name.clone(), path: path.clone(), size: e.size });
            }
            i = i + 1;
        }
        r
    }

    /// The children of the directory at `path` from its listing, or `None`
    /// where it could not be listed.
    pub fn create_nodes(path: &String, listing: Option<Vec<Entry>>) -> (r: Option<Vec<Node>>)
        ensures
            listing is None ==> r is None,
            listing matches Some(es) ==> r matches Some(c) && nodes_of_entries(c@, es@, path@),
    {
        match listing {
            Some(es) => Some(Node::to_nodes(es, path)),
            None => None,
        }
    }

    /// Gives an unexpanded `Root` or `Dir` the children of its listing.  A
    /// node that is already expanded is left as it is.
    pub fn expand(&mut self, listing: Option<Vec<Entry>>) -> (r: Result<(), DuruError>)
        ensures
            expand_outcome(*old(self), listing, *final(self), r),
    {
        match self {
            Node::File { .. } => Err(DuruError::IsLeaf),
            Node::Dir { path, children, .. } => {
                if children.is_some() {
                    return Ok(());
                }
                match Node::create_nodes(path, listing) {
                    Some(c) => {
                        *children = Some(c);
                        Ok(())
                    },
                    None => Err(DuruError::DirectoryUnreadable),
                }
            },
            Node::Root { children, path } => {
                if children.is_some() {
                    return Ok(());
                }
                match Node::create_nodes(path, listing) {
                    Some(c) => {
                        *children = Some(c);
                        Ok(())
                    },
                    None => Err(DuruError::DirectoryUnreadable),
                }
            },
        }
    }

    /// Flattens an expanded `Root` into the records of every file beneath it,
    /// depth first and in listing order.
    pub fn file_list(&mut self) -> (r: Result<Vec<DuruFile>, DuruError>)
        ensures
            *final(self) == *old(self),
            !(*old(self) is Root) ==> r == Err::<Vec<DuruFile>, DuruError>(DuruError::NotRoot),
            *old(self) matches Node::Root { children, .. } ==> match children {
                None => r == Err::<Vec<DuruFile>, DuruError>(DuruError::NoChildren),
                Some(c) => match r {
                    Ok(v) => !nests_root_seq(c@) && records(v@) == files_of_seq(c@),
                    Err(e) => nests_root_seq(c@) && e == DuruError::RootCantBeChild,
                },
            },
    {
        match self {
            Node::Root { children, .. } => {
                if children.is_some() {
                    file_list_recurse(self)
                } else {
                    Err(DuruError::NoChildren)
                }
            },
            _ => Err(DuruError::NotRoot),
        }
    }
}

} // verus!
