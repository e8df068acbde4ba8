//! The polymorphic node: a file or a directory behind one handle.
//!
//! Mutation is copy-on-write in effect: every mutating operation yields a
//! value whose persisted content differs from the old one, and the old value
//! survives unchanged for every other holder. A node value carries a
//! write-once cell ([`PublicFile::persisted_as`]) remembering the address it
//! was last persisted under; any mutation produces a value with a fresh,
//! unset cell.
//!
//! The abstract content of a node is its [`NodeV`] view: everything that is
//! persisted, and nothing else. In particular the memoization cell is not
//! part of the view, and an in-memory child of a directory is viewed as the
//! address it will be persisted under.

use crate::cid::{cid_digest, Cid};
use crate::codec::node_wire;
use crate::error::FsError;
use crate::metadata::Metadata;
use crate::order::{cid_set, cids_view, strictly_sorted};
use vstd::prelude::*;

verus! {

/// A directory entry's reference to its child: either the address of an
/// already persisted node, or an in-memory node that must be persisted
/// before the directory's own record can be written.
#[derive(Debug)]
pub enum ChildRef {
    /// A child already persisted, known by its address.
    Ref(Cid),
    /// An in-memory child, not yet persisted.
    Node(Box<PublicNode>),
}

/// A file node: metadata, the address of its content, and its version
/// ancestry.
#[derive(Debug)]
pub struct PublicFile {
    /// Creation and modification times.
    pub metadata: Metadata,
    /// The address of the file's content.
    pub userland: Cid,
    /// The addresses of the immediate predecessor versions, strictly sorted.
    pub previous: Vec<Cid>,
    /// The write-once cell: the address this exact value was persisted
    /// under, if it has been.
    pub persisted_as: Option<Cid>,
}

/// A directory node: metadata, named child references, and its version
/// ancestry.
#[derive(Debug)]
pub struct PublicDirectory {
    /// Creation and modification times.
    pub metadata: Metadata,
    /// The children: a mapping from name to child reference.
    pub userland: Vec<(String, ChildRef)>,
    /// The addresses of the immediate predecessor versions, strictly sorted.
    pub previous: Vec<Cid>,
    /// The write-once cell: the address this exact value was persisted
    /// under, if it has been.
    pub persisted_as: Option<Cid>,
}

/// A node of the public file system: a file or a directory.
#[derive(Debug)]
pub enum PublicNode {
    File(PublicFile),
    Dir(PublicDirectory),
}

/// The persisted content of a file node.
#[verifier::ext_equal]
pub struct FileV {
    pub created: i64,
    pub modified: i64,
    /// The address of the content.
    pub userland: Seq<u8>,
    /// The predecessor addresses, in their stored order.
    pub previous: Seq<Seq<u8>>,
}

/// The persisted content of a directory node: each child appears under its
/// name as the address it is, or will be, persisted under.
#[verifier::ext_equal]
pub struct DirV {
    pub created: i64,
    pub modified: i64,
    /// Name and address of each child.
    pub userland: Seq<(Seq<char>, Seq<u8>)>,
    /// The predecessor addresses, in their stored order.
    pub previous: Seq<Seq<u8>>,
}

/// The persisted content of a node. Two nodes are equal as values exactly
/// when their views are equal; the memoization cell does not take part.
#[verifier::ext_equal]
pub enum NodeV {
    File(FileV),
    Dir(DirV),
}

/// The address a child reference stands for: a persisted child's own
/// address, an in-memory child's address-to-be.
pub open spec fn child_cid(r: ChildRef) -> Seq<u8>
    decreases r,
{
    match r {
        ChildRef::Ref(c) => c@,
        ChildRef::Node(b) => cid_digest(node_wire((*b)@)),
    }
}

/// The children of a directory as (name, address) pairs.
pub open spec fn children_view(l: Seq<(String, ChildRef)>) -> Seq<(Seq<char>, Seq<u8>)>
    decreases l,
{
    if l.len() == 0 {
        Seq::empty()
    } else {
        seq![(l[0].0@, child_cid(l[0].1))] + children_view(l.drop_first())
    }
}

impl View for PublicFile {
    type V = FileV;

    open spec fn view(&self) -> FileV
        decreases self,
    {
        FileV {
            created: self.metadata.created,
            modified: self.metadata.modified,
            userland: self.userland@,
            previous: cids_view(self.previous@),
        }
    }
}

impl View for PublicDirectory {
    type V = DirV;

    open spec fn view(&self) -> DirV
        decreases self,
    {
        DirV {
            created: self.metadata.created,
            modified: self.metadata.modified,
            userland: children_view(self.userland@),
            previous: cids_view(self.previous@),
        }
    }
}

impl View for PublicNode {
    type V = NodeV;

    open spec fn view(&self) -> NodeV
        decreases self,
    {
        match self {
            PublicNode::File(f) => NodeV::File(f@),
            PublicNode::Dir(d) => NodeV::Dir(d@),
        }
    }
}

impl PublicFile {
    /// The content of the memoization cell, as an address.
    pub open spec fn spec_persisted(&self) -> Option<Seq<u8>> {
        match self.persisted_as {
            Some(c) => Some(c@),
            None => None,
        }
    }

    /// Validity: the predecessor set is in canonical order, and the
    /// memoization cell, if set, holds the address this value serializes to.
    pub open spec fn wf(&self) -> bool {
        &&& strictly_sorted(self.previous@)
        &&& match self.spec_persisted() {
            Some(c) => c == cid_digest(node_wire(NodeV::File(self@))),
            None => true,
        }
    }

    /// A fresh file node created at `time` whose content sits at
    /// `content_cid`, with no recorded predecessors and an unset cell.
    pub fn new(time: i64, content_cid: Cid) -> (r: PublicFile)
        ensures
            r@.created == time,
            r@.modified == time,
            r@.userland == content_cid@,
            r@.previous == Seq::<Seq<u8>>::empty(),
            r.spec_persisted() is None,
            r.wf(),
    {
        let r = PublicFile {
            metadata: Metadata::new(time),
            userland: content_cid,
            previous: Vec::new(),
            persisted_as: None,
        };
        proof {
            assert(cids_view(r.previous@) =~= Seq::<Seq<u8>>::empty());
        }
        r
    }
}

impl PublicDirectory {
    /// The content of the memoization cell, as an address.
    pub open spec fn spec_persisted(&self) -> Option<Seq<u8>> {
        match self.persisted_as {
            Some(c) => Some(c@),
            None => None,
        }
    }

    /// Validity: the predecessor set is in canonical order, and the
    /// memoization cell, if set, holds the address this value serializes to.
    pub open spec fn wf(&self) -> bool {
        &&& strictly_sorted(self.previous@)
        &&& match self.spec_persisted() {
            Some(c) => c == cid_digest(node_wire(NodeV::Dir(self@))),
            None => true,
        }
    }

    /// Whether some child is recorded under `name`.
    pub open spec fn spec_has_child(&self, name: Seq<char>) -> bool {
        exists|i: int| 0 <= i < self.userland@.len() && self.userland@[i].0@ == name
    }

    /// A fresh, empty directory node created at `time`, with no recorded
    /// predecessors and an unset cell.
    pub fn new(time: i64) -> (r: PublicDirectory)
        ensures
            r@.created == time,
            r@.modified == time,
            r@.userland == Seq::<(Seq<char>, Seq<u8>)>::empty(),
            r@.previous == Seq::<Seq<u8>>::empty(),
            r.spec_persisted() is None,
            r.wf(),
    {
        let r = PublicDirectory {
            metadata: Metadata::new(time),
            userland: Vec::new(),
            previous: Vec::new(),
            persisted_as: None,
        };
        proof {
            assert(cids_view(r.previous@) =~= Seq::<Seq<u8>>::empty());
            assert(children_view(r.userland@) =~= Seq::<(Seq<char>, Seq<u8>)>::empty());
        }
        r
    }

    /// Whether some child is recorded under `name`; lets a caller check
    /// before recording a new one.
    pub fn has_child(&self, name: &String) -> (r: bool)
        ensures
            r == self.spec_has_child(name@),
    {
        let mut i: usize = 0;
        let len = self.userland.len();
        while i < len
            invariant
                i <= len,
                len == self.userland@.len(),
                forall|j: int| 0 <= j < i ==> self.userland@[j].0@ != name@,
        decreases len - i,
        {
            if self.userland[i].0.eq(name) {
                proof {
                    assert(self.userland@[i as int].0@ == name@);
                }
                return true;
            }
            i += 1;
        }
        false
    }

    /// Records a child under a name not yet taken. The directory becomes a
    /// new value: its cell is reset.
    pub fn insert_child(&mut self, name: String, link: ChildRef)
        requires
            !old(self).spec_has_child(name@),
        ensures
            final(self)@.userland == old(self)@.userland.push((name@, child_cid(link))),
            final(self)@.created == old(self)@.created,
            final(self)@.modified == old(self)@.modified,
            final(self)@.previous == old(self)@.previous,
            final(self).spec_persisted() is None,
            old(self).wf() ==> final(self).wf(),
    {
        let ghost prior = self.userland@;
        self.userland.push((name, link));
        self.persisted_as = None;
        proof {
            lemma_children_view_push(prior, self.userland@.last());
            assert(self.userland@ =~= prior.push(self.userland@.last()));
            assert(children_view(self.userland@) == children_view(prior).push(
                (self.userland@.last().0@, child_cid(self.userland@.last().1)),
            ));
        }
    }
}

/// The length and entries of a children view, entry by entry.
pub proof fn lemma_children_view_index(l: Seq<(String, ChildRef)>)
    ensures
        children_view(l).len() == l.len(),
        forall|i: int|
            0 <= i < l.len() ==> children_view(l)[i] == (l[i].0@, child_cid(l[i].1)),
    decreases l.len(),
{
    if l.len() > 0 {
        lemma_children_view_index(l.drop_first());
        assert forall|i: int|
            0 <= i < l.len() implies children_view(l)[i] == (l[i].0@, child_cid(l[i].1)) by {
            if i > 0 {
                assert(children_view(l)[i] == children_view(l.drop_first())[i - 1]);
                assert(l.drop_first()[i - 1] == l[i]);
            }
        }
    }
}

/// Appending a child appends its (name, address) pair to the view.
pub proof fn lemma_children_view_push(l: Seq<(String, ChildRef)>, e: (String, ChildRef))
    ensures
        children_view(l.push(e)) == children_view(l).push((e.0@, child_cid(e.1))),
    decreases l.len(),
{
    let p = l.push(e);
    if l.len() == 0 {
        assert(p[0] == e);
        assert(p.drop_first() =~= Seq::<(String, ChildRef)>::empty());
        assert(children_view(p.drop_first()) == Seq::<(Seq<char>, Seq<u8>)>::empty());
        assert(children_view(p) =~= children_view(l).push((e.0@, child_cid(e.1))));
    } else {
        assert(p.drop_first() =~= l.drop_first().push(e));
        lemma_children_view_push(l.drop_first(), e);
        assert(p[0] == l[0]);
        assert(children_view(p) == seq![(p[0].0@, child_cid(p[0].1))] + children_view(
            p.drop_first(),
        ));
        assert(children_view(p.drop_first()) == children_view(l.drop_first()).push(
            (e.0@, child_cid(e.1)),
        ));
        assert(children_view(p) =~~= children_view(l).push((e.0@, child_cid(e.1))));
    }
}

/// A view with the modification time replaced.
pub open spec fn with_mtime(v: NodeV, time: i64) -> NodeV {
    match v {
        NodeV::File(f) => NodeV::File(FileV { modified: time, ..f }),
        NodeV::Dir(d) => NodeV::Dir(DirV { modified: time, ..d }),
    }
}

/// A view with the predecessor list replaced.
pub open spec fn with_previous(v: NodeV, previous: Seq<Seq<u8>>) -> NodeV {
    match v {
        NodeV::File(f) => NodeV::File(FileV { previous, ..f }),
        NodeV::Dir(d) => NodeV::Dir(DirV { previous, ..d }),
    }
}

/// Whether every direct child of a directory is held as a bare address.
pub open spec fn links_resolved(l: Seq<(String, ChildRef)>) -> bool {
    forall|i: int| 0 <= i < l.len() ==> l[i].1 is Ref
}

/// Copies a list of addresses; the copy holds the same identifiers.
fn clone_cids(v: &Vec<Cid>) -> (r: Vec<Cid>)
    ensures
        r@.len() == v@.len(),
        forall|i: int| 0 <= i < v@.len() ==> r@[i]@ == v@[i]@,
        cids_view(r@) == cids_view(v@),
        strictly_sorted(v@) ==> strictly_sorted(r@),
{
    let r = v.clone();
    proof {
        assert forall|i: int| 0 <= i < v@.len() implies r@[i]@ == v@[i]@ by {
            assert(vstd::pervasive::cloned::<Cid>(v@[i], r@[i]));
        }
        assert(cids_view(r@) =~= cids_view(v@));
    }
    r
}

/// Copies a child reference; the copy stands for the same address and keeps
/// the reference's kind.
fn clone_link(r: &ChildRef) -> (out: ChildRef)
    ensures
        child_cid(out) == child_cid(*r),
        out is Ref <==> r is Ref,
    decreases *r,
{
    match r {
        ChildRef::Ref(c) => ChildRef::Ref(c.clone()),
        ChildRef::Node(b) => ChildRef::Node(Box::new(clone_node(b))),
    }
}

/// Copies a children list; the copy has the same names and addresses.
fn clone_links(l: &Vec<(String, ChildRef)>) -> (out: Vec<(String, ChildRef)>)
    ensures
        out@.len() == l@.len(),
        forall|i: int|
            0 <= i < l@.len() ==> {
                &&& out@[i].0 == l@[i].0
                &&& child_cid(out@[i].1) == child_cid(l@[i].1)
                &&& (out@[i].1 is Ref <==> l@[i].1 is Ref)
            },
        children_view(out@) == children_view(l@),
        links_resolved(l@) ==> links_resolved(out@),
    decreases *l,
{
    let mut out: Vec<(String, ChildRef)> = Vec::new();
    let mut i: usize = 0;
    let len = l.len();
    while i < len
        invariant
            i <= len,
            len == l@.len(),
            out@.len() == i,
            forall|j: int|
                0 <= j < i ==> {
                    &&& out@[j].0 == l@[j].0
                    &&& child_cid(out@[j].1) == child_cid(l@[j].1)
                    &&& (out@[j].1 is Ref <==> l@[j].1 is Ref)
                },
        decreases len - i,
    {
        let name = l[i].0.clone();
        let link = clone_link(&l[i].1);
        out.push((name, link));
        i += 1;
    }
    proof {
        lemma_children_view_index(out@);
        lemma_children_view_index(l@);
        assert(children_view(out@) =~= children_view(l@));
    }
    out
}

/// Copies a file node, memoization cell included.
fn clone_file(f: &PublicFile) -> (r: PublicFile)
    ensures
        r@ == f@,
        r.spec_persisted() == f.spec_persisted(),
{
    let persisted_as = match &f.persisted_as {
        Some(c) => Some(c.clone()),
        None => None,
    };
    let r = PublicFile {
        metadata: f.metadata,
        userland: f.userland.clone(),
        previous: clone_cids(&f.previous),
        persisted_as,
    };
    r
}

/// Copies a directory node, memoization cell included.
fn clone_dir(d: &PublicDirectory) -> (r: PublicDirectory)
    ensures
        r@ == d@,
        r.spec_persisted() == d.spec_persisted(),
        links_resolved(d.userland@) ==> links_resolved(r.userland@),
    decreases *d,
{
    let persisted_as = match &d.persisted_as {
        Some(c) => Some(c.clone()),
        None => None,
    };
    let r = PublicDirectory {
        metadata: d.metadata,
        userland: clone_links(&d.userland),
        previous: clone_cids(&d.previous),
        persisted_as,
    };
    r
}

/// Copies a node, memoization cell included. The copy has the same
/// persisted content; every other holder of the original is unaffected by
/// anything later done to the copy.
pub fn clone_node(n: &PublicNode) -> (r: PublicNode)
    ensures
        r@ == n@,
        r.spec_persisted() == n.spec_persisted(),
        n.resolved() ==> r.resolved(),
    decreases *n,
{
    match n {
        PublicNode::File(f) => PublicNode::File(clone_file(f)),
        PublicNode::Dir(d) => PublicNode::Dir(clone_dir(d)),
    }
}

impl Clone for PublicNode {
    /// The clone has the same persisted content and the same cell content.
    fn clone(&self) -> (r: Self)
        ensures
            r@ == self@,
            r.spec_persisted() == self.spec_persisted(),
    {
        clone_node(self)
    }
}

impl PublicNode {
    /// The predecessor list of the active variant.
    pub open spec fn spec_previous(&self) -> Seq<Cid> {
        match self {
            PublicNode::File(f) => f.previous@,
            PublicNode::Dir(d) => d.previous@,
        }
    }

    /// The content of the active variant's memoization cell, as an address.
    pub open spec fn spec_persisted(&self) -> Option<Seq<u8>> {
        match self {
            PublicNode::File(f) => f.spec_persisted(),
            PublicNode::Dir(d) => d.spec_persisted(),
        }
    }

    /// Validity of the active variant.
    pub open spec fn wf(&self) -> bool {
        match self {
            PublicNode::File(f) => f.wf(),
            PublicNode::Dir(d) => d.wf(),
        }
    }

    /// Whether every direct child is held as a bare address; true of any
    /// file, and of any node that was loaded from the store.
    pub open spec fn resolved(&self) -> bool {
        match self {
            PublicNode::File(_) => true,
            PublicNode::Dir(d) => links_resolved(d.userland@),
        }
    }

    /// Sets the modification time of the active variant. The node becomes a
    /// new value: its cell is reset.
    pub fn upsert_mtime(&mut self, time: i64)
        ensures
            final(self)@ == with_mtime(old(self)@, time),
            final(self).spec_persisted() is None,
            old(self).wf() ==> final(self).wf(),
            final(self).resolved() == old(self).resolved(),
    {
        match self {
            PublicNode::File(f) => {
                f.metadata.upsert_mtime(time);
                f.persisted_as = None;
            },
            PublicNode::Dir(d) => {
                d.metadata.upsert_mtime(time);
                d.persisted_as = None;
            },
        }
    }

    /// A node whose predecessor set is the deduplicated, order-normalized
    /// set built from `cids`; metadata and content are kept, the cell of
    /// the new value is unset. The receiver is not changed.
    pub fn update_previous(&self, cids: Vec<Cid>) -> (r: Self)
        ensures
            r@ == with_previous(self@, cids_view(r.spec_previous())),
            strictly_sorted(r.spec_previous()),
            cid_set(r.spec_previous()) == cid_set(cids@),
            r.spec_persisted() is None,
            r.wf(),
            r.resolved() == self.resolved(),
    {
        let previous = crate::order::normalize_cids(cids);
        match self {
            PublicNode::File(f) => PublicNode::File(
                PublicFile {
                    metadata: f.metadata,
                    userland: f.userland.clone(),
                    previous,
                    persisted_as: None,
                },
            ),
            PublicNode::Dir(d) => PublicNode::Dir(
                PublicDirectory {
                    metadata: d.metadata,
                    userland: clone_links(&d.userland),
                    previous,
                    persisted_as: None,
                },
            ),
        }
    }

    /// The predecessor set of the active variant.
    pub fn get_previous(&self) -> (r: &Vec<Cid>)
        ensures
            r@ == self.spec_previous(),
    {
        match self {
            PublicNode::File(f) => &f.previous,
            PublicNode::Dir(d) => &d.previous,
        }
    }

    /// Narrows the node to a directory; fails on a file, with no other
    /// effect.
    pub fn as_dir(&self) -> (r: Result<PublicDirectory, FsError>)
        ensures
            r is Ok <==> self is Dir,
            r matches Ok(d) ==> {
                &&& self@ == NodeV::Dir(d@)
                &&& d.spec_persisted() == self.spec_persisted()
            },
            r matches Err(e) ==> e == FsError::NotADirectory,
    {
        match self {
            PublicNode::Dir(d) => Ok(clone_dir(d)),
            PublicNode::File(_) => Err(FsError::NotADirectory),
        }
    }

    /// Narrows the node to a directory for mutation in place; fails on a
    /// file, with no other effect.
    pub fn as_dir_mut(&mut self) -> (r: Result<&mut PublicDirectory, FsError>)
        ensures
            r is Ok <==> *old(self) is Dir,
            r matches Ok(d) ==> {
                &&& *d == (*old(self))->Dir_0
                &&& *final(self) == PublicNode::Dir(*final(d))
            },
            r matches Err(e) ==> {
                &&& e == FsError::NotADirectory
                &&& *final(self) == *old(self)
            },
    {
        match self {
            PublicNode::Dir(d) => Ok(d),
            PublicNode::File(_) => Err(FsError::NotADirectory),
        }
    }

    /// Narrows the node to a file; fails on a directory, with no other
    /// effect.
    pub fn as_file(&self) -> (r: Result<PublicFile, FsError>)
        ensures
            r is Ok <==> self is File,
            r matches Ok(f) ==> {
                &&& self@ == NodeV::File(f@)
                &&& f.spec_persisted() == self.spec_persisted()
            },
            r matches Err(e) ==> e == FsError::NotAFile,
    {
        match self {
            PublicNode::File(f) => Ok(clone_file(f)),
            PublicNode::Dir(_) => Err(FsError::NotAFile),
        }
    }

    /// Whether the active variant is a directory.
    pub fn is_dir(&self) -> (r: bool)
        ensures
            r == (self is Dir),
    {
        match self {
            PublicNode::Dir(_) => true,
            PublicNode::File(_) => false,
        }
    }

    /// Whether the active variant is a file.
    pub fn is_file(&self) -> (r: bool)
        ensures
            r == (self is File),
    {
        match self {
            PublicNode::File(_) => true,
            PublicNode::Dir(_) => false,
        }
    }

    /// The active variant's memoization cell: the address this value was
    /// last persisted under, if it has been persisted at all.
    pub fn persisted_as(&self) -> (r: &Option<Cid>)
        ensures
            match *r {
                Some(c) => self.spec_persisted() == Some(c@),
                None => self.spec_persisted() is None,
            },
    {
        match self {
            PublicNode::File(f) => &f.persisted_as,
            PublicNode::Dir(d) => &d.persisted_as,
        }
    }
}

/// Field-wise equality of child references: two addresses are equal as
/// byte strings, two in-memory nodes are equal as nodes, and an address is
/// never equal to an in-memory node.
pub open spec fn link_eq(a: ChildRef, b: ChildRef) -> bool
    decreases a,
{
    match (a, b) {
        (ChildRef::Ref(c1), ChildRef::Ref(c2)) => c1@ == c2@,
        (ChildRef::Node(n1), ChildRef::Node(n2)) => node_eq(*n1, *n2),
        _ => false,
    }
}

/// Field-wise equality of children lists: same length, and name and
/// reference equal entry by entry.
pub open spec fn children_eq(a: Seq<(String, ChildRef)>, b: Seq<(String, ChildRef)>) -> bool
    decreases a,
{
    &&& a.len() == b.len()
    &&& (a.len() == 0 || {
        &&& a[0].0@ == b[0].0@
        &&& link_eq(a[0].1, b[0].1)
        &&& children_eq(a.drop_first(), b.drop_first())
    })
}

/// Field-wise equality of nodes: same variant and equal fields, the
/// memoization cell not taking part.
pub open spec fn node_eq(a: PublicNode, b: PublicNode) -> bool
    decreases a,
{
    match (a, b) {
        (PublicNode::File(f1), PublicNode::File(f2)) => f1@ == f2@,
        (PublicNode::Dir(d1), PublicNode::Dir(d2)) => {
            &&& d1.metadata == d2.metadata
            &&& cids_view(d1.previous@) == cids_view(d2.previous@)
            &&& children_eq(d1.userland@, d2.userland@)
        },
        _ => false,
    }
}

/// Entry-by-entry characterization of [`children_eq`].
pub proof fn lemma_children_eq_index(a: Seq<(String, ChildRef)>, b: Seq<(String, ChildRef)>)
    ensures
        children_eq(a, b) <==> {
            &&& a.len() == b.len()
            &&& forall|i: int|
                0 <= i < a.len() ==> a[i].0@ == b[i].0@ && link_eq(a[i].1, b[i].1)
        },
    decreases a.len(),
{
    if a.len() > 0 && a.len() == b.len() {
        lemma_children_eq_index(a.drop_first(), b.drop_first());
        assert forall|i: int|
            1 <= i < a.len() implies a[i] == a.drop_first()[i - 1] && b[i] == b.drop_first()[i
            - 1] by {}
    }
}

/// Field-wise equal nodes have the same persisted content.
pub proof fn lemma_node_eq_view(a: PublicNode, b: PublicNode)
    requires
        node_eq(a, b),
    ensures
        a@ == b@,
    decreases a,
{
    match (a, b) {
        (PublicNode::Dir(d1), PublicNode::Dir(d2)) => {
            lemma_children_eq_index(d1.userland@, d2.userland@);
            lemma_children_view_index(d1.userland@);
            lemma_children_view_index(d2.userland@);
            assert forall|i: int|
                0 <= i < d1.userland@.len() implies child_cid(d1.userland@[i].1) == child_cid(
                d2.userland@[i].1,
            ) by {
                lemma_link_eq_cid(d1.userland@[i].1, d2.userland@[i].1);
            }
            assert(children_view(d1.userland@) =~= children_view(d2.userland@));
        },
        _ => {},
    }
}

/// Field-wise equal references stand for the same address.
pub proof fn lemma_link_eq_cid(a: ChildRef, b: ChildRef)
    requires
        link_eq(a, b),
    ensures
        child_cid(a) == child_cid(b),
    decreases a,
{
    match (a, b) {
        (ChildRef::Node(n1), ChildRef::Node(n2)) => {
            lemma_node_eq_view(*n1, *n2);
        },
        _ => {},
    }
}

/// Nodes with the same persisted content and bare-address children are
/// field-wise equal; in particular a node loaded from the store is equal to
/// the node that was stored.
pub proof fn lemma_view_eq_node(a: PublicNode, b: PublicNode)
    requires
        a@ == b@,
        a.resolved(),
        b.resolved(),
    ensures
        node_eq(a, b),
{
    match (a, b) {
        (PublicNode::Dir(d1), PublicNode::Dir(d2)) => {
            lemma_children_view_index(d1.userland@);
            lemma_children_view_index(d2.userland@);
            lemma_children_eq_index(d1.userland@, d2.userland@);
            assert(children_view(d1.userland@) == children_view(d2.userland@));
            assert forall|i: int|
                0 <= i < d1.userland@.len() implies d1.userland@[i].0@ == d2.userland@[i].0@
                && link_eq(d1.userland@[i].1, d2.userland@[i].1) by {
                assert(children_view(d1.userland@)[i] == children_view(d2.userland@)[i]);
            }
        },
        _ => {},
    }
}

/// Compares two child references field-wise.
fn eq_link(a: &ChildRef, b: &ChildRef) -> (r: bool)
    ensures
        r == link_eq(*a, *b),
    decreases *a,
{
    match (a, b) {
        (ChildRef::Ref(c1), ChildRef::Ref(c2)) => c1.equals(c2),
        (ChildRef::Node(n1), ChildRef::Node(n2)) => eq_node(n1, n2),
        _ => false,
    }
}

/// Compares two children lists field-wise.
fn eq_children(a: &Vec<(String, ChildRef)>, b: &Vec<(String, ChildRef)>) -> (r: bool)
    ensures
        r == children_eq(a@, b@),
    decreases *a,
{
    proof {
        lemma_children_eq_index(a@, b@);
    }
    let a_len = a.len();
    if a_len != b.len() {
        return false;
    }
    let mut i: usize = 0;
    while i < a_len
        invariant
            i <= a_len,
            a_len == a@.len(),
            a_len == b@.len(),
            children_eq(a@, b@) <==> (forall|j: int|
                0 <= j < a@.len() ==> a@[j].0@ == b@[j].0@ && link_eq(a@[j].1, b@[j].1)),
            forall|j: int| 0 <= j < i ==> a@[j].0@ == b@[j].0@ && link_eq(a@[j].1, b@[j].1),
        decreases a_len - i,
    {
        if !(a[i].0 == b[i].0) {
            return false;
        }
        if !eq_link(&a[i].1, &b[i].1) {
            return false;
        }
        i += 1;
    }
    true
}

/// Compares two lists of addresses.
fn eq_cids(a: &Vec<Cid>, b: &Vec<Cid>) -> (r: bool)
    ensures
        r == (cids_view(a@) == cids_view(b@)),
{
    let a_len = a.len();
    if a_len != b.len() {
        proof {
            assert(cids_view(a@).len() != cids_view(b@).len());
        }
        return false;
    }
    let mut i: usize = 0;
    while i < a_len
        invariant
            i <= a_len,
            a_len == a@.len(),
            a_len == b@.len(),
            forall|j: int| 0 <= j < i ==> a@[j]@ == b@[j]@,
        decreases a_len - i,
    {
        if !a[i].equals(&b[i]) {
            proof {
                assert(cids_view(a@)[i as int] != cids_view(b@)[i as int]);
            }
            return false;
        }
        i += 1;
    }
    proof {
        assert(cids_view(a@) =~= cids_view(b@));
    }
    true
}

/// Compares two nodes field-wise, the memoization cells not taking part.
fn eq_node(a: &PublicNode, b: &PublicNode) -> (r: bool)
    ensures
        r == node_eq(*a, *b),
    decreases *a,
{
    match (a, b) {
        (PublicNode::File(f1), PublicNode::File(f2)) => {
            let r = f1.metadata.created == f2.metadata.created && f1.metadata.modified
                == f2.metadata.modified && f1.userland.equals(&f2.userland) && eq_cids(
                &f1.previous,
                &f2.previous,
            );
            proof {
                if r {
                    assert(f1@ =~= f2@);
                }
            }
            r
        },
        (PublicNode::Dir(d1), PublicNode::Dir(d2)) => {
            d1.metadata.created == d2.metadata.created && d1.metadata.modified
                == d2.metadata.modified && eq_cids(&d1.previous, &d2.previous) && eq_children(
                &d1.userland,
                &d2.userland,
            )
        },
        _ => false,
    }
}

impl PartialEq for PublicNode {
    /// Two nodes are equal when they are the same variant and their
    /// persisted fields are equal; the memoization cell does not take part.
    fn eq(&self, other: &PublicNode) -> (r: bool) {
        eq_node(self, other)
    }
}

impl vstd::std_specs::cmp::PartialEqSpecImpl for PublicNode {
    open spec fn obeys_eq_spec() -> bool {
        true
    }

    open spec fn eq_spec(&self, other: &PublicNode) -> bool {
        node_eq(*self, *other)
    }
}

impl PartialEq for PublicFile {
    /// Field-wise equality; the memoization cell does not take part.
    fn eq(&self, other: &PublicFile) -> (r: bool) {
        let r = self.metadata.created == other.metadata.created && self.metadata.modified
            == other.metadata.modified && self.userland.equals(&other.userland) && eq_cids(
            &self.previous,
            &other.previous,
        );
        proof {
            if r {
                assert(self@ =~= other@);
            }
        }
        r
    }
}

impl vstd::std_specs::cmp::PartialEqSpecImpl for PublicFile {
    open spec fn obeys_eq_spec() -> bool {
        true
    }

    open spec fn eq_spec(&self, other: &PublicFile) -> bool {
        self@ == other@
    }
}

impl PartialEq for PublicDirectory {
    /// Field-wise equality; the memoization cell does not take part.
    fn eq(&self, other: &PublicDirectory) -> (r: bool) {
        self.metadata.created == other.metadata.created && self.metadata.modified
            == other.metadata.modified && eq_cids(&self.previous, &other.previous) && eq_children(
            &self.userland,
            &other.userland,
        )
    }
}

impl vstd::std_specs::cmp::PartialEqSpecImpl for PublicDirectory {
    open spec fn obeys_eq_spec() -> bool {
        true
    }

    open spec fn eq_spec(&self, other: &PublicDirectory) -> bool {
        node_eq(PublicNode::Dir(*self), PublicNode::Dir(*other))
    }
}

impl From<PublicFile> for PublicNode {
    /// Wraps a file as a node.
    fn from(file: PublicFile) -> (r: Self) {
        PublicNode::File(file)
    }
}

impl vstd::std_specs::convert::FromSpecImpl<PublicFile> for PublicNode {
    open spec fn obeys_from_spec() -> bool {
        true
    }

    open spec fn from_spec(file: PublicFile) -> Self {
        PublicNode::File(file)
    }
}

impl From<PublicDirectory> for PublicNode {
    /// Wraps a directory as a node.
    fn from(dir: PublicDirectory) -> (r: Self) {
        PublicNode::Dir(dir)
    }
}

impl vstd::std_specs::convert::FromSpecImpl<PublicDirectory> for PublicNode {
    open spec fn obeys_from_spec() -> bool {
        true
    }

    open spec fn from_spec(dir: PublicDirectory) -> Self {
        PublicNode::Dir(dir)
    }
}

} // verus!
