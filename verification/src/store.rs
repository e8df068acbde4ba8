//! The in-memory content-addressable block store, and the node store/load
//! protocol.
//!
//! The store keeps blocks keyed by their content address; putting the same
//! bytes twice yields the same address. Storing a file writes one record;
//! storing a directory first persists every in-memory child, so that the
//! children's addresses can be embedded in the directory's own record.
//! A node memoizes the address it was stored under: a second store of the
//! same value answers from the cell and leaves the store untouched.

use crate::cid::{cid_digest, Cid};
use crate::codec::{decode_node, encode_dir, encode_file, node_wire, pairs_view, sp_node};
use crate::error::FsError;
use crate::node::{child_cid, children_view, ChildRef, NodeV, PublicNode};
use crate::order::bytes_eq;
use vstd::prelude::*;

verus! {

/// An in-memory block store: blocks keyed by content address, later writes
/// overriding earlier ones, and a counter of write operations.
pub struct MemoryBlockStore {
    /// The stored blocks, in write order.
    pub entries: Vec<(Cid, Vec<u8>)>,
    /// How many blocks have been written, saturating at the counter's top.
    pub puts: u64,
}

/// The contents of the store: each key maps to the bytes most recently
/// written under it.
pub open spec fn map_of(s: Seq<(Cid, Vec<u8>)>) -> Map<Seq<u8>, Seq<u8>>
    decreases s.len(),
{
    if s.len() == 0 {
        Map::empty()
    } else {
        map_of(s.drop_last()).insert(s.last().0@, s.last().1@)
    }
}

impl View for MemoryBlockStore {
    type V = Map<Seq<u8>, Seq<u8>>;

    open spec fn view(&self) -> Map<Seq<u8>, Seq<u8>> {
        map_of(self.entries@)
    }
}

/// Entries after position `i` are the only ones that can decide a lookup
/// of a key that none of them holds.
proof fn lemma_map_of_prefix(s: Seq<(Cid, Vec<u8>)>, k: Seq<u8>, i: int)
    requires
        0 <= i <= s.len(),
        forall|j: int| i <= j < s.len() ==> s[j].0@ != k,
    ensures
        map_of(s).contains_key(k) == map_of(s.take(i)).contains_key(k),
        map_of(s.take(i)).contains_key(k) ==> map_of(s)[k] == map_of(s.take(i))[k],
    decreases s.len() - i,
{
    if i < s.len() {
        assert(s.last().0@ != k);
        lemma_map_of_prefix(s.drop_last(), k, i);
        assert(s.drop_last().take(i) =~= s.take(i));
    } else {
        assert(s.take(i) =~= s);
    }
}

/// Copies a block; the copy holds the same bytes.
fn clone_bytes(v: &Vec<u8>) -> (r: Vec<u8>)
    ensures
        r@ == v@,
{
    let r = v.clone();
    proof {
        assert forall|i: int| 0 <= i < v@.len() implies r@[i] == v@[i] by {
            assert(vstd::pervasive::cloned::<u8>(v@[i], r@[i]));
        }
        assert(r@ =~= v@);
    }
    r
}

impl MemoryBlockStore {
    /// An empty store.
    pub fn new() -> (r: MemoryBlockStore)
        ensures
            r@ == Map::<Seq<u8>, Seq<u8>>::empty(),
            r.puts == 0,
    {
        MemoryBlockStore { entries: Vec::new(), puts: 0 }
    }

    /// Writes a block under its content address and returns that address;
    /// the same bytes always land under the same address.
    pub fn put_block(&mut self, block: Vec<u8>) -> (r: Cid)
        ensures
            r@ == cid_digest(block@),
            final(self)@ == old(self)@.insert(r@, block@),
            old(self)@.dom().subset_of(final(self)@.dom()),
            final(self).puts == if old(self).puts < u64::MAX {
                (old(self).puts + 1) as u64
            } else {
                old(self).puts
            },
    {
        let c = crate::cid::compute_cid(&block);
        let ghost prior = self.entries@;
        self.entries.push((c.clone(), block));
        if self.puts < u64::MAX {
            self.puts = self.puts + 1;
        }
        proof {
            assert(self.entries@.drop_last() =~= prior);
            assert(self.entries@.last().0@ == c@);
            assert(map_of(self.entries@) == map_of(prior).insert(c@, self.entries@.last().1@));
            assert forall|k: Seq<u8>| old(self)@.dom().contains(k) implies map_of(
                self.entries@,
            ).dom().contains(k) by {}
        }
        c
    }

    /// Fetches the block most recently written under an address, if any.
    pub fn get_block(&self, cid: &Cid) -> (r: Option<Vec<u8>>)
        ensures
            match r {
                Some(b) => self@.contains_key(cid@) && self@[cid@] == b@,
                None => !self@.contains_key(cid@),
            },
    {
        let len = self.entries.len();
        let mut i: usize = len;
        while i > 0
            invariant
                i <= len,
                len == self.entries@.len(),
                forall|j: int| i <= j < len ==> self.entries@[j].0@ != cid@,
            decreases i,
        {
            i = i - 1;
            let hit = bytes_eq(
                self.entries[i].0.bytes.as_slice(),
                cid.bytes.as_slice(),
            );
            if hit {
                proof {
                    lemma_map_of_prefix(self.entries@, cid@, i + 1);
                    assert(self.entries@.take(i + 1).drop_last() =~= self.entries@.take(i as int));
                    assert(self.entries@.take(i + 1).last() == self.entries@[i as int]);
                    assert(map_of(self.entries@.take(i + 1)).contains_key(cid@));
                    assert(map_of(self.entries@.take(i + 1))[cid@] == self.entries@[i as int].1@);
                }
                return Some(clone_bytes(&self.entries[i].1));
            }
        }
        proof {
            lemma_map_of_prefix(self.entries@, cid@, 0);
            assert(self.entries@.take(0) =~= Seq::<(Cid, Vec<u8>)>::empty());
        }
        None
    }
}

/// Writes a node's record into the store — for a directory, after
/// recursively persisting every in-memory child — and returns the node's
/// content address. Does not touch any memoization cell.
fn persist(n: &PublicNode, store: &mut MemoryBlockStore) -> (r: Cid)
    ensures
        r@ == cid_digest(node_wire(n@)),
        final(store)@.contains_key(r@),
        final(store)@[r@] == node_wire(n@),
        old(store)@.dom().subset_of(final(store)@.dom()),
    decreases *n,
{
    match n {
        PublicNode::File(f) => {
            let bytes = encode_file(f);
            store.put_block(bytes)
        },
        PublicNode::Dir(d) => {
            let mut pairs: Vec<(String, Cid)> = Vec::new();
            let mut i: usize = 0;
            let len = d.userland.len();
            while i < len
                invariant
                    *n == PublicNode::Dir(*d),
                    i <= len,
                    len == d.userland@.len(),
                    pairs@.len() == i,
                    forall|j: int|
                        0 <= j < i ==> pairs@[j].0 == d.userland@[j].0 && pairs@[j].1@ == child_cid(
                            d.userland@[j].1,
                        ),
                    old(store)@.dom().subset_of(store@.dom()),
                decreases len - i,
            {
                let name = d.userland[i].0.clone();
                let ghost mid = store@;
                let c = match &d.userland[i].1 {
                    ChildRef::Ref(c) => c.clone(),
                    ChildRef::Node(b) => {
                        proof {
                            assert(*d == (*n)->Dir_0);
                            assert(decreases_to!(*n => (*n)->Dir_0));
                            assert(decreases_to!(*d => d.userland));
                            assert(decreases_to!(d.userland => d.userland@));
                            assert(decreases_to!(d.userland@ => d.userland@[i as int]));
                            assert(decreases_to!(d.userland@[i as int] => d.userland@[i as int].1));
                            assert(d.userland@[i as int].1 == ChildRef::Node(*b));
                            assert(decreases_to!(d.userland@[i as int].1 => **b));
                            assert(decreases_to!(*n => **b));
                        }
                        persist(b, store)
                    },
                };
                proof {
                    assert forall|k: Seq<u8>| old(store)@.dom().contains(k) implies store@
                        .dom().contains(k) by {
                        assert(mid.dom().contains(k));
                    }
                }
                pairs.push((name, c));
                i += 1;
            }
            proof {
                crate::node::lemma_children_view_index(d.userland@);
                assert(pairs_view(pairs@) =~= children_view(d.userland@));
            }
            let bytes = encode_dir(d, &pairs);
            let ghost mid = store@;
            let r = store.put_block(bytes);
            proof {
                assert forall|k: Seq<u8>| old(store)@.dom().contains(k) implies store@
                    .dom().contains(k) by {
                    assert(mid.dom().contains(k));
                }
            }
            r
        },
    }
}

impl PublicNode {
    /// Persists the node and returns its content address. A directory's
    /// in-memory children are persisted first, so their addresses stand in
    /// its record. The address is memoized: storing the same value again
    /// answers from the cell and leaves the store untouched.
    pub fn store(&mut self, store: &mut MemoryBlockStore) -> (r: Result<Cid, FsError>)
        requires
            old(self).wf(),
        ensures
            r matches Ok(c) && c@ == cid_digest(node_wire(old(self)@)),
            final(self)@ == old(self)@,
            final(self).wf(),
            final(self).resolved() == old(self).resolved(),
            r matches Ok(c) ==> final(self).spec_persisted() == Some(c@),
            old(self).spec_persisted() matches Some(_) ==> final(store)@ == old(store)@
                && final(store).puts == old(store).puts,
            old(self).spec_persisted() is None ==> {
                &&& final(store)@.contains_key(cid_digest(node_wire(old(self)@)))
                &&& final(store)@[cid_digest(node_wire(old(self)@))] == node_wire(old(self)@)
                &&& old(store)@.dom().subset_of(final(store)@.dom())
            },
    {
        let cached: Option<Cid> = match self {
            PublicNode::File(f) => match &f.persisted_as {
                Some(c) => Some(c.clone()),
                None => None,
            },
            PublicNode::Dir(d) => match &d.persisted_as {
                Some(c) => Some(c.clone()),
                None => None,
            },
        };
        match cached {
            Some(c) => Ok(c),
            None => {
                let c = persist(self, store);
                match self {
                    PublicNode::File(f) => {
                        f.persisted_as = Some(c.clone());
                    },
                    PublicNode::Dir(d) => {
                        d.persisted_as = Some(c.clone());
                    },
                }
                Ok(c)
            },
        }
    }

    /// Loads the node stored under an address: fails with `NotFound` when
    /// the store has no entry there, with `DecodeError` when the bytes do
    /// not parse as a node record, and otherwise yields the decoded node —
    /// children as bare addresses, cell unset.
    pub fn load(cid: &Cid, store: &MemoryBlockStore) -> (r: Result<PublicNode, FsError>)
        ensures
            r matches Err(e) ==> e == FsError::NotFound || e == FsError::DecodeError,
            r matches Err(e) && e == FsError::NotFound <==> !store@.contains_key(cid@),
            r matches Err(e) && e == FsError::DecodeError <==> store@.contains_key(cid@)
                && sp_node(store@[cid@]) is None,
            r matches Ok(node) ==> {
                &&& store@.contains_key(cid@)
                &&& sp_node(store@[cid@]) == Some(node@)
                &&& node.resolved()
                &&& node.wf()
                &&& node.spec_persisted() is None
            },
    {
        match store.get_block(cid) {
            Some(bytes) => match decode_node(&bytes) {
                Some(node) => Ok(node),
                None => Err(FsError::DecodeError),
            },
            None => Err(FsError::NotFound),
        }
    }
}

} // verus!
