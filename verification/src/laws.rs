//! The library's cross-cutting guarantees, stated and proved once.

use crate::cid::cid_digest;
use crate::codec::{lemma_node_round_trip, node_wire, sp_node, wire_bounded};
use crate::node::{lemma_view_eq_node, node_eq, PublicNode};
use vstd::prelude::*;

verus! {

/// Round-trip: a node loaded back from the address its store returned is
/// field-wise equal to the node that was stored.
///
/// The hypotheses are exactly what [`PublicNode::store`] guarantees of the
/// store's contents and of the returned address, and what
/// [`PublicNode::load`] guarantees of the node it hands back; the
/// conclusion is the equality that `==` on nodes decides. The node must be
/// valid, its children already persisted (a stored directory comes back
/// with bare child addresses), and its fields must fit their length
/// prefixes, which holds of every node built from in-memory data.
pub proof fn lemma_store_load_round_trip(
    n: PublicNode,
    loaded: PublicNode,
    contents: Map<Seq<u8>, Seq<u8>>,
    c: Seq<u8>,
)
    requires
        n.wf(),
        n.resolved(),
        wire_bounded(n@),
        c == cid_digest(node_wire(n@)),
        contents.contains_key(c),
        contents[c] == node_wire(n@),
        loaded.resolved(),
        sp_node(contents[c]) == Some(loaded@),
    ensures
        loaded@ == n@,
        node_eq(loaded, n),
{
    match n {
        PublicNode::File(f) => {
            crate::codec::lemma_sorted_addrs_cids(f.previous@);
        },
        PublicNode::Dir(d) => {
            crate::codec::lemma_sorted_addrs_cids(d.previous@);
        },
    }
    lemma_node_round_trip(n@);
    lemma_view_eq_node(loaded, n);
}

/// Idempotent store: storing one in-memory value twice yields the same
/// address both times.
///
/// [`PublicNode::store`] returns the digest of the node's persisted
/// content and leaves that content unchanged, so the address returned by a
/// second store of the same value — which the memoization cell answers
/// without touching the block store — equals the first.
pub proof fn lemma_store_idempotent(n1: PublicNode, n2: PublicNode, c1: Seq<u8>, c2: Seq<u8>)
    requires
        n1@ == n2@,
        c1 == cid_digest(node_wire(n1@)),
        c2 == cid_digest(node_wire(n2@)),
    ensures
        c1 == c2,
{
}

/// Narrowing exclusivity: every node is a directory or a file and never
/// both, so exactly one of `as_dir` and `as_file` succeeds, and `is_dir`
/// and `is_file` agree with which one it is.
pub proof fn lemma_narrowing_exclusive(n: PublicNode)
    ensures
        (n is Dir) <==> !(n is File),
{
    match n {
        PublicNode::File(_) => {},
        PublicNode::Dir(_) => {},
    }
}

} // verus!
