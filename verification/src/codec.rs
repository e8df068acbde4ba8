//! The tagged wire format of a node, and its proof of round-tripping.
//!
//! A node record is a tag byte (file or directory), the two metadata
//! timestamps, the variant's payload, and the predecessor list. Every
//! variable-length field is length-prefixed with a little-endian `u64`.
//! [`node_wire`] gives the bytes of a node's view; [`sp_node`] parses bytes
//! back into a view, rejecting anything the encoder would not produce
//! (trailing bytes, an out-of-order predecessor list, invalid UTF-8 in a
//! child name). [`lemma_node_round_trip`] shows that parsing an encoding
//! yields exactly the encoded view.

use crate::node::{DirV, FileV, NodeV};
use crate::order::bytes_lt;
use vstd::bytes::{spec_u64_from_le_bytes, spec_u64_to_le_bytes};
use vstd::prelude::*;
use vstd::utf8::{decode_utf8, encode_utf8, valid_utf8};

verus! {

/// The tag byte of a file record.
pub const FILE_TAG: u8 = 0;

/// The tag byte of a directory record.
pub const DIR_TAG: u8 = 1;

/// A length or count on the wire: eight bytes, little endian.
pub open spec fn enc_u64(x: u64) -> Seq<u8> {
    spec_u64_to_le_bytes(x)
}

/// A length-prefixed byte field.
pub open spec fn enc_chunk(b: Seq<u8>) -> Seq<u8> {
    enc_u64(b.len() as u64) + b
}

/// A list of addresses, each length-prefixed.
pub open spec fn enc_cids(l: Seq<Seq<u8>>) -> Seq<u8>
    decreases l.len(),
{
    if l.len() == 0 {
        Seq::empty()
    } else {
        enc_chunk(l[0]) + enc_cids(l.drop_first())
    }
}

/// A list of children: each name in UTF-8 and each address, length-prefixed.
pub open spec fn enc_children(l: Seq<(Seq<char>, Seq<u8>)>) -> Seq<u8>
    decreases l.len(),
{
    if l.len() == 0 {
        Seq::empty()
    } else {
        enc_chunk(encode_utf8(l[0].0)) + enc_chunk(l[0].1) + enc_children(l.drop_first())
    }
}

/// The two metadata timestamps.
pub open spec fn enc_meta(created: i64, modified: i64) -> Seq<u8> {
    enc_u64(created as u64) + enc_u64(modified as u64)
}

/// The serialized bytes of a node's view.
pub open spec fn node_wire(v: NodeV) -> Seq<u8> {
    match v {
        NodeV::File(f) => seq![FILE_TAG] + enc_meta(f.created, f.modified) + enc_chunk(f.userland)
            + enc_u64(f.previous.len() as u64) + enc_cids(f.previous),
        NodeV::Dir(d) => seq![DIR_TAG] + enc_meta(d.created, d.modified) + enc_u64(
            d.userland.len() as u64,
        ) + enc_children(d.userland) + enc_u64(d.previous.len() as u64) + enc_cids(d.previous),
    }
}

/// Whether a list of addresses is strictly increasing; the canonical order
/// of a predecessor list on the wire.
pub open spec fn sorted_addrs(l: Seq<Seq<u8>>) -> bool {
    forall|i: int, j: int| 0 <= i < j < l.len() ==> bytes_lt(l[i], l[j])
}

/// Whether every variable-length field of a view fits its `u64` length
/// prefix; always true of a view taken from in-memory data.
pub open spec fn wire_bounded(v: NodeV) -> bool {
    match v {
        NodeV::File(f) => {
            &&& f.userland.len() < 0x1_0000_0000_0000_0000
            &&& f.previous.len() < 0x1_0000_0000_0000_0000
            &&& forall|i: int|
                0 <= i < f.previous.len() ==> f.previous[i].len() < 0x1_0000_0000_0000_0000
        },
        NodeV::Dir(d) => {
            &&& d.userland.len() < 0x1_0000_0000_0000_0000
            &&& d.previous.len() < 0x1_0000_0000_0000_0000
            &&& forall|i: int|
                0 <= i < d.previous.len() ==> d.previous[i].len() < 0x1_0000_0000_0000_0000
            &&& forall|i: int|
                0 <= i < d.userland.len() ==> {
                    &&& encode_utf8(d.userland[i].0).len() < 0x1_0000_0000_0000_0000
                    &&& d.userland[i].1.len() < 0x1_0000_0000_0000_0000
                }
        },
    }
}

/// Parses a `u64` at position `i`.
pub open spec fn sp_u64(s: Seq<u8>, i: int) -> Option<(u64, int)> {
    if 0 <= i && i + 8 <= s.len() {
        Some((spec_u64_from_le_bytes(s.subrange(i, i + 8)), i + 8))
    } else {
        None
    }
}

/// Parses a length-prefixed byte field at position `i`.
pub open spec fn sp_chunk(s: Seq<u8>, i: int) -> Option<(Seq<u8>, int)> {
    match sp_u64(s, i) {
        Some((n, j)) => {
            if j + n <= s.len() {
                Some((s.subrange(j, j + n), j + n))
            } else {
                None
            }
        },
        None => None,
    }
}

/// Parses `n` length-prefixed addresses starting at position `i`.
pub open spec fn sp_cids(s: Seq<u8>, i: int, n: nat) -> Option<(Seq<Seq<u8>>, int)>
    decreases n,
{
    if n == 0 {
        Some((Seq::empty(), i))
    } else {
        match sp_chunk(s, i) {
            Some((b, j)) => match sp_cids(s, j, (n - 1) as nat) {
                Some((l, k)) => Some((seq![b] + l, k)),
                None => None,
            },
            None => None,
        }
    }
}

/// Parses `n` children starting at position `i`: a UTF-8 name and an
/// address each.
pub open spec fn sp_children(s: Seq<u8>, i: int, n: nat) -> Option<
    (Seq<(Seq<char>, Seq<u8>)>, int),
>
    decreases n,
{
    if n == 0 {
        Some((Seq::empty(), i))
    } else {
        match sp_chunk(s, i) {
            Some((nb, j)) => {
                if valid_utf8(nb) {
                    match sp_chunk(s, j) {
                        Some((cb, k)) => match sp_children(s, k, (n - 1) as nat) {
                            Some((l, m)) => Some((seq![(decode_utf8(nb), cb)] + l, m)),
                            None => None,
                        },
                        None => None,
                    }
                } else {
                    None
                }
            },
            None => None,
        }
    }
}

/// Parses a whole node record: the tag decides the variant, the record must
/// use every byte, and the predecessor list must be in canonical order.
pub open spec fn sp_node(s: Seq<u8>) -> Option<NodeV> {
    if s.len() < 1 {
        None
    } else {
        match (sp_u64(s, 1), ) {
            (Some((cr, i)), ) => match sp_u64(s, i) {
                Some((mo, j)) => {
                    if s[0] == FILE_TAG {
                        match sp_chunk(s, j) {
                            Some((content, k)) => match sp_u64(s, k) {
                                Some((n, m)) => match sp_cids(s, m, n as nat) {
                                    Some((prev, e)) => {
                                        if e == s.len() && sorted_addrs(prev) {
                                            Some(
                                                NodeV::File(
                                                    FileV {
                                                        created: cr as i64,
                                                        modified: mo as i64,
                                                        userland: content,
                                                        previous: prev,
                                                    },
                                                ),
                                            )
                                        } else {
                                            None
                                        }
                                    },
                                    None => None,
                                },
                                None => None,
                            },
                            None => None,
                        }
                    } else if s[0] == DIR_TAG {
                        match sp_u64(s, j) {
                            Some((cn, k)) => match sp_children(s, k, cn as nat) {
                                Some((children, m)) => match sp_u64(s, m) {
                                    Some((n, p)) => match sp_cids(s, p, n as nat) {
                                        Some((prev, e)) => {
                                            if e == s.len() && sorted_addrs(prev) {
                                                Some(
                                                    NodeV::Dir(
                                                        DirV {
                                                            created: cr as i64,
                                                            modified: mo as i64,
                                                            userland: children,
                                                            previous: prev,
                                                        },
                                                    ),
                                                )
                                            } else {
                                                None
                                            }
                                        },
                                        None => None,
                                    },
                                    None => None,
                                },
                                None => None,
                            },
                            None => None,
                        }
                    } else {
                        None
                    }
                },
                None => None,
            },
            (None, ) => None,
        }
    }
}

/// The (name, address) pairs of an already-resolved children list.
pub open spec fn pairs_view(l: Seq<(String, crate::cid::Cid)>) -> Seq<(Seq<char>, Seq<u8>)> {
    l.map_values(|p: (String, crate::cid::Cid)| (p.0@, p.1@))
}

/// Encoding one more address appends its field to the list's bytes.
pub proof fn lemma_enc_cids_snoc(l: Seq<Seq<u8>>, x: Seq<u8>)
    ensures
        enc_cids(l.push(x)) == enc_cids(l) + enc_chunk(x),
    decreases l.len(),
{
    let p = l.push(x);
    if l.len() == 0 {
        assert(p[0] == x);
        assert(p.drop_first() =~= Seq::<Seq<u8>>::empty());
        assert(enc_cids(p.drop_first()) == Seq::<u8>::empty());
        assert(enc_cids(p) =~= enc_cids(l) + enc_chunk(x));
    } else {
        assert(p[0] == l[0]);
        assert(p.drop_first() =~= l.drop_first().push(x));
        lemma_enc_cids_snoc(l.drop_first(), x);
        assert(enc_cids(p) =~= enc_cids(l) + enc_chunk(x));
    }
}

/// Encoding one more child appends its two fields to the list's bytes.
pub proof fn lemma_enc_children_snoc(l: Seq<(Seq<char>, Seq<u8>)>, x: (Seq<char>, Seq<u8>))
    ensures
        enc_children(l.push(x)) == enc_children(l) + (enc_chunk(encode_utf8(x.0)) + enc_chunk(
            x.1,
        )),
    decreases l.len(),
{
    let p = l.push(x);
    if l.len() == 0 {
        assert(p[0] == x);
        assert(p.drop_first() =~= Seq::<(Seq<char>, Seq<u8>)>::empty());
        assert(enc_children(p.drop_first()) == Seq::<u8>::empty());
        assert(enc_children(p) =~= enc_children(l) + (enc_chunk(encode_utf8(x.0)) + enc_chunk(
            x.1,
        )));
    } else {
        assert(p[0] == l[0]);
        assert(p.drop_first() =~= l.drop_first().push(x));
        lemma_enc_children_snoc(l.drop_first(), x);
        assert(enc_children(p) =~= enc_children(l) + (enc_chunk(encode_utf8(x.0)) + enc_chunk(
            x.1,
        )));
    }
}

/// Appends a `u64` length or count to the buffer.
fn enc_u64_into(out: &mut Vec<u8>, x: u64)
    ensures
        final(out)@ == old(out)@ + enc_u64(x),
{
    let mut b = vstd::bytes::u64_to_le_bytes(x);
    out.append(&mut b);
}

/// Appends a length-prefixed byte field to the buffer.
fn enc_chunk_into(out: &mut Vec<u8>, b: &[u8])
    ensures
        final(out)@ == old(out)@ + enc_chunk(b@),
{
    enc_u64_into(out, b.len() as u64);
    let ghost mid = out@;
    out.extend_from_slice(b);
    proof {
        assert forall|i: int| 0 <= i < out@.len() implies out@[i] == (mid + b@)[i] by {
            if i >= mid.len() {
                assert(vstd::pervasive::cloned::<u8>(b@[i - mid.len()], out@[i]));
            }
        }
        assert(out@ =~= mid + b@);
        assert(b@.len() as u64 as nat == b@.len());
        assert(out@ =~= old(out)@ + enc_chunk(b@));
    }
}

/// Appends the encoding of a list of addresses to the buffer.
fn enc_cids_into(out: &mut Vec<u8>, cids: &Vec<crate::cid::Cid>)
    ensures
        final(out)@ == old(out)@ + enc_cids(crate::order::cids_view(cids@)),
{
    let len = cids.len();
    let mut i: usize = 0;
    proof {
        assert(crate::order::cids_view(cids@.take(0)) =~= Seq::<Seq<u8>>::empty());
        assert(out@ =~= out@ + enc_cids(crate::order::cids_view(cids@.take(0))));
    }
    while i < len
        invariant
            i <= len,
            len == cids@.len(),
            out@ == old(out)@ + enc_cids(crate::order::cids_view(cids@.take(i as int))),
        decreases len - i,
    {
        let ghost before = crate::order::cids_view(cids@.take(i as int));
        enc_chunk_into(out, cids[i].bytes.as_slice());
        proof {
            assert(crate::order::cids_view(cids@.take(i + 1)) =~= before.push(cids@[i as int]@));
            lemma_enc_cids_snoc(before, cids@[i as int]@);
            assert(out@ =~= old(out)@ + enc_cids(crate::order::cids_view(cids@.take(i + 1))));
        }
        i += 1;
    }
    proof {
        assert(cids@.take(len as int) =~= cids@);
    }
}

/// Appends the encoding of a resolved children list to the buffer.
fn enc_children_into(out: &mut Vec<u8>, pairs: &Vec<(String, crate::cid::Cid)>)
    ensures
        final(out)@ == old(out)@ + enc_children(pairs_view(pairs@)),
{
    let len = pairs.len();
    let mut i: usize = 0;
    proof {
        assert(pairs_view(pairs@.take(0)) =~= Seq::<(Seq<char>, Seq<u8>)>::empty());
        assert(out@ =~= out@ + enc_children(pairs_view(pairs@.take(0))));
    }
    while i < len
        invariant
            i <= len,
            len == pairs@.len(),
            out@ == old(out)@ + enc_children(pairs_view(pairs@.take(i as int))),
        decreases len - i,
    {
        let ghost before = pairs_view(pairs@.take(i as int));
        enc_chunk_into(out, pairs[i].0.as_str().as_bytes());
        enc_chunk_into(out, pairs[i].1.bytes.as_slice());
        proof {
            let x = (pairs@[i as int].0@, pairs@[i as int].1@);
            assert(pairs_view(pairs@.take(i + 1)) =~= before.push(x));
            lemma_enc_children_snoc(before, x);
            assert(out@ =~= old(out)@ + enc_children(pairs_view(pairs@.take(i + 1))));
        }
        i += 1;
    }
    proof {
        assert(pairs@.take(len as int) =~= pairs@);
    }
}

/// Appends the two metadata timestamps to the buffer.
fn enc_meta_into(out: &mut Vec<u8>, created: i64, modified: i64)
    ensures
        final(out)@ == old(out)@ + enc_meta(created, modified),
{
    enc_u64_into(out, created as u64);
    enc_u64_into(out, modified as u64);
    proof {
        assert(out@ =~= old(out)@ + enc_meta(created, modified));
    }
}

/// Serializes a file node's view.
pub fn encode_file(f: &crate::node::PublicFile) -> (r: Vec<u8>)
    ensures
        r@ == node_wire(crate::node::NodeV::File(f@)),
{
    let mut out: Vec<u8> = Vec::new();
    out.push(FILE_TAG);
    proof {
        assert(out@ =~= seq![FILE_TAG]);
    }
    enc_meta_into(&mut out, f.metadata.created, f.metadata.modified);
    enc_chunk_into(&mut out, f.userland.bytes.as_slice());
    enc_u64_into(&mut out, f.previous.len() as u64);
    enc_cids_into(&mut out, &f.previous);
    proof {
        assert(f.previous@.len() as u64 as nat == crate::order::cids_view(f.previous@).len());
        assert(out@ =~= node_wire(crate::node::NodeV::File(f@)));
    }
    out
}

/// Serializes a directory node's view, its children already resolved to
/// the given (name, address) pairs.
pub fn encode_dir(
    d: &crate::node::PublicDirectory,
    pairs: &Vec<(String, crate::cid::Cid)>,
) -> (r: Vec<u8>)
    requires
        pairs_view(pairs@) == d@.userland,
    ensures
        r@ == node_wire(crate::node::NodeV::Dir(d@)),
{
    let mut out: Vec<u8> = Vec::new();
    out.push(DIR_TAG);
    proof {
        assert(out@ =~= seq![DIR_TAG]);
    }
    enc_meta_into(&mut out, d.metadata.created, d.metadata.modified);
    enc_u64_into(&mut out, pairs.len() as u64);
    enc_children_into(&mut out, pairs);
    enc_u64_into(&mut out, d.previous.len() as u64);
    enc_cids_into(&mut out, &d.previous);
    proof {
        assert(pairs@.len() as u64 as nat == d@.userland.len());
        assert(d.previous@.len() as u64 as nat == crate::order::cids_view(d.previous@).len());
        assert(out@ =~= node_wire(crate::node::NodeV::Dir(d@)));
    }
    out
}

/// Relies on `String::from_utf8`: it returns the string whose UTF-8
/// encoding is the input, exactly when the input is valid UTF-8.
#[verifier::external_body]
fn string_from_utf8(bytes: Vec<u8>) -> (r: Option<String>)
    ensures
        match r {
            Some(s) => encode_utf8(s@) == bytes@,
            None => !valid_utf8(bytes@),
        },
        valid_utf8(bytes@) ==> r is Some,
{
    match String::from_utf8(bytes) {
        Ok(s) => Some(s),
        Err(_) => None,
    }
}

/// Reads a `u64` at `pos`, as [`sp_u64`] describes.
fn dec_u64_at(bytes: &[u8], pos: usize) -> (r: Option<(u64, usize)>)
    requires
        pos <= bytes@.len(),
    ensures
        match r {
            Some(p) => sp_u64(bytes@, pos as int) == Some((p.0, p.1 as int)) && p.1
                <= bytes@.len(),
            None => sp_u64(bytes@, pos as int) is None,
        },
{
    if bytes.len() - pos >= 8 {
        let s = vstd::slice::slice_subrange(bytes, pos, pos + 8);
        let x = vstd::bytes::u64_from_le_bytes(s);
        Some((x, pos + 8))
    } else {
        None
    }
}

/// Reads a length-prefixed byte field at `pos`, as [`sp_chunk`] describes.
fn dec_chunk_at(bytes: &[u8], pos: usize) -> (r: Option<(Vec<u8>, usize)>)
    requires
        pos <= bytes@.len(),
    ensures
        match r {
            Some(p) => sp_chunk(bytes@, pos as int) == Some((p.0@, p.1 as int)) && p.1
                <= bytes@.len(),
            None => sp_chunk(bytes@, pos as int) is None,
        },
{
    match dec_u64_at(bytes, pos) {
        Some((n, j)) => {
            if n > (bytes.len() - j) as u64 {
                None
            } else {
                let nn = n as usize;
                let v = vstd::slice::slice_to_vec(vstd::slice::slice_subrange(bytes, j, j + nn));
                Some((v, j + nn))
            }
        },
        None => None,
    }
}

/// Reads `n` length-prefixed addresses at `pos`, as [`sp_cids`] describes.
fn dec_cids_at(bytes: &[u8], pos: usize, n: u64) -> (r: Option<(Vec<crate::cid::Cid>, usize)>)
    requires
        pos <= bytes@.len(),
    ensures
        match r {
            Some(p) => sp_cids(bytes@, pos as int, n as nat) == Some(
                (crate::order::cids_view(p.0@), p.1 as int),
            ) && p.1 <= bytes@.len(),
            None => sp_cids(bytes@, pos as int, n as nat) is None,
        },
{
    let mut acc: Vec<crate::cid::Cid> = Vec::new();
    let mut cur = pos;
    let mut i: u64 = 0;
    proof {
        assert(crate::order::cids_view(acc@) =~= Seq::<Seq<u8>>::empty());
    }
    while i < n
        invariant
            i <= n,
            cur <= bytes@.len(),
            match sp_cids(bytes@, cur as int, (n - i) as nat) {
                Some(p) => sp_cids(bytes@, pos as int, n as nat) == Some(
                    (crate::order::cids_view(acc@) + p.0, p.1),
                ),
                None => sp_cids(bytes@, pos as int, n as nat) is None,
            },
        decreases n - i,
    {
        match dec_chunk_at(bytes, cur) {
            Some((b, j)) => {
                let ghost prior = acc@;
                acc.push(crate::cid::Cid { bytes: b });
                proof {
                    assert(crate::order::cids_view(acc@) =~= crate::order::cids_view(prior).push(
                        acc@.last()@,
                    ));
                    match sp_cids(bytes@, j as int, (n - i - 1) as nat) {
                        Some(p) => {
                            assert(crate::order::cids_view(prior) + (seq![acc@.last()@] + p.0)
                                =~= crate::order::cids_view(acc@) + p.0);
                        },
                        None => {},
                    }
                }
                cur = j;
                i += 1;
            },
            None => {
                return None;
            },
        }
    }
    proof {
        assert(crate::order::cids_view(acc@) + Seq::<Seq<u8>>::empty() =~= crate::order::cids_view(
            acc@,
        ));
    }
    Some((acc, cur))
}

/// Reads `n` children at `pos`, as [`sp_children`] describes; every child
/// comes back as a bare address reference.
fn dec_children_at(bytes: &[u8], pos: usize, n: u64) -> (r: Option<
    (Vec<(String, crate::node::ChildRef)>, usize),
>)
    requires
        pos <= bytes@.len(),
    ensures
        match r {
            Some(p) => {
                &&& sp_children(bytes@, pos as int, n as nat) == Some(
                    (crate::node::children_view(p.0@), p.1 as int),
                )
                &&& p.1 <= bytes@.len()
                &&& crate::node::links_resolved(p.0@)
            },
            None => sp_children(bytes@, pos as int, n as nat) is None,
        },
{
    let mut acc: Vec<(String, crate::node::ChildRef)> = Vec::new();
    let mut cur = pos;
    let mut i: u64 = 0;
    proof {
        assert(crate::node::children_view(acc@) =~= Seq::<(Seq<char>, Seq<u8>)>::empty());
    }
    while i < n
        invariant
            i <= n,
            cur <= bytes@.len(),
            crate::node::links_resolved(acc@),
            match sp_children(bytes@, cur as int, (n - i) as nat) {
                Some(p) => sp_children(bytes@, pos as int, n as nat) == Some(
                    (crate::node::children_view(acc@) + p.0, p.1),
                ),
                None => sp_children(bytes@, pos as int, n as nat) is None,
            },
        decreases n - i,
    {
        match dec_chunk_at(bytes, cur) {
            Some((nb, j)) => {
                let ghost nbv = nb@;
                match string_from_utf8(nb) {
                    Some(name) => {
                        match dec_chunk_at(bytes, j) {
                            Some((cb, k)) => {
                                let ghost prior = acc@;
                                acc.push(
                                    (name, crate::node::ChildRef::Ref(crate::cid::Cid { bytes: cb })),
                                );
                                proof {
                                    vstd::utf8::encode_utf8_valid_utf8(acc@.last().0@);
                                    vstd::utf8::encode_utf8_decode_utf8(acc@.last().0@);
                                    assert(decode_utf8(nbv) == acc@.last().0@);
                                    crate::node::lemma_children_view_push(prior, acc@.last());
                                    assert(acc@.drop_last() =~= prior);
                                    assert(acc@ =~= prior.push(acc@.last()));
                                    let entry = (decode_utf8(nbv), acc@.last().1->Ref_0@);
                                    assert(crate::node::children_view(acc@)
                                        == crate::node::children_view(prior).push(entry));
                                    match sp_children(bytes@, k as int, (n - i - 1) as nat) {
                                        Some(p) => {
                                            assert(crate::node::children_view(prior) + (seq![entry]
                                                + p.0) =~= crate::node::children_view(acc@) + p.0);
                                        },
                                        None => {},
                                    }
                                }
                                cur = k;
                                i += 1;
                            },
                            None => {
                                return None;
                            },
                        }
                    },
                    None => {
                        return None;
                    },
                }
            },
            None => {
                return None;
            },
        }
    }
    proof {
        assert(crate::node::children_view(acc@) + Seq::<(Seq<char>, Seq<u8>)>::empty()
            =~= crate::node::children_view(acc@));
    }
    Some((acc, cur))
}

/// Decodes a node record, as [`sp_node`] describes: the node that comes
/// back has the parsed view, bare-address children, an unset cell, and is
/// valid.
pub fn decode_node(bytes: &Vec<u8>) -> (r: Option<crate::node::PublicNode>)
    ensures
        match sp_node(bytes@) {
            Some(v) => {
                &&& r matches Some(node)
                &&& node@ == v
                &&& node.resolved()
                &&& node.spec_persisted() is None
                &&& node.wf()
            },
            None => r is None,
        },
{
    let len = bytes.len();
    if len < 1 {
        return None;
    }
    let tag = bytes[0];
    let (cr, i) = match dec_u64_at(bytes.as_slice(), 1) {
        Some(p) => p,
        None => {
            return None;
        },
    };
    let (mo, j) = match dec_u64_at(bytes.as_slice(), i) {
        Some(p) => p,
        None => {
            return None;
        },
    };
    if tag == FILE_TAG {
        let (content, k) = match dec_chunk_at(bytes.as_slice(), j) {
            Some(p) => p,
            None => {
                return None;
            },
        };
        let (n, m) = match dec_u64_at(bytes.as_slice(), k) {
            Some(p) => p,
            None => {
                return None;
            },
        };
        let (prev, e) = match dec_cids_at(bytes.as_slice(), m, n) {
            Some(p) => p,
            None => {
                return None;
            },
        };
        if e != len {
            return None;
        }
        if !crate::order::is_strictly_sorted(&prev) {
            proof {
                lemma_sorted_addrs_cids(prev@);
            }
            return None;
        }
        let node = crate::node::PublicNode::File(
            crate::node::PublicFile {
                metadata: crate::metadata::Metadata { created: cr as i64, modified: mo as i64 },
                userland: crate::cid::Cid { bytes: content },
                previous: prev,
                persisted_as: None,
            },
        );
        proof {
            lemma_sorted_addrs_cids(prev@);
        }
        Some(node)
    } else if tag == DIR_TAG {
        let (cn, k) = match dec_u64_at(bytes.as_slice(), j) {
            Some(p) => p,
            None => {
                return None;
            },
        };
        let (children, m) = match dec_children_at(bytes.as_slice(), k, cn) {
            Some(p) => p,
            None => {
                return None;
            },
        };
        let (n, p2) = match dec_u64_at(bytes.as_slice(), m) {
            Some(p) => p,
            None => {
                return None;
            },
        };
        let (prev, e) = match dec_cids_at(bytes.as_slice(), p2, n) {
            Some(p) => p,
            None => {
                return None;
            },
        };
        if e != len {
            return None;
        }
        if !crate::order::is_strictly_sorted(&prev) {
            proof {
                lemma_sorted_addrs_cids(prev@);
            }
            return None;
        }
        let node = crate::node::PublicNode::Dir(
            crate::node::PublicDirectory {
                metadata: crate::metadata::Metadata { created: cr as i64, modified: mo as i64 },
                userland: children,
                previous: prev,
                persisted_as: None,
            },
        );
        proof {
            lemma_sorted_addrs_cids(prev@);
        }
        Some(node)
    } else {
        None
    }
}

/// Strict sortedness of addresses transfers between a vector of [`Cid`]s
/// and their byte strings.
pub proof fn lemma_sorted_addrs_cids(v: Seq<crate::cid::Cid>)
    ensures
        sorted_addrs(crate::order::cids_view(v)) == crate::order::strictly_sorted(v),
{
    let w = crate::order::cids_view(v);
    if sorted_addrs(w) {
        assert forall|i: int, j: int| 0 <= i < j < v.len() implies bytes_lt(v[i]@, v[j]@) by {
            assert(w[i] == v[i]@);
            assert(w[j] == v[j]@);
            assert(bytes_lt(w[i], w[j]));
        }
    }
    if crate::order::strictly_sorted(v) {
        assert forall|i: int, j: int| 0 <= i < j < w.len() implies bytes_lt(w[i], w[j]) by {
            assert(w[i] == v[i]@);
            assert(w[j] == v[j]@);
            assert(bytes_lt(v[i]@, v[j]@));
        }
    }
}

/// Parsing at the position of an encoded `u64` yields that `u64`.
pub proof fn lemma_sp_u64_at(s: Seq<u8>, i: int, x: u64)
    requires
        0 <= i,
        i + 8 <= s.len(),
        s.subrange(i, i + 8) == enc_u64(x),
    ensures
        sp_u64(s, i) == Some((x, i + 8)),
{
    vstd::bytes::lemma_auto_spec_u64_to_from_le_bytes();
}

/// Parsing at the position of an encoded chunk yields that chunk.
pub proof fn lemma_sp_chunk_at(s: Seq<u8>, i: int, b: Seq<u8>)
    requires
        0 <= i,
        b.len() < 0x1_0000_0000_0000_0000,
        i + 8 + b.len() <= s.len(),
        s.subrange(i, i + 8 + b.len()) == enc_chunk(b),
    ensures
        sp_chunk(s, i) == Some((b, i + 8 + b.len())),
{
    vstd::bytes::lemma_auto_spec_u64_to_from_le_bytes();
    let w = s.subrange(i, i + 8 + b.len());
    assert(enc_u64((b.len() as u64)).len() == 8);
    assert(s.subrange(i, i + 8) =~= enc_u64(b.len() as u64)) by {
        assert forall|k: int| 0 <= k < 8 implies #[trigger] s.subrange(i, i + 8)[k] == enc_u64(
            b.len() as u64,
        )[k] by {
            assert(s.subrange(i, i + 8)[k] == w[k]);
            assert(w[k] == enc_chunk(b)[k]);
        }
    }
    lemma_sp_u64_at(s, i, b.len() as u64);
    assert(b.len() as u64 as int == b.len());
    assert(s.subrange(i + 8, i + 8 + b.len()) =~= b) by {
        assert forall|k: int| 0 <= k < b.len() implies s.subrange(i + 8, i + 8 + b.len())[k]
            == b[k] by {
            assert(s.subrange(i + 8, i + 8 + b.len())[k] == w[k + 8]);
            assert(w[k + 8] == enc_chunk(b)[k + 8]);
        }
    }
}

/// Parsing at the position of an encoded address list yields that list.
pub proof fn lemma_sp_cids_at(s: Seq<u8>, i: int, l: Seq<Seq<u8>>)
    requires
        0 <= i,
        forall|k: int| 0 <= k < l.len() ==> l[k].len() < 0x1_0000_0000_0000_0000,
        i + enc_cids(l).len() <= s.len(),
        s.subrange(i, i + enc_cids(l).len()) == enc_cids(l),
    ensures
        sp_cids(s, i, l.len()) == Some((l, i + enc_cids(l).len())),
    decreases l.len(),
{
    vstd::bytes::lemma_auto_spec_u64_to_from_le_bytes();
    if l.len() == 0 {
        assert(l =~= Seq::<Seq<u8>>::empty());
    } else {
        let c = enc_chunk(l[0]);
        let rest = enc_cids(l.drop_first());
        let w = s.subrange(i, i + enc_cids(l).len());
        assert(enc_cids(l) == c + rest);
        assert(c.len() == 8 + l[0].len());
        assert(s.subrange(i, i + 8 + l[0].len()) =~= c) by {
            assert forall|k: int| 0 <= k < c.len() implies s.subrange(i, i + c.len())[k]
                == c[k] by {
                assert(s.subrange(i, i + c.len())[k] == w[k]);
                assert(w[k] == (c + rest)[k]);
            }
        }
        lemma_sp_chunk_at(s, i, l[0]);
        assert(s.subrange(i + c.len(), i + c.len() + rest.len()) =~= rest) by {
            assert forall|k: int| 0 <= k < rest.len() implies s.subrange(
                i + c.len(),
                i + c.len() + rest.len(),
            )[k] == rest[k] by {
                assert(s.subrange(i + c.len(), i + c.len() + rest.len())[k] == w[k + c.len()]);
                assert(w[k + c.len()] == (c + rest)[k + c.len()]);
            }
        }
        assert forall|k: int| 0 <= k < l.drop_first().len() implies l.drop_first()[k].len()
            < 0x1_0000_0000_0000_0000 by {
            assert(l.drop_first()[k] == l[k + 1]);
        }
        lemma_sp_cids_at(s, i + c.len(), l.drop_first());
        assert(seq![l[0]] + l.drop_first() =~= l);
    }
}

/// Parsing at the position of an encoded children list yields that list.
pub proof fn lemma_sp_children_at(s: Seq<u8>, i: int, l: Seq<(Seq<char>, Seq<u8>)>)
    requires
        0 <= i,
        forall|k: int|
            0 <= k < l.len() ==> encode_utf8(#[trigger] l[k].0).len() < 0x1_0000_0000_0000_0000
                && l[k].1.len() < 0x1_0000_0000_0000_0000,
        i + enc_children(l).len() <= s.len(),
        s.subrange(i, i + enc_children(l).len()) == enc_children(l),
    ensures
        sp_children(s, i, l.len()) == Some((l, i + enc_children(l).len())),
    decreases l.len(),
{
    vstd::bytes::lemma_auto_spec_u64_to_from_le_bytes();
    if l.len() == 0 {
        assert(l =~= Seq::<(Seq<char>, Seq<u8>)>::empty());
    } else {
        let nb = encode_utf8(l[0].0);
        let c1 = enc_chunk(nb);
        let c2 = enc_chunk(l[0].1);
        let rest = enc_children(l.drop_first());
        let w = s.subrange(i, i + enc_children(l).len());
        assert(enc_children(l) == c1 + c2 + rest);
        assert(c1.len() == 8 + nb.len());
        assert(c2.len() == 8 + l[0].1.len());
        assert(s.subrange(i, i + c1.len()) =~= c1) by {
            assert forall|k: int| 0 <= k < c1.len() implies s.subrange(i, i + c1.len())[k]
                == c1[k] by {
                assert(s.subrange(i, i + c1.len())[k] == w[k]);
                assert(w[k] == (c1 + c2 + rest)[k]);
            }
        }
        lemma_sp_chunk_at(s, i, nb);
        vstd::utf8::encode_utf8_valid_utf8(l[0].0);
        vstd::utf8::encode_utf8_decode_utf8(l[0].0);
        assert(s.subrange(i + c1.len(), i + c1.len() + c2.len()) =~= c2) by {
            assert forall|k: int| 0 <= k < c2.len() implies s.subrange(
                i + c1.len(),
                i + c1.len() + c2.len(),
            )[k] == c2[k] by {
                assert(s.subrange(i + c1.len(), i + c1.len() + c2.len())[k] == w[k + c1.len()]);
                assert(w[k + c1.len()] == (c1 + c2 + rest)[k + c1.len()]);
            }
        }
        lemma_sp_chunk_at(s, i + c1.len(), l[0].1);
        let p2 = i + c1.len() + c2.len();
        assert(s.subrange(p2, p2 + rest.len()) =~= rest) by {
            assert forall|k: int| 0 <= k < rest.len() implies s.subrange(p2, p2 + rest.len())[k]
                == rest[k] by {
                assert(s.subrange(p2, p2 + rest.len())[k] == w[k + c1.len() + c2.len()]);
                assert(w[k + c1.len() + c2.len()] == (c1 + c2 + rest)[k + c1.len() + c2.len()]);
            }
        }
        assert forall|k: int|
            0 <= k < l.drop_first().len() implies encode_utf8(
            #[trigger] l.drop_first()[k].0,
        ).len() < 0x1_0000_0000_0000_0000 && l.drop_first()[k].1.len()
            < 0x1_0000_0000_0000_0000 by {
            assert(l.drop_first()[k] == l[k + 1]);
        }
        lemma_sp_children_at(s, p2, l.drop_first());
        assert((decode_utf8(nb), l[0].1) == l[0]);
        assert(seq![l[0]] + l.drop_first() =~= l);
    }
}

/// Parsing the encoding of a valid view yields exactly that view: the
/// wire format round-trips.
pub proof fn lemma_node_round_trip(v: NodeV)
    requires
        wire_bounded(v),
        match v {
            NodeV::File(f) => sorted_addrs(f.previous),
            NodeV::Dir(d) => sorted_addrs(d.previous),
        },
    ensures
        sp_node(node_wire(v)) == Some(v),
{
    vstd::bytes::lemma_auto_spec_u64_to_from_le_bytes();
    let s = node_wire(v);
    match v {
        NodeV::File(f) => {
            let seg1 = enc_u64(f.created as u64);
            let seg2 = enc_u64(f.modified as u64);
            let seg3 = enc_chunk(f.userland);
            let seg4 = enc_u64(f.previous.len() as u64);
            let seg5 = enc_cids(f.previous);
            assert(s =~= seq![FILE_TAG] + seg1 + seg2 + seg3 + seg4 + seg5);
            assert(s[0] == FILE_TAG);
            assert(s.subrange(1, 9) =~= seg1);
            lemma_sp_u64_at(s, 1, f.created as u64);
            assert(s.subrange(9, 17) =~= seg2);
            lemma_sp_u64_at(s, 9, f.modified as u64);
            assert(s.subrange(17, 17 + seg3.len() as int) =~= seg3);
            lemma_sp_chunk_at(s, 17, f.userland);
            let p4 = 17 + seg3.len() as int;
            assert(s.subrange(p4, p4 + 8) =~= seg4);
            lemma_sp_u64_at(s, p4, f.previous.len() as u64);
            let p5 = p4 + 8;
            assert(s.subrange(p5, p5 + seg5.len() as int) =~= seg5);
            lemma_sp_cids_at(s, p5, f.previous);
            assert(f.previous.len() as u64 as nat == f.previous.len());
            let cr64 = f.created;
            let mo64 = f.modified;
            assert((cr64 as u64) as i64 == cr64) by (bit_vector);
            assert((mo64 as u64) as i64 == mo64) by (bit_vector);
            assert(p5 + seg5.len() == s.len());
            assert(sp_node(s) == Some(v));
        },
        NodeV::Dir(d) => {
            let seg1 = enc_u64(d.created as u64);
            let seg2 = enc_u64(d.modified as u64);
            let seg3 = enc_u64(d.userland.len() as u64);
            let seg4 = enc_children(d.userland);
            let seg5 = enc_u64(d.previous.len() as u64);
            let seg6 = enc_cids(d.previous);
            assert(s =~= seq![DIR_TAG] + seg1 + seg2 + seg3 + seg4 + seg5 + seg6);
            assert(s[0] == DIR_TAG);
            assert(s.subrange(1, 9) =~= seg1);
            lemma_sp_u64_at(s, 1, d.created as u64);
            assert(s.subrange(9, 17) =~= seg2);
            lemma_sp_u64_at(s, 9, d.modified as u64);
            assert(s.subrange(17, 25) =~= seg3);
            lemma_sp_u64_at(s, 17, d.userland.len() as u64);
            let p4 = 25int;
            assert(s.subrange(p4, p4 + seg4.len() as int) =~= seg4);
            lemma_sp_children_at(s, p4, d.userland);
            assert(d.userland.len() as u64 as nat == d.userland.len());
            let p5 = p4 + seg4.len() as int;
            assert(s.subrange(p5, p5 + 8) =~= seg5);
            lemma_sp_u64_at(s, p5, d.previous.len() as u64);
            let p6 = p5 + 8;
            assert(s.subrange(p6, p6 + seg6.len() as int) =~= seg6);
            lemma_sp_cids_at(s, p6, d.previous);
            assert(d.previous.len() as u64 as nat == d.previous.len());
            let cr64 = d.created;
            let mo64 = d.modified;
            assert((cr64 as u64) as i64 == cr64) by (bit_vector);
            assert((mo64 as u64) as i64 == mo64) by (bit_vector);
            assert(p6 + seg6.len() == s.len());
            assert(sp_node(s) == Some(v));
        },
    }
}

} // verus!
