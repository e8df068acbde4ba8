//! Byte-string comparison and the ordered set of content identifiers.
//!
//! The previous-version set of a node is kept as a vector of identifiers
//! that is strictly sorted in lexicographic byte order: duplicates are
//! impossible and the order is canonical, so serializing the set is stable.

use crate::cid::Cid;
use vstd::prelude::*;

verus! {

/// Lexicographic "strictly less" on byte strings: the shorter prefix comes
/// first, otherwise the first differing byte decides.
pub open spec fn bytes_lt(a: Seq<u8>, b: Seq<u8>) -> bool
    decreases a.len(),
{
    if b.len() == 0 {
        false
    } else if a.len() == 0 {
        true
    } else if a[0] < b[0] {
        true
    } else if a[0] > b[0] {
        false
    } else {
        bytes_lt(a.drop_first(), b.drop_first())
    }
}

/// No byte string is lexicographically below itself.
pub proof fn lemma_bytes_lt_irreflexive(a: Seq<u8>)
    ensures
        !bytes_lt(a, a),
    decreases a.len(),
{
    if a.len() > 0 {
        lemma_bytes_lt_irreflexive(a.drop_first());
    }
}

/// Lexicographic order is transitive.
pub proof fn lemma_bytes_lt_transitive(a: Seq<u8>, b: Seq<u8>, c: Seq<u8>)
    requires
        bytes_lt(a, b),
        bytes_lt(b, c),
    ensures
        bytes_lt(a, c),
    decreases a.len(),
{
    if a.len() > 0 && b.len() > 0 && c.len() > 0 && a[0] == b[0] && b[0] == c[0] {
        lemma_bytes_lt_transitive(a.drop_first(), b.drop_first(), c.drop_first());
    }
}

/// Lexicographic order is asymmetric.
pub proof fn lemma_bytes_lt_asymmetric(a: Seq<u8>, b: Seq<u8>)
    requires
        bytes_lt(a, b),
    ensures
        !bytes_lt(b, a),
        a != b,
{
    lemma_bytes_lt_irreflexive(a);
    if bytes_lt(b, a) {
        lemma_bytes_lt_transitive(a, b, a);
    }
}

/// The outcome of comparing two byte strings.
pub enum Cmp {
    Less,
    Equal,
    Greater,
}

/// Compares the suffixes `a[i..]` and `b[i..]` lexicographically.
fn bytes_cmp_from(a: &[u8], b: &[u8], i: usize) -> (o: Cmp)
    requires
        i <= a@.len(),
        i <= b@.len(),
    ensures
        o is Less ==> bytes_lt(a@.skip(i as int), b@.skip(i as int)),
        o is Equal ==> a@.skip(i as int) == b@.skip(i as int),
        o is Greater ==> bytes_lt(b@.skip(i as int), a@.skip(i as int)),
    decreases a@.len() - i,
{
    let a_len = a.len();
    let b_len = b.len();
    if i == b_len {
        if i == a_len {
            proof {
                assert(a@.skip(i as int) =~= b@.skip(i as int));
            }
            Cmp::Equal
        } else {
            Cmp::Greater
        }
    } else if i == a_len {
        Cmp::Less
    } else {
        let x = a[i];
        let y = b[i];
        if x < y {
            Cmp::Less
        } else if x > y {
            Cmp::Greater
        } else {
            let o = bytes_cmp_from(a, b, i + 1);
            proof {
                assert(a@.skip(i as int).drop_first() =~= a@.skip(i + 1));
                assert(b@.skip(i as int).drop_first() =~= b@.skip(i + 1));
                if o is Equal {
                    let sa = a@.skip(i as int);
                    let sb = b@.skip(i as int);
                    assert(sa.len() == sb.len());
                    assert forall|k: int| 0 <= k < sa.len() implies sa[k] == sb[k] by {
                        if k > 0 {
                            assert(sa[k] == sa.drop_first()[k - 1]);
                            assert(sb[k] == sb.drop_first()[k - 1]);
                        } else {
                            assert(sa[0] == a@[i as int]);
                            assert(sb[0] == b@[i as int]);
                        }
                    }
                    assert(sa =~= sb);
                }
            }
            o
        }
    }
}

/// Compares two byte strings lexicographically.
pub fn bytes_cmp(a: &[u8], b: &[u8]) -> (o: Cmp)
    ensures
        o is Less ==> bytes_lt(a@, b@),
        o is Equal ==> a@ == b@,
        o is Greater ==> bytes_lt(b@, a@),
{
    let o = bytes_cmp_from(a, b, 0);
    proof {
        assert(a@.skip(0) =~= a@);
        assert(b@.skip(0) =~= b@);
    }
    o
}

/// Whether two byte strings are equal.
pub fn bytes_eq(a: &[u8], b: &[u8]) -> (r: bool)
    ensures
        r == (a@ == b@),
{
    match bytes_cmp(a, b) {
        Cmp::Equal => true,
        Cmp::Less => {
            proof {
                lemma_bytes_lt_asymmetric(a@, b@);
            }
            false
        },
        Cmp::Greater => {
            proof {
                lemma_bytes_lt_asymmetric(b@, a@);
            }
            false
        },
    }
}

/// The identifiers of a vector of [`Cid`]s, as byte strings.
pub open spec fn cids_view(s: Seq<Cid>) -> Seq<Seq<u8>> {
    s.map_values(|c: Cid| c@)
}

/// The set of identifiers held by a vector of [`Cid`]s.
pub open spec fn cid_set(s: Seq<Cid>) -> Set<Seq<u8>> {
    cids_view(s).to_set()
}

/// Whether the identifiers are strictly increasing in lexicographic order;
/// this makes the order canonical and duplicates impossible.
pub open spec fn strictly_sorted(s: Seq<Cid>) -> bool {
    forall|i: int, j: int| 0 <= i < j < s.len() ==> bytes_lt(s[i]@, s[j]@)
}

/// Finds where `c` belongs in a strictly sorted vector: the index of the
/// first entry not below `c`, and whether that entry equals `c`.
fn find_position(out: &Vec<Cid>, c: &Cid) -> (r: (usize, bool))
    requires
        strictly_sorted(out@),
    ensures
        r.0 <= out@.len(),
        forall|j: int| 0 <= j < r.0 ==> bytes_lt(out@[j]@, c@),
        r.1 ==> r.0 < out@.len() && out@[r.0 as int]@ == c@,
        !r.1 && r.0 < out@.len() ==> bytes_lt(c@, out@[r.0 as int]@),
{
    let mut i: usize = 0;
    let len = out.len();
    while i < len
        invariant
            i <= len,
            len == out@.len(),
            forall|j: int| 0 <= j < i ==> bytes_lt(out@[j]@, c@),
        decreases len - i,
    {
        match bytes_cmp(out[i].bytes.as_slice(), c.bytes.as_slice()) {
            Cmp::Less => {
                i += 1;
            },
            Cmp::Equal => {
                return (i, true);
            },
            Cmp::Greater => {
                return (i, false);
            },
        }
    }
    (i, false)
}

/// Inserts an identifier into a strictly sorted vector, keeping it strictly
/// sorted; an identifier already present is dropped.
pub fn insert_sorted(out: &mut Vec<Cid>, c: Cid)
    requires
        strictly_sorted(old(out)@),
    ensures
        strictly_sorted(final(out)@),
        cid_set(final(out)@) == cid_set(old(out)@).insert(c@),
{
    let (i, found) = find_position(out, &c);
    if found {
        proof {
            assert(cids_view(out@)[i as int] == c@);
            assert(cids_view(out@).contains(c@));
            assert(cid_set(out@).contains(c@));
            assert(cid_set(out@).insert(c@) =~= cid_set(out@));
        }
        return ;
    }
    proof {
        assert forall|j: int| i <= j < out@.len() implies bytes_lt(c@, out@[j]@) by {
            assert(bytes_lt(c@, out@[i as int]@));
            if j > i {
                lemma_bytes_lt_transitive(c@, out@[i as int]@, out@[j]@);
            }
        }
    }
    let ghost prior = out@;
    out.insert(i, c);
    proof {
        assert(strictly_sorted(out@)) by {
            assert forall|p: int, q: int| 0 <= p < q < out@.len() implies bytes_lt(
                out@[p]@,
                out@[q]@,
            ) by {
                if q < i {
                    assert(out@[p] == prior[p]);
                    assert(out@[q] == prior[q]);
                } else if p > i {
                    assert(out@[p] == prior[p - 1]);
                    assert(out@[q] == prior[q - 1]);
                } else if q == i {
                    assert(out@[p] == prior[p]);
                } else if p == i {
                    assert(out@[q] == prior[q - 1]);
                } else {
                    assert(p < i && q > i);
                    assert(out@[p] == prior[p]);
                    assert(out@[q] == prior[q - 1]);
                    lemma_bytes_lt_transitive(prior[p]@, c@, prior[q - 1]@);
                }
            }
        }
        assert(cid_set(out@) =~= cid_set(prior).insert(c@)) by {
            assert forall|b: Seq<u8>| cid_set(out@).contains(b) implies cid_set(prior).insert(
                c@,
            ).contains(b) by {
                let k = choose|k: int| 0 <= k < out@.len() && cids_view(out@)[k] == b;
                if k < i {
                    assert(cids_view(prior)[k] == b);
                } else if k == i {
                    assert(b == c@);
                } else {
                    assert(cids_view(prior)[k - 1] == b);
                }
            }
            assert forall|b: Seq<u8>| cid_set(prior).insert(c@).contains(b) implies cid_set(
                out@,
            ).contains(b) by {
                if b == c@ {
                    assert(cids_view(out@)[i as int] == b);
                } else {
                    let k = choose|k: int| 0 <= k < prior.len() && cids_view(prior)[k] == b;
                    if k < i {
                        assert(cids_view(out@)[k] == b);
                    } else {
                        assert(cids_view(out@)[k + 1] == b);
                    }
                }
            }
        }
    }
}

/// Whether a vector of identifiers is strictly sorted; used to check that
/// a decoded predecessor list is in canonical order.
pub fn is_strictly_sorted(v: &Vec<Cid>) -> (r: bool)
    ensures
        r == strictly_sorted(v@),
{
    let len = v.len();
    if len <= 1 {
        return true;
    }
    let mut i: usize = 1;
    while i < len
        invariant
            1 <= i <= len,
            len == v@.len(),
            forall|p: int, q: int| 0 <= p < q < i ==> bytes_lt(v@[p]@, v@[q]@),
        decreases len - i,
    {
        match bytes_cmp(v[i - 1].bytes.as_slice(), v[i].bytes.as_slice()) {
            Cmp::Less => {
                proof {
                    assert forall|p: int| 0 <= p < i implies bytes_lt(v@[p]@, v@[i as int]@) by {
                        if p < i - 1 {
                            lemma_bytes_lt_transitive(v@[p]@, v@[i - 1]@, v@[i as int]@);
                        }
                    }
                }
                i += 1;
            },
            Cmp::Equal => {
                proof {
                    lemma_bytes_lt_irreflexive(v@[i as int]@);
                    assert(!bytes_lt(v@[i - 1]@, v@[i as int]@));
                }
                return false;
            },
            Cmp::Greater => {
                proof {
                    lemma_bytes_lt_asymmetric(v@[i as int]@, v@[i - 1]@);
                    assert(!bytes_lt(v@[i - 1]@, v@[i as int]@));
                }
                return false;
            },
        }
    }
    true
}

/// Two strictly sorted nonempty lists of one set start with the same
/// identifier: the set's minimum.
proof fn lemma_sorted_heads_equal(a: Seq<Cid>, b: Seq<Cid>)
    requires
        strictly_sorted(a),
        strictly_sorted(b),
        a.len() > 0,
        b.len() > 0,
        cid_set(a) == cid_set(b),
    ensures
        a[0]@ == b[0]@,
{
    let va = cids_view(a);
    let vb = cids_view(b);
    assert(va[0] == a[0]@);
    assert(va.contains(a[0]@));
    assert(cid_set(a).contains(a[0]@));
    assert(cid_set(b).contains(a[0]@));
    assert(vb.contains(a[0]@));
    let j = choose|j: int| 0 <= j < vb.len() && vb[j] == a[0]@;
    assert(vb[j] == b[j]@);
    if j > 0 {
        assert(bytes_lt(b[0]@, b[j]@));
        assert(vb[0] == b[0]@);
        assert(vb.contains(b[0]@));
        assert(cid_set(b).contains(b[0]@));
        assert(cid_set(a).contains(b[0]@));
        assert(va.contains(b[0]@));
        let k = choose|k: int| 0 <= k < va.len() && va[k] == b[0]@;
        assert(va[k] == a[k]@);
        if k > 0 {
            assert(bytes_lt(a[0]@, a[k]@));
            lemma_bytes_lt_transitive(a[0]@, b[0]@, a[0]@);
            lemma_bytes_lt_irreflexive(a[0]@);
        } else {
            lemma_bytes_lt_irreflexive(b[0]@);
        }
    }
}

/// Dropping the shared head of two strictly sorted lists of one set keeps
/// the sets equal in one direction.
proof fn lemma_tail_set_subset(a: Seq<Cid>, b: Seq<Cid>)
    requires
        strictly_sorted(a),
        strictly_sorted(b),
        a.len() > 0,
        b.len() > 0,
        a[0]@ == b[0]@,
        cid_set(a) == cid_set(b),
    ensures
        cid_set(a.drop_first()).subset_of(cid_set(b.drop_first())),
{
    let ta = a.drop_first();
    let tb = b.drop_first();
    assert forall|x: Seq<u8>| cid_set(ta).contains(x) implies cid_set(tb).contains(x) by {
        let k = choose|k: int| 0 <= k < cids_view(ta).len() && cids_view(ta)[k] == x;
        assert(cids_view(ta)[k] == ta[k]@);
        assert(ta[k] == a[k + 1]);
        assert(bytes_lt(a[0]@, a[k + 1]@));
        assert(cids_view(a)[k + 1] == x);
        assert(cids_view(a).contains(x));
        assert(cid_set(a).contains(x));
        assert(cid_set(b).contains(x));
        let m = choose|m: int| 0 <= m < cids_view(b).len() && cids_view(b)[m] == x;
        assert(cids_view(b)[m] == b[m]@);
        if m == 0 {
            lemma_bytes_lt_irreflexive(a[0]@);
            assert(false);
        }
        assert(tb[m - 1] == b[m]);
        assert(cids_view(tb)[m - 1] == x);
        assert(cids_view(tb).contains(x));
        assert(cid_set(tb).contains(x));
    }
}

/// The order-normalized form is canonical: two strictly sorted lists that
/// hold the same set of identifiers list them identically. Together with
/// the contract of [`normalize_cids`], the predecessor list built from a
/// list of identifiers does not depend on that list's order or duplicates.
pub proof fn lemma_sorted_set_canonical(a: Seq<Cid>, b: Seq<Cid>)
    requires
        strictly_sorted(a),
        strictly_sorted(b),
        cid_set(a) == cid_set(b),
    ensures
        cids_view(a) == cids_view(b),
    decreases a.len(),
{
    let va = cids_view(a);
    let vb = cids_view(b);
    if a.len() == 0 {
        if b.len() > 0 {
            assert(vb[0] == b[0]@);
            assert(vb.contains(b[0]@));
            assert(cid_set(b).contains(b[0]@));
            assert(cid_set(a).contains(b[0]@));
            assert(va.contains(b[0]@));
            let k = choose|k: int| 0 <= k < va.len() && va[k] == b[0]@;
            assert(false);
        }
        assert(va =~= vb);
    } else if b.len() == 0 {
        assert(va[0] == a[0]@);
        assert(va.contains(a[0]@));
        assert(cid_set(a).contains(a[0]@));
        assert(cid_set(b).contains(a[0]@));
        assert(vb.contains(a[0]@));
        let k = choose|k: int| 0 <= k < vb.len() && vb[k] == a[0]@;
        assert(false);
    } else {
        lemma_sorted_heads_equal(a, b);
        let ta = a.drop_first();
        let tb = b.drop_first();
        assert(strictly_sorted(ta)) by {
            assert forall|p: int, q: int| 0 <= p < q < ta.len() implies bytes_lt(
                ta[p]@,
                ta[q]@,
            ) by {
                assert(ta[p] == a[p + 1]);
                assert(ta[q] == a[q + 1]);
            }
        }
        assert(strictly_sorted(tb)) by {
            assert forall|p: int, q: int| 0 <= p < q < tb.len() implies bytes_lt(
                tb[p]@,
                tb[q]@,
            ) by {
                assert(tb[p] == b[p + 1]);
                assert(tb[q] == b[q + 1]);
            }
        }
        lemma_tail_set_subset(a, b);
        lemma_tail_set_subset(b, a);
        assert(cid_set(ta) =~= cid_set(tb));
        lemma_sorted_set_canonical(ta, tb);
        assert(cids_view(ta).len() == ta.len());
        assert(cids_view(tb).len() == tb.len());
        assert(va.len() == a.len());
        assert(vb.len() == b.len());
        assert(va.len() == vb.len());
        assert forall|k: int| 0 <= k < va.len() implies va[k] == vb[k] by {
            if k > 0 {
                assert(cids_view(ta)[k - 1] == ta[k - 1]@);
                assert(ta[k - 1] == a[k]);
                assert(cids_view(tb)[k - 1] == tb[k - 1]@);
                assert(tb[k - 1] == b[k]);
            } else {
                assert(va[0] == a[0]@);
                assert(vb[0] == b[0]@);
            }
        }
        assert(va =~= vb);
    }
}

/// Builds the deduplicated, order-normalized set of identifiers from an
/// arbitrary list: the result is strictly sorted and holds exactly the
/// identifiers of the input.
pub fn normalize_cids(cids: Vec<Cid>) -> (r: Vec<Cid>)
    ensures
        strictly_sorted(r@),
        cid_set(r@) == cid_set(cids@),
{
    let mut out: Vec<Cid> = Vec::new();
    let mut i: usize = 0;
    let len = cids.len();
    proof {
        assert(cid_set(out@) =~= cid_set(cids@.take(0)));
    }
    while i < len
        invariant
            i <= len,
            len == cids@.len(),
            strictly_sorted(out@),
            cid_set(out@) == cid_set(cids@.take(i as int)),
        decreases len - i,
    {
        let c = cids[i].clone();
        insert_sorted(&mut out, c);
        proof {
            assert(cids_view(cids@.take(i + 1)) =~= cids_view(cids@.take(i as int)).push(
                cids@[i as int]@,
            ));
            assert(cid_set(cids@.take(i + 1)) =~= cid_set(cids@.take(i as int)).insert(
                cids@[i as int]@,
            )) by {
                let s = cids_view(cids@.take(i as int));
                let t = cids_view(cids@.take(i + 1));
                assert(t =~= s.push(cids@[i as int]@));
                assert(t.to_set() =~= s.to_set().insert(cids@[i as int]@)) by {
                    assert forall|b: Seq<u8>| t.to_set().contains(b) implies s.to_set().insert(
                        cids@[i as int]@,
                    ).contains(b) by {
                        let k = choose|k: int| 0 <= k < t.len() && t[k] == b;
                        if k < s.len() {
                            assert(s[k] == b);
                        }
                    }
                    assert forall|b: Seq<u8>|
                        s.to_set().insert(cids@[i as int]@).contains(b) implies t.to_set().contains(
                        b,
                    ) by {
                        if b == cids@[i as int]@ {
                            assert(t[s.len() as int] == b);
                        } else {
                            let k = choose|k: int| 0 <= k < s.len() && s[k] == b;
                            assert(t[k] == b);
                        }
                    }
                }
            }
        }
        i += 1;
    }
    proof {
        assert(cids@.take(len as int) =~= cids@);
    }
    out
}

} // verus!
