//! The mathematical model of a block store and the reachability relation
//! that decides which blocks the roots keep alive.
use vstd::prelude::*;
use vstd::set_lib::lemma_len_subset;

verus! {

/// A stored block: its CID, its bytes, the CIDs it references, and whether
/// it came from a peer.
pub struct BlockView {
    pub cid: Seq<u8>,
    pub data: Seq<u8>,
    pub refs: Seq<Seq<u8>>,
    pub public: bool,
}

/// Whether some block of `bs` has CID `c`.
pub open spec fn stored(bs: Seq<BlockView>, c: Seq<u8>) -> bool {
    exists|i: int| 0 <= i < bs.len() && (#[trigger] bs[i]).cid == c
}

/// No two blocks of `bs` share a CID.
pub open spec fn unique_cids(bs: Seq<BlockView>) -> bool {
    forall|i: int, j: int|
        0 <= i < bs.len() && 0 <= j < bs.len() && i != j ==> (#[trigger] bs[i]).cid != (#[trigger] bs[j]).cid
}

/// `b` is a reference of the stored block `a`.
pub open spec fn links(bs: Seq<BlockView>, a: Seq<u8>, b: Seq<u8>) -> bool {
    exists|i: int| 0 <= i < bs.len() && (#[trigger] bs[i]).cid == a && bs[i].refs.contains(b)
}

/// `s` holds every reference of every stored block that it holds.
pub open spec fn closed(bs: Seq<BlockView>, s: Set<Seq<u8>>) -> bool {
    forall|a: Seq<u8>, b: Seq<u8>| s.contains(a) && #[trigger] links(bs, a, b) ==> s.contains(b)
}

/// `c` can be reached from one of `roots` through stored blocks: it lies in
/// every closed set that holds the roots.
pub open spec fn reachable(bs: Seq<BlockView>, roots: Set<Seq<u8>>, c: Seq<u8>) -> bool {
    forall|s: Set<Seq<u8>>| #[trigger] closed(bs, s) && roots.subset_of(s) ==> s.contains(c)
}

/// Every item of `s` is reachable from `roots`.
pub open spec fn all_reachable(bs: Seq<BlockView>, roots: Set<Seq<u8>>, s: Seq<Seq<u8>>) -> bool {
    forall|x: Seq<u8>| s.contains(x) ==> #[trigger] reachable(bs, roots, x)
}

/// Every item of `s` occurs in `c`.
pub open spec fn within(s: Seq<Seq<u8>>, c: Seq<Seq<u8>>) -> bool {
    forall|x: Seq<u8>| s.contains(x) ==> #[trigger] c.contains(x)
}

/// Every reference of every block, block after block.
pub open spec fn all_refs(bs: Seq<BlockView>) -> Seq<Seq<u8>>
    decreases bs.len(),
{
    if bs.len() == 0 {
        seq![]
    } else {
        all_refs(bs.drop_last()) + bs.last().refs
    }
}

pub proof fn lemma_links_in_all_refs(bs: Seq<BlockView>, a: Seq<u8>, b: Seq<u8>)
    requires
        links(bs, a, b),
    ensures
        all_refs(bs).contains(b),
    decreases bs.len(),
{
    let i = choose|i: int| 0 <= i < bs.len() && (#[trigger] bs[i]).cid == a && bs[i].refs.contains(b);
    let k = choose|k: int| 0 <= k < bs[i].refs.len() && bs[i].refs[k] == b;
    if i == bs.len() - 1 {
        let pre = all_refs(bs.drop_last());
        assert((pre + bs.last().refs)[pre.len() + k] == b);
    } else {
        let d = bs.drop_last();
        assert(d[i] == bs[i]);
        lemma_links_in_all_refs(d, a, b);
        let j = choose|j: int| 0 <= j < all_refs(d).len() && all_refs(d)[j] == b;
        assert((all_refs(d) + bs.last().refs)[j] == b);
    }
}

pub proof fn lemma_push_contains(s: Seq<Seq<u8>>, x: Seq<u8>)
    ensures
        forall|y: Seq<u8>| #[trigger] s.push(x).contains(y) <==> s.contains(y) || y == x,
{
    assert forall|y: Seq<u8>| #[trigger] s.push(x).contains(y) <==> s.contains(y) || y == x by {
        if s.contains(y) {
            let k = choose|k: int| 0 <= k < s.len() && s[k] == y;
            assert(s.push(x)[k] == y);
        }
        if y == x {
            assert(s.push(x)[s.len() as int] == y);
        }
        if s.push(x).contains(y) {
            let k = choose|k: int| 0 <= k < s.push(x).len() && s.push(x)[k] == y;
            if k < s.len() {
                assert(s[k] == y);
            }
        }
    }
}

/// A sequence without duplicates whose items all occur in `c` is no longer than `c`.
pub proof fn lemma_distinct_within(s: Seq<Seq<u8>>, c: Seq<Seq<u8>>)
    requires
        s.no_duplicates(),
        forall|x: Seq<u8>| s.contains(x) ==> c.contains(x),
    ensures
        s.len() <= c.len(),
{
    s.unique_seq_to_set();
    c.lemma_cardinality_of_set();
    assert(s.to_set().subset_of(c.to_set()));
    lemma_len_subset(s.to_set(), c.to_set());
}

} // verus!
