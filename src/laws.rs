//! Properties of the store that relate several operations, proved over the
//! model.
use vstd::prelude::*;
use vstd::math::{max, min};
use crate::cbor::{cbor_wf, DAG_CBOR};
use crate::codec::{codec_of, hash_ok, references_of};
use crate::model::{closed, links, reachable, stored, unique_cids, BlockView};
use crate::store::{lemma_kept_unique, lemma_reach_root, lemma_reach_step, StoreView};
use crate::sync::dag_complete;

verus! {

/// Inserting a block twice leaves the store as inserting it once, and the
/// second insert succeeds whenever the first did.
pub proof fn insert_idempotent(v: StoreView, cid: Seq<u8>, data: Seq<u8>, public: bool)
    requires
        v.wf(),
    ensures
        v.insert_spec(cid, data, public).0.insert_spec(cid, data, public).0 == v.insert_spec(cid, data, public).0,
        v.insert_spec(cid, data, public).1 is Ok ==> v.insert_spec(cid, data, public).0.insert_spec(cid, data, public).1 is Ok,
{
    let w = v.insert_spec(cid, data, public).0;
    if !v.has(cid) && hash_ok(cid, data) && !(codec_of(cid) == Some(DAG_CBOR) && !cbor_wf(data))
        && references_of(cid, data) is Some {
        assert(w.blocks[v.blocks.len() as int].cid == cid);
    }
}

/// After a successful insert of a well-formed block whose CID is not stored
/// with other bytes, the block is stored with exactly its bytes.
pub proof fn insert_round_trip(v: StoreView, cid: Seq<u8>, data: Seq<u8>, public: bool)
    requires
        v.wf(),
        hash_ok(cid, data),
        codec_of(cid) == Some(DAG_CBOR) ==> cbor_wf(data),
        references_of(cid, data) is Some,
        forall|i: int| 0 <= i < v.blocks.len() && (#[trigger] v.blocks[i]).cid == cid ==> v.blocks[i].data == data,
    ensures
        v.insert_spec(cid, data, public).1 is Ok,
        v.insert_spec(cid, data, public).0.has(cid),
        forall|i: int| 0 <= i < v.insert_spec(cid, data, public).0.blocks.len()
            && (#[trigger] v.insert_spec(cid, data, public).0.blocks[i]).cid == cid
            ==> v.insert_spec(cid, data, public).0.blocks[i].data == data,
{
    let w = v.insert_spec(cid, data, public).0;
    if !v.has(cid) {
        assert(w.blocks[v.blocks.len() as int].cid == cid);
    }
}

/// Every block in a well-formed store hashes to its CID.
pub proof fn stored_blocks_hash(v: StoreView, i: int)
    requires
        v.wf(),
        0 <= i < v.blocks.len(),
    ensures
        hash_ok(v.blocks[i].cid, v.blocks[i].data),
{
}

proof fn lemma_kept_in(v: StoreView, k: int, i: int)
    requires
        0 <= i < k <= v.blocks.len(),
        v.kept(i),
    ensures
        v.kept_prefix(k).contains(v.blocks[i]),
    decreases k,
{
    let p = v.kept_prefix(k - 1);
    assert(v.kept_prefix(k) == p + if v.kept(k - 1) { seq![v.blocks[k - 1]] } else { seq![] });
    if i == k - 1 {
        assert(v.kept_prefix(k)[p.len() as int] == v.blocks[i]);
    } else {
        lemma_kept_in(v, k - 1, i);
        let x = choose|x: int| 0 <= x < p.len() && p[x] == v.blocks[i];
        assert(v.kept_prefix(k)[x] == v.blocks[i]);
    }
}

/// Eviction never removes a block that some root reaches.
pub proof fn evict_keeps_live(v: StoreView, cid: Seq<u8>)
    requires
        v.wf(),
        v.has(cid),
        v.live(cid),
    ensures
        v.evict_spec().has(cid),
{
    let i = choose|i: int| 0 <= i < v.blocks.len() && (#[trigger] v.blocks[i]).cid == cid;
    lemma_kept_in(v, v.blocks.len() as int, i);
    let w = v.evict_spec();
    let x = choose|x: int| 0 <= x < w.blocks.len() && w.blocks[x] == v.blocks[i];
    assert(w.blocks[x].cid == cid);
}

/// Eviction changes no block's reachability.
pub proof fn evict_preserves_live(v: StoreView, c: Seq<u8>)
    requires
        v.wf(),
    ensures
        v.evict_spec().live(c) == v.live(c),
{
    let w = v.evict_spec();
    let n = v.blocks.len() as int;
    lemma_kept_unique(v, n);
    assert(w.roots() == v.roots());
    let live_old = Set::new(|x: Seq<u8>| v.live(x));
    // What the new graph reaches, the old one reaches: the old live set is closed in the new graph.
    assert(closed(w.blocks, live_old)) by {
        assert forall|a: Seq<u8>, b: Seq<u8>| live_old.contains(a) && #[trigger] links(w.blocks, a, b) implies live_old.contains(b) by {
            let x = choose|x: int| 0 <= x < w.blocks.len() && (#[trigger] w.blocks[x]).cid == a && w.blocks[x].refs.contains(b);
            let j = choose|j: int| 0 <= j < n && v.blocks[j] == #[trigger] w.blocks[x];
            assert(links(v.blocks, a, b));
            lemma_reach_step(v.blocks, v.roots(), a, b);
        }
    }
    assert(v.roots().subset_of(live_old)) by {
        assert forall|r: Seq<u8>| v.roots().contains(r) implies live_old.contains(r) by {
            lemma_reach_root(v.blocks, v.roots(), r);
        }
    }
    if w.live(c) {
        assert(live_old.contains(c));
    }
    if v.live(c) {
        assert forall|s: Set<Seq<u8>>| #[trigger] closed(w.blocks, s) && w.roots().subset_of(s) implies s.contains(c) by {
            let t = s.intersect(live_old);
            assert(closed(v.blocks, t)) by {
                assert forall|a: Seq<u8>, b: Seq<u8>| t.contains(a) && #[trigger] links(v.blocks, a, b) implies t.contains(b) by {
                    let i = choose|i: int| 0 <= i < v.blocks.len() && (#[trigger] v.blocks[i]).cid == a && v.blocks[i].refs.contains(b);
                    assert(v.live(v.blocks[i].cid));
                    lemma_kept_in(v, n, i);
                    let x = choose|x: int| 0 <= x < w.blocks.len() && w.blocks[x] == v.blocks[i];
                    assert(w.blocks[x].cid == a && w.blocks[x].refs.contains(b));
                    assert(links(w.blocks, a, b));
                    lemma_reach_step(v.blocks, v.roots(), a, b);
                }
            }
            assert(v.roots().subset_of(t));
        }
    }
}

/// How many blocks of `bs` no root of `v` reaches.
pub open spec fn unreached_in(v: StoreView, bs: Seq<BlockView>) -> int
    decreases bs.len(),
{
    if bs.len() == 0 {
        0
    } else {
        unreached_in(v, bs.drop_last()) + if v.live(bs.last().cid) { 0int } else { 1int }
    }
}

/// How many stored blocks no root reaches.
pub open spec fn unreached_count(v: StoreView) -> int {
    unreached_in(v, v.blocks)
}

proof fn lemma_dead_before_prefix(v: StoreView, k: int)
    requires
        0 <= k <= v.blocks.len(),
    ensures
        v.dead_before(k) == unreached_in(v, v.blocks.subrange(0, k)),
        v.dead_before(k) >= 0,
    decreases k,
{
    if k > 0 {
        lemma_dead_before_prefix(v, k - 1);
        assert(v.blocks.subrange(0, k).drop_last() =~= v.blocks.subrange(0, k - 1));
    }
}

proof fn lemma_cand_before_range(v: StoreView, k: int)
    requires
        0 <= k <= v.blocks.len(),
    ensures
        0 <= v.cand_before(k) <= v.dead_before(k),
    decreases k,
{
    if k > 0 {
        lemma_cand_before_range(v, k - 1);
    }
}

/// The unreached blocks that eviction keeps among the first `k`: all of them
/// but the candidates it removes.
proof fn lemma_unreached_kept(v: StoreView, k: int)
    requires
        0 <= k <= v.blocks.len(),
    ensures
        unreached_in(v, v.kept_prefix(k)) == v.dead_before(k) - min(v.cand_before(k), max(v.excess(), 0)),
    decreases k,
{
    if k > 0 {
        lemma_unreached_kept(v, k - 1);
        lemma_cand_before_range(v, k - 1);
        let p = v.kept_prefix(k - 1);
        let q = v.kept_prefix(k);
        if v.kept(k - 1) {
            assert(q == p.push(v.blocks[k - 1]));
            assert(q.drop_last() =~= p);
        } else {
            assert(q =~= p);
        }
    }
}

proof fn lemma_unreached_same(v: StoreView, w: StoreView, bs: Seq<BlockView>)
    requires
        forall|c: Seq<u8>| #[trigger] w.live(c) == v.live(c),
    ensures
        unreached_in(w, bs) == unreached_in(v, bs),
    decreases bs.len(),
{
    if bs.len() > 0 {
        lemma_unreached_same(v, w, bs.drop_last());
        assert(w.live(bs.last().cid) == v.live(bs.last().cid));
    }
}

/// Eviction removes exactly `min(candidates, unreached - cache_size)`
/// unreached blocks: when enough candidates exist at most `cache_size`
/// unreached blocks remain, and when no more than that were unreached
/// before, nothing is removed.
pub proof fn evict_bounds_unreached(v: StoreView)
    requires
        v.wf(),
    ensures
        unreached_count(v.evict_spec()) == unreached_count(v)
            - min(v.cand_before(v.blocks.len() as int), max(unreached_count(v) - v.cache_size, 0)),
        v.cand_before(v.blocks.len() as int) >= unreached_count(v) - v.cache_size
            ==> unreached_count(v.evict_spec()) <= v.cache_size,
        unreached_count(v) <= v.cache_size ==> v.evict_spec() == v,
{
    let w = v.evict_spec();
    let n = v.blocks.len() as int;
    assert forall|c: Seq<u8>| #[trigger] w.live(c) == v.live(c) by {
        evict_preserves_live(v, c);
    }
    lemma_unreached_same(v, w, w.blocks);
    lemma_unreached_kept(v, n);
    lemma_dead_before_prefix(v, n);
    lemma_cand_before_range(v, n);
    assert(v.blocks.subrange(0, n) =~= v.blocks);
    if unreached_count(v) <= v.cache_size {
        lemma_all_kept(v, n);
        assert(w.blocks =~= v.blocks);
    }
}

proof fn lemma_all_kept(v: StoreView, k: int)
    requires
        0 <= k <= v.blocks.len(),
        v.excess() <= 0,
    ensures
        v.kept_prefix(k) == v.blocks.subrange(0, k),
    decreases k,
{
    if k > 0 {
        lemma_all_kept(v, k - 1);
        lemma_cand_before_range(v, k - 1);
        assert(v.kept(k - 1));
        assert(v.blocks.subrange(0, k) =~= v.blocks.subrange(0, k - 1).push(v.blocks[k - 1]));
    } else {
        assert(v.blocks.subrange(0, 0) =~= seq![]);
    }
}

proof fn lemma_referrer_positive(v: StoreView, c: Seq<u8>, k: int, i: int)
    requires
        0 <= i < k <= v.blocks.len(),
        v.blocks[i].refs.contains(c),
    ensures
        v.referrer_count(c, k) > 0,
    decreases k,
{
    if i < k - 1 {
        lemma_referrer_positive(v, c, k - 1, i);
    }
    lemma_referrer_nonneg(v, c, k - 1);
}

proof fn lemma_referrer_nonneg(v: StoreView, c: Seq<u8>, k: int)
    ensures
        v.referrer_count(c, k) >= 0,
    decreases k,
{
    if k > 0 {
        lemma_referrer_nonneg(v, c, k - 1);
    }
}

/// Eviction never removes a block that a stored block references, so no
/// block is left pointing at one that eviction took away.
pub proof fn evict_keeps_referenced(v: StoreView, p: Seq<u8>, c: Seq<u8>)
    requires
        v.wf(),
        links(v.blocks, p, c),
        v.has(c),
    ensures
        v.evict_spec().has(c),
{
    let n = v.blocks.len() as int;
    let j = choose|j: int| 0 <= j < n && (#[trigger] v.blocks[j]).cid == p && v.blocks[j].refs.contains(c);
    lemma_referrer_positive(v, c, n, j);
    let i = choose|i: int| 0 <= i < n && (#[trigger] v.blocks[i]).cid == c;
    assert(!v.candidate(i));
    lemma_kept_in(v, n, i);
    let w = v.evict_spec();
    let x = choose|x: int| 0 <= x < w.blocks.len() && w.blocks[x] == v.blocks[i];
    assert(w.blocks[x].cid == c);
}

/// Reachability from a union of root sets is reachability from one of them.
proof fn lemma_reach_family(bs: Seq<BlockView>, roots: Set<Seq<u8>>, fam: Seq<Set<Seq<u8>>>, c: Seq<u8>)
    requires
        forall|x: Seq<u8>| #[trigger] roots.contains(x) <==> exists|i: int| 0 <= i < fam.len() && (#[trigger] fam[i]).contains(x),
    ensures
        reachable(bs, roots, c) <==> exists|i: int| 0 <= i < fam.len() && reachable(bs, #[trigger] fam[i], c),
{
    if exists|i: int| 0 <= i < fam.len() && reachable(bs, #[trigger] fam[i], c) {
        let i = choose|i: int| 0 <= i < fam.len() && reachable(bs, #[trigger] fam[i], c);
        assert forall|s: Set<Seq<u8>>| #[trigger] closed(bs, s) && roots.subset_of(s) implies s.contains(c) by {
            assert(fam[i].subset_of(s)) by {
                assert forall|x: Seq<u8>| fam[i].contains(x) implies s.contains(x) by {
                    assert(roots.contains(x));
                }
            }
        }
    }
    if reachable(bs, roots, c) {
        let t = Set::new(|x: Seq<u8>| exists|i: int| 0 <= i < fam.len() && reachable(bs, #[trigger] fam[i], x));
        assert(closed(bs, t)) by {
            assert forall|a: Seq<u8>, b: Seq<u8>| t.contains(a) && #[trigger] links(bs, a, b) implies t.contains(b) by {
                let i = choose|i: int| 0 <= i < fam.len() && reachable(bs, #[trigger] fam[i], a);
                lemma_reach_step(bs, fam[i], a, b);
            }
        }
        assert(roots.subset_of(t)) by {
            assert forall|x: Seq<u8>| roots.contains(x) implies t.contains(x) by {
                let i = choose|i: int| 0 <= i < fam.len() && (#[trigger] fam[i]).contains(x);
                lemma_reach_root(bs, fam[i], x);
            }
        }
        assert(t.contains(c));
    }
}

proof fn lemma_temp_count_pos(v: StoreView, c: Seq<u8>, k: int)
    requires
        0 <= k <= v.pins.len(),
    ensures
        v.temp_pin_count(c, k) >= 0,
        v.temp_pin_count(c, k) > 0 <==> exists|i: int| 0 <= i < k && reachable(v.blocks, (#[trigger] v.pins[i]).1.to_set(), c),
    decreases k,
{
    if k > 0 {
        lemma_temp_count_pos(v, c, k - 1);
        if exists|i: int| 0 <= i < k && reachable(v.blocks, (#[trigger] v.pins[i]).1.to_set(), c) {
            let i = choose|i: int| 0 <= i < k && reachable(v.blocks, (#[trigger] v.pins[i]).1.to_set(), c);
            if i < k - 1 {
                assert(exists|i: int| 0 <= i < k - 1 && reachable(v.blocks, (#[trigger] v.pins[i]).1.to_set(), c));
            }
        }
    }
}

/// A block has a positive pin count exactly when some alias root or some
/// live temporary pin reaches it through stored blocks.
pub proof fn pinned_iff_reached(v: StoreView, c: Seq<u8>)
    requires
        v.wf(),
    ensures
        v.pin_count(c) > 0 <==> v.live(c),
{
    let n = v.pins.len() as int;
    let fam = seq![v.alias_roots()] + Seq::new(v.pins.len(), |i: int| v.pins[i].1.to_set());
    assert forall|x: Seq<u8>| #[trigger] v.roots().contains(x) <==> exists|i: int| 0 <= i < fam.len() && (#[trigger] fam[i]).contains(x) by {
        if v.alias_roots().contains(x) {
            assert(fam[0].contains(x));
        }
        if v.temp_roots().contains(x) {
            let i = choose|i: int| 0 <= i < v.pins.len() && (#[trigger] v.pins[i]).1.contains(x);
            assert(fam[i + 1] == v.pins[i].1.to_set());
            assert(fam[i + 1].contains(x));
        }
        if exists|i: int| 0 <= i < fam.len() && (#[trigger] fam[i]).contains(x) {
            let i = choose|i: int| 0 <= i < fam.len() && (#[trigger] fam[i]).contains(x);
            if i > 0 {
                assert(fam[i] == v.pins[i - 1].1.to_set());
                assert(v.pins[i - 1].1.contains(x));
                assert(v.temp_roots().contains(x));
            }
        }
    }
    lemma_reach_family(v.blocks, v.roots(), fam, c);
    lemma_temp_count_pos(v, c, n);
    if exists|i: int| 0 <= i < fam.len() && reachable(v.blocks, #[trigger] fam[i], c) {
        let i = choose|i: int| 0 <= i < fam.len() && reachable(v.blocks, #[trigger] fam[i], c);
        if i > 0 {
            assert(fam[i] == v.pins[i - 1].1.to_set());
            assert(reachable(v.blocks, v.pins[i - 1].1.to_set(), c));
        }
    }
    if exists|i: int| 0 <= i < n && reachable(v.blocks, (#[trigger] v.pins[i]).1.to_set(), c) {
        let i = choose|i: int| 0 <= i < n && reachable(v.blocks, (#[trigger] v.pins[i]).1.to_set(), c);
        assert(fam[i + 1] == v.pins[i].1.to_set());
    }
    if reachable(v.blocks, v.alias_roots(), c) {
        assert(fam[0] == v.alias_roots());
    }
}

/// Once a sync reports its DAG complete, the missing blocks of its root are
/// none: any list that holds exactly the reachable, unstored CIDs is empty.
pub proof fn complete_sync_leaves_nothing_missing(v: StoreView, root: Seq<u8>, missing: Seq<Seq<u8>>)
    requires
        dag_complete(v, root),
        forall|c: Seq<u8>| #[trigger] missing.contains(c) <==> reachable(v.blocks, set![root], c) && !v.has(c),
    ensures
        missing.len() == 0,
{
    if missing.len() > 0 {
        assert(missing.contains(missing[0]));
    }
}

} // verus!
