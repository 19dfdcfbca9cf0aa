//! The block store: blocks with their references, aliases and temporary
//! pins as roots, and the reachability computed over them.
use vstd::prelude::*;
use crate::bytes::{bytes_eq, contains_bytes, copy_bytes, views};
use crate::cbor::{cbor_well_formed, cbor_wf, DAG_CBOR};
use crate::codec::{cid_codec, codec_of, extract_references, hash_ok, references_of, verify_hash};
use crate::model::{all_refs, all_reachable, within, lemma_push_contains, closed, lemma_distinct_within, lemma_links_in_all_refs, links, reachable, stored, unique_cids, BlockView};

verus! {

/// Why a store operation failed.
#[derive(Debug, Clone, Copy, PartialEq, Eq, Structural)]
pub enum StoreError {
    /// The block is not in the store.
    NotFound,
    /// The bytes do not hash to the CID.
    HashMismatch,
    /// The codec of the CID cannot read the bytes.
    CodecError,
    /// The caller aborted a batch.
    Aborted,
    /// The exchange with peers failed.
    Network,
}

/// A block as it is kept: CID, bytes and references, all in binary form,
/// and whether it was received from a peer.
pub struct StoredBlock {
    pub cid: Vec<u8>,
    pub data: Vec<u8>,
    pub refs: Vec<Vec<u8>>,
    pub public: bool,
}

impl View for StoredBlock {
    type V = BlockView;

    open spec fn view(&self) -> BlockView {
        BlockView { cid: self.cid@, data: self.data@, refs: views(self.refs@), public: self.public }
    }
}

/// A persistent named root.
pub struct AliasEntry {
    pub name: Vec<u8>,
    pub root: Vec<u8>,
}

/// How a store is set up: how many blocks that no root reaches it keeps,
/// and how often the caller should run an eviction sweep.
pub struct Config {
    pub cache_size: u64,
    pub sweep_interval_ms: u64,
}

impl Config {
    pub fn new(cache_size: u64, sweep_interval_ms: u64) -> (r: Config)
        ensures
            r.cache_size == cache_size,
            r.sweep_interval_ms == sweep_interval_ms,
    {
        Config { cache_size, sweep_interval_ms }
    }
}

impl Default for Config {
    /// No cache for unreached blocks, a sweep every ten seconds.
    fn default() -> (r: Config)
        ensures
            r.cache_size == 0,
            r.sweep_interval_ms == 10000,
    {
        Config { cache_size: 0, sweep_interval_ms: 10000 }
    }
}

/// What a listing shows of a block.
pub struct Metadata {
    pub pins: u64,
    pub referrers: u64,
    pub public: bool,
}

/// Which blocks a listing shows, by their pin and referrer counts.
pub struct ListFilter {
    pub pinned: bool,
    pub live: bool,
    pub dead: bool,
    pub all: bool,
}

impl ListFilter {
    /// Whether a block with these counts is listed: every block when `all`
    /// is set or no category is; otherwise the pinned ones (a pin), the live
    /// ones (a pin or a referrer) and the dead ones (neither), as asked.
    pub fn selects(&self, pins: u64, referrers: u64) -> (r: bool)
        ensures
            r == (self.all || (!self.pinned && !self.live && !self.dead)
                || (self.pinned && pins > 0)
                || (self.live && (pins > 0 || referrers > 0))
                || (self.dead && pins == 0 && referrers == 0)),
    {
        let is_pinned = pins > 0;
        let is_live = referrers > 0 || pins > 0;
        let all = self.all || (!self.pinned && !self.live && !self.dead);
        all || self.pinned && is_pinned || self.live && is_live || self.dead && !is_live
    }
}

/// The handle of a temporary pin; the store keeps its roots until it is released.
pub struct TempPin {
    pub id: u64,
}

struct PinSet {
    id: u64,
    roots: Vec<Vec<u8>>,
}

/// The model of a whole store.
pub struct StoreView {
    pub blocks: Seq<BlockView>,
    pub aliases: Seq<(Seq<u8>, Seq<u8>)>,
    pub pins: Seq<(u64, Seq<Seq<u8>>)>,
    pub next_pin: u64,
    pub cache_size: u64,
}

impl StoreView {
    pub open spec fn wf(self) -> bool {
        &&& unique_cids(self.blocks)
        &&& forall|i: int| 0 <= i < self.blocks.len() ==> hash_ok((#[trigger] self.blocks[i]).cid, self.blocks[i].data)
        &&& forall|i: int, j: int|
            0 <= i < self.aliases.len() && 0 <= j < self.aliases.len() && i != j
                ==> (#[trigger] self.aliases[i]).0 != (#[trigger] self.aliases[j]).0
        &&& self.pins.len() <= self.next_pin < u64::MAX
        &&& forall|i: int| 0 <= i < self.pins.len() ==> (#[trigger] self.pins[i]).0 < self.next_pin
        &&& forall|i: int, j: int|
            0 <= i < self.pins.len() && 0 <= j < self.pins.len() && i != j
                ==> (#[trigger] self.pins[i]).0 != (#[trigger] self.pins[j]).0
    }

    pub open spec fn has(self, c: Seq<u8>) -> bool {
        stored(self.blocks, c)
    }

    /// The bytes of the block with CID `c`, when one is stored.
    pub open spec fn data_of(self, c: Seq<u8>) -> Option<Seq<u8>> {
        if self.has(c) {
            Some(self.blocks[choose|i: int| 0 <= i < self.blocks.len() && (#[trigger] self.blocks[i]).cid == c].data)
        } else {
            None
        }
    }

    /// The roots of the aliases.
    pub open spec fn alias_roots(self) -> Set<Seq<u8>> {
        Set::new(|c: Seq<u8>| exists|i: int| 0 <= i < self.aliases.len() && (#[trigger] self.aliases[i]).1 == c)
    }

    /// The roots held by temporary pins.
    pub open spec fn temp_roots(self) -> Set<Seq<u8>> {
        Set::new(|c: Seq<u8>| exists|i: int| 0 <= i < self.pins.len() && (#[trigger] self.pins[i]).1.contains(c))
    }

    pub open spec fn roots(self) -> Set<Seq<u8>> {
        self.alias_roots().union(self.temp_roots())
    }

    /// A block that some root reaches.
    pub open spec fn live(self, c: Seq<u8>) -> bool {
        reachable(self.blocks, self.roots(), c)
    }

    /// How many of the first `k` blocks no root reaches.
    pub open spec fn dead_before(self, k: int) -> int
        decreases k,
    {
        if k <= 0 {
            0
        } else {
            self.dead_before(k - 1) + if self.live(self.blocks[k - 1].cid) { 0int } else { 1int }
        }
    }

    /// How many unreached blocks exceed the cache size.
    pub open spec fn excess(self) -> int {
        self.dead_before(self.blocks.len() as int) - self.cache_size
    }

    /// An eviction candidate: a block that no root reaches and that no
    /// stored block references.
    pub open spec fn candidate(self, i: int) -> bool {
        !self.live(self.blocks[i].cid) && self.referrer_count(self.blocks[i].cid, self.blocks.len() as int) == 0
    }

    /// How many of the first `k` blocks are eviction candidates.
    pub open spec fn cand_before(self, k: int) -> int
        decreases k,
    {
        if k <= 0 {
            0
        } else {
            self.cand_before(k - 1) + if self.candidate(k - 1) { 1int } else { 0int }
        }
    }

    /// Whether eviction keeps the block at position `i`: candidates go oldest
    /// first, as long as more than `cache_size` unreached blocks are left;
    /// every other block stays.
    pub open spec fn kept(self, i: int) -> bool {
        !self.candidate(i) || self.cand_before(i) >= self.excess()
    }

    /// The kept blocks among the first `k`, in their order.
    pub open spec fn kept_prefix(self, k: int) -> Seq<BlockView>
        decreases k,
    {
        if k <= 0 {
            seq![]
        } else {
            self.kept_prefix(k - 1) + if self.kept(k - 1) { seq![self.blocks[k - 1]] } else { seq![] }
        }
    }

    /// The store after an eviction sweep.
    pub open spec fn evict_spec(self) -> StoreView {
        StoreView { blocks: self.kept_prefix(self.blocks.len() as int), ..self }
    }

    /// How many of the first `k` temporary pins reach `c`.
    pub open spec fn temp_pin_count(self, c: Seq<u8>, k: int) -> int
        decreases k,
    {
        if k <= 0 {
            0
        } else {
            self.temp_pin_count(c, k - 1) + if reachable(self.blocks, self.pins[k - 1].1.to_set(), c) { 1int } else { 0int }
        }
    }

    /// The pin count of `c`: the temporary pins that reach it, plus one when
    /// an alias reaches it.
    pub open spec fn pin_count(self, c: Seq<u8>) -> int {
        self.temp_pin_count(c, self.pins.len() as int) + if reachable(self.blocks, self.alias_roots(), c) { 1int } else { 0int }
    }

    /// How many of the first `k` blocks reference `c`.
    pub open spec fn referrer_count(self, c: Seq<u8>, k: int) -> int
        decreases k,
    {
        if k <= 0 {
            0
        } else {
            self.referrer_count(c, k - 1) + if self.blocks[k - 1].refs.contains(c) { 1int } else { 0int }
        }
    }

    /// What an insert makes of the store, and what it returns; `public`
    /// marks a block received from a peer.
    pub open spec fn insert_spec(self, cid: Seq<u8>, data: Seq<u8>, public: bool) -> (StoreView, Result<(), StoreError>) {
        if self.has(cid) {
            (self, Ok(()))
        } else if !hash_ok(cid, data) {
            (self, Err(StoreError::HashMismatch))
        } else if codec_of(cid) == Some(DAG_CBOR) && !cbor_wf(data) {
            (self, Err(StoreError::CodecError))
        } else {
            match references_of(cid, data) {
                None => (self, Err(StoreError::CodecError)),
                Some(rs) => (
                    StoreView {
                        blocks: self.blocks.push(BlockView { cid, data, refs: rs, public }),
                        ..self
                    },
                    Ok(()),
                ),
            }
        }
    }
}

/// A block store held in memory.
pub struct BlockStore {
    blocks: Vec<StoredBlock>,
    aliases: Vec<AliasEntry>,
    pins: Vec<PinSet>,
    next_pin: u64,
    cache_size: u64,
}

impl View for BlockStore {
    type V = StoreView;

    closed spec fn view(&self) -> StoreView {
        StoreView {
            blocks: self.blocks@.map_values(|b: StoredBlock| b@),
            aliases: self.aliases@.map_values(|a: AliasEntry| (a.name@, a.root@)),
            pins: self.pins@.map_values(|p: PinSet| (p.id, views(p.roots@))),
            next_pin: self.next_pin,
            cache_size: self.cache_size,
        }
    }
}

/// A copy of a list of byte strings.
fn copy_list(s: &Vec<Vec<u8>>) -> (r: Vec<Vec<u8>>)
    ensures
        views(r@) == views(s@),
{
    let mut r: Vec<Vec<u8>> = Vec::new();
    let mut i: usize = 0;
    while i < s.len()
        invariant
            0 <= i <= s@.len(),
            views(r@) == views(s@).subrange(0, i as int),
        decreases s@.len() - i,
    {
        let ghost before = views(r@);
        r.push(copy_bytes(&s[i]));
        assert(views(r@) =~= before.push(s@[i as int]@));
        i = i + 1;
        assert(views(r@) =~= views(s@).subrange(0, i as int));
    }
    assert(views(r@) =~= views(s@));
    r
}

fn copy_block(b: &StoredBlock) -> (r: StoredBlock)
    ensures
        r@ == b@,
{
    StoredBlock { cid: copy_bytes(&b.cid), data: copy_bytes(&b.data), refs: copy_list(&b.refs), public: b.public }
}

/// Every kept block comes from an earlier position, so CIDs stay unique.
pub proof fn lemma_kept_unique(v: StoreView, k: int)
    requires
        unique_cids(v.blocks),
        0 <= k <= v.blocks.len(),
    ensures
        unique_cids(v.kept_prefix(k)),
        forall|x: int| 0 <= x < v.kept_prefix(k).len() ==> exists|j: int| 0 <= j < k && v.blocks[j] == #[trigger] v.kept_prefix(k)[x],
    decreases k,
{
    if k > 0 {
        lemma_kept_unique(v, k - 1);
        let p = v.kept_prefix(k - 1);
        let q = v.kept_prefix(k);
        assert(q == p + if v.kept(k - 1) { seq![v.blocks[k - 1]] } else { seq![] });
        assert forall|x: int| 0 <= x < q.len() implies exists|j: int| 0 <= j < k && v.blocks[j] == #[trigger] q[x] by {
            if x < p.len() {
                assert(q[x] == p[x]);
                let j = choose|j: int| 0 <= j < k - 1 && v.blocks[j] == #[trigger] p[x];
            } else {
                assert(q[x] == v.blocks[k - 1]);
            }
        }
        assert forall|x: int, y: int| 0 <= x < q.len() && 0 <= y < q.len() && x != y implies (#[trigger] q[x]).cid != (#[trigger] q[y]).cid by {
            if x < p.len() && y < p.len() {
                assert(q[x] == p[x] && q[y] == p[y]);
            } else if x < p.len() {
                assert(q[x] == p[x]);
                let j = choose|j: int| 0 <= j < k - 1 && v.blocks[j] == #[trigger] p[x];
                assert(v.blocks[j].cid != v.blocks[k - 1].cid);
            } else if y < p.len() {
                assert(q[y] == p[y]);
                let j = choose|j: int| 0 <= j < k - 1 && v.blocks[j] == #[trigger] p[y];
                assert(v.blocks[j].cid != v.blocks[k - 1].cid);
            }
        }
    }
}

pub proof fn lemma_reach_root(bs: Seq<BlockView>, roots: Set<Seq<u8>>, r: Seq<u8>)
    requires
        roots.contains(r),
    ensures
        reachable(bs, roots, r),
{
}

pub proof fn lemma_reach_step(bs: Seq<BlockView>, roots: Set<Seq<u8>>, a: Seq<u8>, b: Seq<u8>)
    requires
        reachable(bs, roots, a),
        links(bs, a, b),
    ensures
        reachable(bs, roots, b),
{
    assert forall|s: Set<Seq<u8>>| #[trigger] closed(bs, s) && roots.subset_of(s) implies s.contains(b) by {
        assert(s.contains(a));
    }
}

impl BlockStore {
    pub open spec fn wf(&self) -> bool {
        self@.wf()
    }

    /// An empty store that keeps at most `config.cache_size` blocks that no
    /// root reaches.
    pub fn new(config: &Config) -> (r: BlockStore)
        ensures
            r.wf(),
            r@.blocks.len() == 0,
            r@.aliases.len() == 0,
            r@.pins.len() == 0,
            r@.next_pin == 0,
            r@.cache_size == config.cache_size,
    {
        BlockStore { blocks: Vec::new(), aliases: Vec::new(), pins: Vec::new(), next_pin: 0, cache_size: config.cache_size }
    }

    /// The position of the block with CID `cid`.
    fn find(&self, cid: &Vec<u8>) -> (r: Option<usize>)
        ensures
            match r {
                Some(i) => i < self@.blocks.len() && self@.blocks[i as int].cid == cid@,
                None => !self@.has(cid@),
            },
    {
        let mut i: usize = 0;
        while i < self.blocks.len()
            invariant
                0 <= i <= self.blocks@.len(),
                forall|k: int| 0 <= k < i ==> (#[trigger] self.blocks@[k]).cid@ != cid@,
            decreases self.blocks@.len() - i,
        {
            if bytes_eq(&self.blocks[i].cid, cid) {
                return Some(i);
            }
            i = i + 1;
        }
        assert forall|k: int| 0 <= k < self@.blocks.len() implies (#[trigger] self@.blocks[k]).cid != cid@ by {
            assert(self.blocks@[k].cid@ != cid@);
        }
        None
    }

    /// Whether the block is in the store.
    pub fn contains(&self, cid: &Vec<u8>) -> (r: bool)
        ensures
            r == self@.has(cid@),
    {
        self.find(cid).is_some()
    }

    /// The bytes of a stored block.
    pub fn get(&self, cid: &Vec<u8>) -> (r: Option<Vec<u8>>)
        ensures
            match r {
                Some(d) => exists|i: int|
                    0 <= i < self@.blocks.len() && (#[trigger] self@.blocks[i]).cid == cid@ && self@.blocks[i].data == d@,
                None => !self@.has(cid@),
            },
            self.wf() ==> match r {
                Some(d) => self@.data_of(cid@) == Some(d@),
                None => self@.data_of(cid@) is None,
            },
    {
        match self.find(cid) {
            Some(i) => {
                let d = copy_bytes(&self.blocks[i].data);
                proof {
                    if self.wf() {
                        let k = choose|k: int| 0 <= k < self@.blocks.len() && (#[trigger] self@.blocks[k]).cid == cid@;
                        assert(k == i);
                    }
                }
                Some(d)
            },
            None => None,
        }
    }

    /// Every block that one of `roots` reaches, each once.
    fn closure(&self, roots: &Vec<Vec<u8>>) -> (r: Vec<Vec<u8>>)
        requires
            self.wf(),
        ensures
            views(r@).no_duplicates(),
            forall|c: Seq<u8>| views(r@).contains(c) <==> reachable(self@.blocks, views(roots@).to_set(), c),
    {
        let ghost bs = self@.blocks;
        let ghost rs = views(roots@).to_set();
        let ghost cands = views(roots@) + all_refs(bs);
        let mut seen: Vec<Vec<u8>> = Vec::new();
        let mut n: usize = 0;
        while n < roots.len()
            invariant
                0 <= n <= roots@.len(),
                bs == self@.blocks,
                rs == views(roots@).to_set(),
                cands == views(roots@) + all_refs(bs),
                views(seen@).no_duplicates(),
                forall|k: int| 0 <= k < n ==> views(seen@).contains(#[trigger] views(roots@)[k]),
                forall|x: Seq<u8>| views(seen@).contains(x) ==> rs.contains(x) && cands.contains(x),
            decreases roots@.len() - n,
        {
            if !contains_bytes(&seen, &roots[n]) {
                let ghost old_seen = views(seen@);
                seen.push(copy_bytes(&roots[n]));
                assert(views(seen@) =~= old_seen.push(roots@[n as int]@));
                assert(views(roots@)[n as int] == roots@[n as int]@);
                proof { lemma_push_contains(old_seen, roots@[n as int]@); }
                assert(cands[n as int] == roots@[n as int]@);
                assert(rs.contains(views(roots@)[n as int]));
            }
            n = n + 1;
        }
        proof {
            lemma_distinct_within(views(seen@), cands);
            assert forall|x: Seq<u8>| rs.contains(x) implies views(seen@).to_set().contains(x) by {
                let k = choose|k: int| 0 <= k < views(roots@).len() && views(roots@)[k] == x;
                assert(views(seen@).contains(views(roots@)[k]));
            }
            assert forall|x: Seq<u8>| views(seen@).contains(x) implies #[trigger] reachable(bs, rs, x) by {
                lemma_reach_root(bs, rs, x);
            }
        }
        let mut i: usize = 0;
        while i < seen.len()
            invariant
                self.wf(),
                bs == self@.blocks,
                rs == views(roots@).to_set(),
                cands == views(roots@) + all_refs(bs),
                0 <= i <= seen@.len(),
                seen@.len() <= cands.len(),
                views(seen@).no_duplicates(),
                rs.subset_of(views(seen@).to_set()),
                all_reachable(bs, rs, views(seen@)),
                within(views(seen@), cands),
                forall|k: int, b: Seq<u8>|
                    0 <= k < i && #[trigger] links(bs, views(seen@)[k], b) ==> views(seen@).contains(b),
            decreases cands.len() - i,
        {
            let ghost a = views(seen@)[i as int];
            assert(views(seen@).contains(a));
            assert(reachable(bs, rs, a));
            match self.find(&seen[i]) {
                Some(j) => {
                    let mut m: usize = 0;
                    while m < self.blocks[j].refs.len()
                        invariant
                            self.wf(),
                            bs == self@.blocks,
                            rs == views(roots@).to_set(),
                            cands == views(roots@) + all_refs(bs),
                            0 <= i < seen@.len(),
                            j < bs.len(),
                            bs[j as int].cid == a,
                            a == views(seen@)[i as int],
                            0 <= m <= bs[j as int].refs.len(),
                            views(seen@).no_duplicates(),
                            rs.subset_of(views(seen@).to_set()),
                            all_reachable(bs, rs, views(seen@)),
                within(views(seen@), cands),
                            forall|k: int, b: Seq<u8>|
                                0 <= k < i && #[trigger] links(bs, views(seen@)[k], b) ==> views(seen@).contains(b),
                            forall|q: int| 0 <= q < m ==> views(seen@).contains(#[trigger] bs[j as int].refs[q]),
                        decreases bs[j as int].refs.len() - m,
                    {
                        let child = &self.blocks[j].refs[m];
                        assert(bs[j as int].refs[m as int] == child@);
                        if !contains_bytes(&seen, child) {
                            let ghost old_seen = views(seen@);
                            proof {
                                assert(links(bs, a, child@));
                                lemma_reach_step(bs, rs, a, child@);
                                lemma_links_in_all_refs(bs, a, child@);
                                assert(cands.contains(child@)) by {
                                    let t = choose|t: int| 0 <= t < all_refs(bs).len() && all_refs(bs)[t] == child@;
                                    assert(cands[views(roots@).len() + t] == child@);
                                }
                            }
                            seen.push(copy_bytes(child));
                            assert(views(seen@) =~= old_seen.push(child@));
                            proof { lemma_push_contains(old_seen, child@); }
                            assert forall|x: Seq<u8>| views(seen@).contains(x) implies #[trigger] reachable(bs, rs, x) by {
                                if x != child@ {
                                    assert(old_seen.contains(x));
                                }
                            }
                            assert forall|x: Seq<u8>| views(seen@).contains(x) implies #[trigger] cands.contains(x) by {
                                if x != child@ {
                                    assert(old_seen.contains(x));
                                }
                            }
                            assert forall|k: int| 0 <= k < old_seen.len() implies views(seen@)[k] == old_seen[k] by {}
                            assert(rs.subset_of(views(seen@).to_set())) by {
                                assert forall|x: Seq<u8>| rs.contains(x) implies views(seen@).contains(x) by {
                                    assert(old_seen.contains(x));
                                }
                            }
                            assert forall|k: int, b: Seq<u8>|
                                0 <= k < i && #[trigger] links(bs, views(seen@)[k], b) implies views(seen@).contains(b) by {
                                assert(views(seen@)[k] == old_seen[k]);
                                assert(old_seen.contains(b));
                            }
                            assert forall|q: int| 0 <= q < m implies views(seen@).contains(#[trigger] bs[j as int].refs[q]) by {
                                assert(old_seen.contains(bs[j as int].refs[q]));
                            }
                        }
                        m = m + 1;
                    }
                    assert forall|b: Seq<u8>| #[trigger] links(bs, a, b) implies views(seen@).contains(b) by {
                        let w = choose|w: int| 0 <= w < bs.len() && (#[trigger] bs[w]).cid == a && bs[w].refs.contains(b);
                        assert(w == j);
                        let q = choose|q: int| 0 <= q < bs[j as int].refs.len() && bs[j as int].refs[q] == b;
                    }
                },
                None => {
                    assert forall|b: Seq<u8>| #[trigger] links(bs, a, b) implies views(seen@).contains(b) by {
                        let w = choose|w: int| 0 <= w < bs.len() && (#[trigger] bs[w]).cid == a && bs[w].refs.contains(b);
                    }
                },
            }
            proof {
                lemma_distinct_within(views(seen@), cands);
            }
            i = i + 1;
        }
        proof {
            let s = views(seen@).to_set();
            assert(closed(bs, s)) by {
                assert forall|x: Seq<u8>, b: Seq<u8>| s.contains(x) && #[trigger] links(bs, x, b) implies s.contains(b) by {
                    let k = choose|k: int| 0 <= k < views(seen@).len() && views(seen@)[k] == x;
                }
            }
        }
        seen
    }

    /// Inserts a block. A CID already stored leaves the store as it is; bytes
    /// that do not hash to the CID, DAG-CBOR bytes that fail the structural
    /// check, and bytes that the codec cannot walk are refused.
    pub fn insert(&mut self, cid: &Vec<u8>, data: &Vec<u8>) -> (r: Result<(), StoreError>)
        requires
            old(self).wf(),
        ensures
            final(self).wf(),
            (final(self)@, r) == old(self)@.insert_spec(cid@, data@, false),
    {
        self.insert_as(cid, data, false)
    }

    /// Inserts a block, marked public when it was received from a peer.
    pub(crate) fn insert_as(&mut self, cid: &Vec<u8>, data: &Vec<u8>, public: bool) -> (r: Result<(), StoreError>)
        requires
            old(self).wf(),
        ensures
            final(self).wf(),
            (final(self)@, r) == old(self)@.insert_spec(cid@, data@, public),
    {
        if self.contains(cid) {
            return Ok(());
        }
        if !verify_hash(cid, data) {
            return Err(StoreError::HashMismatch);
        }
        let is_cbor = match cid_codec(cid) {
            Some(code) => code == DAG_CBOR,
            None => false,
        };
        if is_cbor && !cbor_well_formed(data) {
            return Err(StoreError::CodecError);
        }
        match extract_references(cid, data) {
            None => Err(StoreError::CodecError),
            Some(refs) => {
                let ghost old_view = self@;
                let b = StoredBlock { cid: copy_bytes(cid), data: copy_bytes(data), refs, public };
                self.blocks.push(b);
                proof {
                    let nb = BlockView { cid: cid@, data: data@, refs: references_of(cid@, data@).unwrap(), public };
                    assert(self@.blocks =~= old_view.blocks.push(nb));
                    assert(self@.aliases =~= old_view.aliases);
                    assert(self@.pins =~= old_view.pins);
                    assert(self@ == old_view.insert_spec(cid@, data@, public).0);
                }
                Ok(())
            },
        }
    }

    /// The CIDs that `root` reaches and that are not stored, each once.
    pub fn missing_blocks(&self, root: &Vec<u8>) -> (r: Vec<Vec<u8>>)
        requires
            self.wf(),
        ensures
            views(r@).no_duplicates(),
            forall|c: Seq<u8>|
                #[trigger] views(r@).contains(c) <==> reachable(self@.blocks, set![root@], c) && !self@.has(c),
    {
        let mut start: Vec<Vec<u8>> = Vec::new();
        start.push(copy_bytes(root));
        proof {
            assert(views(start@) =~= seq![root@]);
            assert(views(start@).to_set() =~= set![root@]) by {
                assert(views(start@)[0] == root@);
            }
        }
        let all = self.closure(&start);
        let mut out: Vec<Vec<u8>> = Vec::new();
        let mut i: usize = 0;
        while i < all.len()
            invariant
                0 <= i <= all@.len(),
                views(all@).no_duplicates(),
                views(out@).no_duplicates(),
                forall|c: Seq<u8>|
                    #[trigger] views(out@).contains(c) <==> (exists|k: int| 0 <= k < i && views(all@)[k] == c)
                        && !self@.has(c),
            decreases all@.len() - i,
        {
            if !self.contains(&all[i]) {
                let ghost old_out = views(out@);
                let ghost x = all@[i as int]@;
                assert(views(all@)[i as int] == x);
                assert(!old_out.contains(x));
                out.push(copy_bytes(&all[i]));
                assert(views(out@) =~= old_out.push(x));
                proof { lemma_push_contains(old_out, x); }
            }
            i = i + 1;
        }
        proof {
            assert forall|c: Seq<u8>| #[trigger] views(out@).contains(c) <==> views(all@).contains(c) && !self@.has(c) by {
                if views(all@).contains(c) {
                    let k = choose|k: int| 0 <= k < views(all@).len() && views(all@)[k] == c;
                }
            }
        }
        out
    }

    /// Every stored CID, oldest first.
    pub fn iter(&self) -> (r: Vec<Vec<u8>>)
        ensures
            r@.len() == self@.blocks.len(),
            forall|i: int| 0 <= i < r@.len() ==> (#[trigger] r@[i])@ == self@.blocks[i].cid,
    {
        let mut out: Vec<Vec<u8>> = Vec::new();
        let mut i: usize = 0;
        while i < self.blocks.len()
            invariant
                0 <= i <= self.blocks@.len(),
                out@.len() == i,
                forall|k: int| 0 <= k < i ==> (#[trigger] out@[k])@ == self@.blocks[k].cid,
            decreases self.blocks@.len() - i,
        {
            out.push(copy_bytes(&self.blocks[i].cid));
            i = i + 1;
        }
        out
    }

    /// The position of the alias named `name`.
    fn find_alias(&self, name: &Vec<u8>) -> (r: Option<usize>)
        ensures
            match r {
                Some(i) => i < self@.aliases.len() && self@.aliases[i as int].0 == name@,
                None => forall|k: int| 0 <= k < self@.aliases.len() ==> (#[trigger] self@.aliases[k]).0 != name@,
            },
    {
        let mut i: usize = 0;
        while i < self.aliases.len()
            invariant
                0 <= i <= self.aliases@.len(),
                forall|k: int| 0 <= k < i ==> (#[trigger] self.aliases@[k]).name@ != name@,
            decreases self.aliases@.len() - i,
        {
            if bytes_eq(&self.aliases[i].name, name) {
                return Some(i);
            }
            i = i + 1;
        }
        assert forall|k: int| 0 <= k < self@.aliases.len() implies (#[trigger] self@.aliases[k]).0 != name@ by {
            assert(self.aliases@[k].name@ != name@);
        }
        None
    }

    /// The root of an alias.
    pub fn resolve(&self, name: &Vec<u8>) -> (r: Option<Vec<u8>>)
        ensures
            match r {
                Some(c) => exists|i: int|
                    0 <= i < self@.aliases.len() && (#[trigger] self@.aliases[i]) == (name@, c@),
                None => forall|k: int| 0 <= k < self@.aliases.len() ==> (#[trigger] self@.aliases[k]).0 != name@,
            },
    {
        match self.find_alias(name) {
            Some(i) => {
                let c = copy_bytes(&self.aliases[i].root);
                assert(self@.aliases[i as int] == (name@, c@));
                Some(c)
            },
            None => None,
        }
    }

    /// Every alias with its root.
    pub fn aliases(&self) -> (r: Vec<(Vec<u8>, Vec<u8>)>)
        ensures
            r@.len() == self@.aliases.len(),
            forall|i: int| 0 <= i < r@.len() ==> ((#[trigger] r@[i]).0@, r@[i].1@) == self@.aliases[i],
    {
        let mut out: Vec<(Vec<u8>, Vec<u8>)> = Vec::new();
        let mut i: usize = 0;
        while i < self.aliases.len()
            invariant
                0 <= i <= self.aliases@.len(),
                out@.len() == i,
                forall|k: int| 0 <= k < i ==> ((#[trigger] out@[k]).0@, out@[k].1@) == self@.aliases[k],
            decreases self.aliases@.len() - i,
        {
            out.push((copy_bytes(&self.aliases[i].name), copy_bytes(&self.aliases[i].root)));
            i = i + 1;
        }
        out
    }

    /// Points the alias `name` at `cid`, or removes it when `cid` is `None`.
    pub fn alias(&mut self, name: &Vec<u8>, cid: Option<&Vec<u8>>) -> (r: ())
        requires
            old(self).wf(),
        ensures
            final(self).wf(),
            final(self)@.blocks == old(self)@.blocks,
            final(self)@.pins == old(self)@.pins,
            final(self)@.next_pin == old(self)@.next_pin,
            final(self)@.cache_size == old(self)@.cache_size,
            forall|n: Seq<u8>, c: Seq<u8>| n != name@ ==> (final(self)@.aliases.contains((n, c)) <==> old(self)@.aliases.contains((n, c))),
            forall|c: Seq<u8>| #[trigger] final(self)@.aliases.contains((name@, c)) <==> cid is Some && c == cid.unwrap()@,
    {
        let ghost old_view = self@;
        match self.find_alias(name) {
            Some(i) => {
                let _removed = self.aliases.remove(i);
                let ghost mid = self@;
                assert(mid.aliases =~= old_view.aliases.remove(i as int));
                assert forall|k: int| 0 <= k < mid.aliases.len() implies (#[trigger] mid.aliases[k]).0 != name@ by {
                    if k < i {
                        assert(mid.aliases[k] == old_view.aliases[k]);
                    } else {
                        assert(mid.aliases[k] == old_view.aliases[k + 1]);
                    }
                }
                assert forall|n: Seq<u8>, c: Seq<u8>| n != name@ implies (mid.aliases.contains((n, c))
                    <==> old_view.aliases.contains((n, c))) by {
                    if old_view.aliases.contains((n, c)) {
                        let k = choose|k: int| 0 <= k < old_view.aliases.len() && old_view.aliases[k] == (n, c);
                        if k < i {
                            assert(mid.aliases[k] == (n, c));
                        } else {
                            assert(k != i);
                            assert(mid.aliases[k - 1] == (n, c));
                        }
                    }
                    if mid.aliases.contains((n, c)) {
                        let k = choose|k: int| 0 <= k < mid.aliases.len() && mid.aliases[k] == (n, c);
                        if k < i {
                            assert(old_view.aliases[k] == (n, c));
                        } else {
                            assert(old_view.aliases[k + 1] == (n, c));
                        }
                    }
                }
            },
            None => {},
        }
        let ghost mid = self@;
        assert(forall|k: int| 0 <= k < mid.aliases.len() ==> (#[trigger] mid.aliases[k]).0 != name@);
        match cid {
            Some(c) => {
                self.aliases.push(AliasEntry { name: copy_bytes(name), root: copy_bytes(c) });
                assert(self@.aliases =~= mid.aliases.push((name@, c@)));
                assert(self@.aliases[mid.aliases.len() as int] == (name@, c@));
            },
            None => {
                assert(self@.aliases =~= mid.aliases);
            },
        }
        assert(self@.blocks =~= old_view.blocks);
        assert(self@.pins =~= old_view.pins);
        assert forall|c: Seq<u8>| #[trigger] self@.aliases.contains((name@, c)) implies cid is Some && c == cid.unwrap()@ by {
            let k = choose|k: int| 0 <= k < self@.aliases.len() && self@.aliases[k] == (name@, c);
            if k < mid.aliases.len() {
                assert(mid.aliases[k] == self@.aliases[k]);
            }
        }
        assert forall|n: Seq<u8>, c: Seq<u8>| n != name@ implies (self@.aliases.contains((n, c))
            <==> mid.aliases.contains((n, c))) by {
            if mid.aliases.contains((n, c)) {
                let k = choose|k: int| 0 <= k < mid.aliases.len() && mid.aliases[k] == (n, c);
                assert(self@.aliases[k] == (n, c));
            }
            if self@.aliases.contains((n, c)) {
                let k = choose|k: int| 0 <= k < self@.aliases.len() && self@.aliases[k] == (n, c);
                assert(mid.aliases[k] == (n, c));
            }
        }
    }


    /// The position of the temporary pin `id`.
    fn find_pin(&self, id: u64) -> (r: Option<usize>)
        ensures
            match r {
                Some(i) => i < self@.pins.len() && self@.pins[i as int].0 == id,
                None => forall|k: int| 0 <= k < self@.pins.len() ==> (#[trigger] self@.pins[k]).0 != id,
            },
    {
        let mut i: usize = 0;
        while i < self.pins.len()
            invariant
                0 <= i <= self.pins@.len(),
                forall|k: int| 0 <= k < i ==> (#[trigger] self.pins@[k]).id != id,
            decreases self.pins@.len() - i,
        {
            if self.pins[i].id == id {
                return Some(i);
            }
            i = i + 1;
        }
        assert forall|k: int| 0 <= k < self@.pins.len() implies (#[trigger] self@.pins[k]).0 != id by {
            assert(self.pins@[k].id != id);
        }
        None
    }

    /// Registers a new, empty temporary pin.
    pub fn create_temp_pin(&mut self) -> (r: TempPin)
        requires
            old(self).wf(),
            old(self)@.next_pin < u64::MAX - 1,
        ensures
            final(self).wf(),
            r.id == old(self)@.next_pin,
            final(self)@ == (StoreView {
                pins: old(self)@.pins.push((r.id, seq![])),
                next_pin: (old(self)@.next_pin + 1) as u64,
                ..old(self)@
            }),
    {
        let ghost old_view = self@;
        let id = self.next_pin;
        let empty: Vec<Vec<u8>> = Vec::new();
        assert(views(empty@) =~= seq![]);
        self.pins.push(PinSet { id, roots: empty });
        self.next_pin = id + 1;
        proof {
            assert(self@.pins =~= old_view.pins.push((id, seq![])));
            assert(self@.blocks =~= old_view.blocks);
            assert(self@.aliases =~= old_view.aliases);
        }
        TempPin { id }
    }

    /// Adds `cid` to the roots of the temporary pin `tmp`.
    pub fn temp_pin(&mut self, tmp: &mut TempPin, cid: &Vec<u8>) -> (r: Result<(), StoreError>)
        requires
            old(self).wf(),
        ensures
            final(self).wf(),
            final(tmp).id == old(tmp).id,
            final(self)@.blocks == old(self)@.blocks,
            final(self)@.aliases == old(self)@.aliases,
            final(self)@.next_pin == old(self)@.next_pin,
            final(self)@.cache_size == old(self)@.cache_size,
            final(self)@.pins.len() == old(self)@.pins.len(),
            (forall|k: int| 0 <= k < old(self)@.pins.len() ==> (#[trigger] old(self)@.pins[k]).0 != old(tmp).id) ==> (
                r == Err::<(), StoreError>(StoreError::NotFound) && final(self)@ == old(self)@),
            forall|k: int| 0 <= k < old(self)@.pins.len() ==> (#[trigger] final(self)@.pins[k]) == (
                if old(self)@.pins[k].0 == old(tmp).id {
                    (old(tmp).id, if old(self)@.pins[k].1.contains(cid@) {
                        old(self)@.pins[k].1
                    } else {
                        old(self)@.pins[k].1.push(cid@)
                    })
                } else {
                    old(self)@.pins[k]
                }),
            (exists|k: int| 0 <= k < old(self)@.pins.len() && (#[trigger] old(self)@.pins[k]).0 == old(tmp).id) ==> r is Ok,
    {
        let ghost old_view = self@;
        match self.find_pin(tmp.id) {
            None => Err(StoreError::NotFound),
            Some(i) => {
                let mut roots: Vec<Vec<u8>> = Vec::new();
                std::mem::swap(&mut roots, &mut self.pins[i].roots);
                if !contains_bytes(&roots, cid) {
                    let ghost before = views(roots@);
                    roots.push(copy_bytes(cid));
                    assert(views(roots@) =~= before.push(cid@));
                }
                std::mem::swap(&mut roots, &mut self.pins[i].roots);
                proof {
                    assert(self@.blocks =~= old_view.blocks);
                    assert(self@.aliases =~= old_view.aliases);
                    assert forall|k: int| 0 <= k < old_view.pins.len() implies (#[trigger] self@.pins[k]) == (
                        if old_view.pins[k].0 == tmp.id {
                            (tmp.id, if old_view.pins[k].1.contains(cid@) {
                                old_view.pins[k].1
                            } else {
                                old_view.pins[k].1.push(cid@)
                            })
                        } else {
                            old_view.pins[k]
                        }) by {
                        if k != i {
                            assert(old_view.pins[k].0 != tmp.id);
                        }
                    }
                }
                Ok(())
            },
        }
    }

    /// Releases a temporary pin: its roots no longer protect anything.
    pub fn release_temp_pin(&mut self, tmp: TempPin)
        requires
            old(self).wf(),
        ensures
            final(self).wf(),
            final(self)@.blocks == old(self)@.blocks,
            final(self)@.aliases == old(self)@.aliases,
            final(self)@.next_pin == old(self)@.next_pin,
            final(self)@.cache_size == old(self)@.cache_size,
            forall|k: int| 0 <= k < final(self)@.pins.len() ==> (#[trigger] final(self)@.pins[k]).0 != tmp.id,
            forall|p: (u64, Seq<Seq<u8>>)| p.0 != tmp.id ==> (#[trigger] final(self)@.pins.contains(p) <==> old(self)@.pins.contains(p)),
    {
        let ghost old_view = self@;
        match self.find_pin(tmp.id) {
            None => {},
            Some(i) => {
                let _gone = self.pins.remove(i);
                proof {
                    assert(self@.pins =~= old_view.pins.remove(i as int));
                    assert(self@.blocks =~= old_view.blocks);
                    assert(self@.aliases =~= old_view.aliases);
                    assert forall|k: int| 0 <= k < self@.pins.len() implies (#[trigger] self@.pins[k]).0 != tmp.id by {
                        if k < i {
                            assert(self@.pins[k] == old_view.pins[k]);
                        } else {
                            assert(self@.pins[k] == old_view.pins[k + 1]);
                        }
                    }
                    assert forall|p: (u64, Seq<Seq<u8>>)| p.0 != tmp.id implies (#[trigger] self@.pins.contains(p)
                        <==> old_view.pins.contains(p)) by {
                        if old_view.pins.contains(p) {
                            let k = choose|k: int| 0 <= k < old_view.pins.len() && old_view.pins[k] == p;
                            if k < i {
                                assert(self@.pins[k] == p);
                            } else {
                                assert(self@.pins[k - 1] == p);
                            }
                        }
                        if self@.pins.contains(p) {
                            let k = choose|k: int| 0 <= k < self@.pins.len() && self@.pins[k] == p;
                            if k < i {
                                assert(old_view.pins[k] == p);
                            } else {
                                assert(old_view.pins[k + 1] == p);
                            }
                        }
                    }
                }
            },
        }
    }

    /// Every root: the alias roots and the roots of the temporary pins.
    fn root_list(&self) -> (r: Vec<Vec<u8>>)
        ensures
            views(r@).to_set() == self@.roots(),
    {
        let mut out: Vec<Vec<u8>> = Vec::new();
        let mut i: usize = 0;
        while i < self.aliases.len()
            invariant
                0 <= i <= self.aliases@.len(),
                forall|c: Seq<u8>| #[trigger] views(out@).contains(c) <==> exists|k: int| 0 <= k < i && (#[trigger] self@.aliases[k]).1 == c,
            decreases self.aliases@.len() - i,
        {
            let ghost before = views(out@);
            out.push(copy_bytes(&self.aliases[i].root));
            proof {
                assert(views(out@) =~= before.push(self@.aliases[i as int].1));
                lemma_push_contains(before, self@.aliases[i as int].1);
                assert forall|c: Seq<u8>| #[trigger] views(out@).contains(c) <==> exists|k: int| 0 <= k < i + 1 && (#[trigger] self@.aliases[k]).1 == c by {
                    if c == self@.aliases[i as int].1 {
                        assert(0 <= i < i + 1 && self@.aliases[i as int].1 == c);
                    }
                }
            }
            i = i + 1;
        }
        let mut p: usize = 0;
        while p < self.pins.len()
            invariant
                0 <= p <= self.pins@.len(),
                forall|c: Seq<u8>| #[trigger] views(out@).contains(c) <==> (exists|k: int| 0 <= k < self@.aliases.len() && (#[trigger] self@.aliases[k]).1 == c)
                    || (exists|k: int| 0 <= k < p && (#[trigger] self@.pins[k]).1.contains(c)),
            decreases self.pins@.len() - p,
        {
            let mut m: usize = 0;
            while m < self.pins[p].roots.len()
                invariant
                    0 <= p < self.pins@.len(),
                    0 <= m <= self@.pins[p as int].1.len(),
                    forall|c: Seq<u8>| #[trigger] views(out@).contains(c) <==> (exists|k: int| 0 <= k < self@.aliases.len() && (#[trigger] self@.aliases[k]).1 == c)
                        || (exists|k: int| 0 <= k < p && (#[trigger] self@.pins[k]).1.contains(c))
                        || (exists|q: int| 0 <= q < m && self@.pins[p as int].1[q] == c),
                decreases self@.pins[p as int].1.len() - m,
            {
                let ghost before = views(out@);
                let ghost x = self@.pins[p as int].1[m as int];
                out.push(copy_bytes(&self.pins[p].roots[m]));
                proof {
                    assert(views(out@) =~= before.push(x));
                    lemma_push_contains(before, x);
                    assert forall|c: Seq<u8>| #[trigger] views(out@).contains(c) <==> (exists|k: int| 0 <= k < self@.aliases.len() && (#[trigger] self@.aliases[k]).1 == c)
                        || (exists|k: int| 0 <= k < p && (#[trigger] self@.pins[k]).1.contains(c))
                        || (exists|q: int| 0 <= q < m + 1 && self@.pins[p as int].1[q] == c) by {
                        if c == x {
                            assert(0 <= m < m + 1 && self@.pins[p as int].1[m as int] == c);
                        }
                        if exists|q: int| 0 <= q < m + 1 && self@.pins[p as int].1[q] == c {
                            let q = choose|q: int| 0 <= q < m + 1 && self@.pins[p as int].1[q] == c;
                            if q < m {
                                assert(exists|q: int| 0 <= q < m && self@.pins[p as int].1[q] == c);
                            }
                        }
                    }
                }
                m = m + 1;
            }
            proof {
                assert forall|c: Seq<u8>| #[trigger] views(out@).contains(c) <==> (exists|k: int| 0 <= k < self@.aliases.len() && (#[trigger] self@.aliases[k]).1 == c)
                    || (exists|k: int| 0 <= k < p + 1 && (#[trigger] self@.pins[k]).1.contains(c)) by {
                    if self@.pins[p as int].1.contains(c) {
                        let q = choose|q: int| 0 <= q < self@.pins[p as int].1.len() && self@.pins[p as int].1[q] == c;
                    }
                    if exists|k: int| 0 <= k < p + 1 && (#[trigger] self@.pins[k]).1.contains(c) {
                        let k = choose|k: int| 0 <= k < p + 1 && (#[trigger] self@.pins[k]).1.contains(c);
                        if k == p {
                            let q = choose|q: int| 0 <= q < self@.pins[p as int].1.len() && self@.pins[p as int].1[q] == c;
                            assert(exists|q: int| 0 <= q < self@.pins[p as int].1.len() && self@.pins[p as int].1[q] == c);
                        }
                    }
                }
            }
            p = p + 1;
        }
        assert(views(out@).to_set() =~= self@.roots());
        out
    }

    /// Every block that some root reaches, each once.
    fn live_list(&self) -> (r: Vec<Vec<u8>>)
        requires
            self.wf(),
        ensures
            forall|c: Seq<u8>| #[trigger] views(r@).contains(c) <==> self@.live(c),
    {
        let roots = self.root_list();
        self.closure(&roots)
    }

    /// The aliases whose root reaches `cid`; `None` when `cid` is not stored.
    pub fn reverse_alias(&self, cid: &Vec<u8>) -> (r: Option<Vec<Vec<u8>>>)
        requires
            self.wf(),
        ensures
            r is None <==> !self@.has(cid@),
            match r {
                Some(v) => views(v@).no_duplicates() && forall|n: Seq<u8>| #[trigger] views(v@).contains(n) <==> exists|i: int|
                    0 <= i < self@.aliases.len() && (#[trigger] self@.aliases[i]).0 == n
                        && reachable(self@.blocks, set![self@.aliases[i].1], cid@),
                None => true,
            },
    {
        if !self.contains(cid) {
            return None;
        }
        let mut out: Vec<Vec<u8>> = Vec::new();
        let mut i: usize = 0;
        while i < self.aliases.len()
            invariant
                self.wf(),
                0 <= i <= self.aliases@.len(),
                views(out@).no_duplicates(),
                forall|n: Seq<u8>| #[trigger] views(out@).contains(n) <==> exists|k: int|
                    0 <= k < i && (#[trigger] self@.aliases[k]).0 == n
                        && reachable(self@.blocks, set![self@.aliases[k].1], cid@),
            decreases self.aliases@.len() - i,
        {
            let mut start: Vec<Vec<u8>> = Vec::new();
            start.push(copy_bytes(&self.aliases[i].root));
            proof {
                assert(views(start@) =~= seq![self@.aliases[i as int].1]);
                assert(views(start@).to_set() =~= set![self@.aliases[i as int].1]) by {
                    assert(views(start@)[0] == self@.aliases[i as int].1);
                }
            }
            let reached = self.closure(&start);
            let ghost before = views(out@);
            let ghost nm = self@.aliases[i as int].0;
            if contains_bytes(&reached, cid) {
                proof {
                    if before.contains(nm) {
                        let k = choose|k: int| 0 <= k < i && (#[trigger] self@.aliases[k]).0 == nm
                            && reachable(self@.blocks, set![self@.aliases[k].1], cid@);
                        assert(self@.aliases[k].0 != self@.aliases[i as int].0);
                    }
                }
                out.push(copy_bytes(&self.aliases[i].name));
                proof {
                    assert(views(out@) =~= before.push(nm));
                    lemma_push_contains(before, nm);
                }
            }
            proof {
                assert forall|n: Seq<u8>| #[trigger] views(out@).contains(n) <==> exists|k: int|
                    0 <= k < i + 1 && (#[trigger] self@.aliases[k]).0 == n
                        && reachable(self@.blocks, set![self@.aliases[k].1], cid@) by {
                    if exists|k: int| 0 <= k < i + 1 && (#[trigger] self@.aliases[k]).0 == n
                        && reachable(self@.blocks, set![self@.aliases[k].1], cid@) {
                        let k = choose|k: int| 0 <= k < i + 1 && (#[trigger] self@.aliases[k]).0 == n
                            && reachable(self@.blocks, set![self@.aliases[k].1], cid@);
                        if k == i {
                            assert(views(reached@).contains(cid@));
                        }
                    }
                    if n == nm && views(reached@).contains(cid@) {
                        assert(0 <= i < i + 1 && self@.aliases[i as int].0 == n);
                    }
                }
            }
            i = i + 1;
        }
        Some(out)
    }

    /// Runs one eviction sweep. Candidates are the blocks that no root reaches
    /// and no stored block references; they go oldest first until at most
    /// `cache_size` unreached blocks are left, or no candidate is.
    pub fn evict(&mut self)
        requires
            old(self).wf(),
        ensures
            final(self).wf(),
            final(self)@ == old(self)@.evict_spec(),
    {
        let ghost v = self@;
        let live = self.live_list();
        let mut dead: usize = 0;
        let mut cands: Vec<bool> = Vec::new();
        let mut i: usize = 0;
        while i < self.blocks.len()
            invariant
                self.wf(),
                v == self@,
                0 <= i <= self.blocks@.len(),
                dead as int == v.dead_before(i as int),
                dead <= i,
                cands@.len() == i,
                forall|k: int| 0 <= k < i ==> cands@[k] == #[trigger] v.candidate(k),
                forall|c: Seq<u8>| #[trigger] views(live@).contains(c) <==> v.live(c),
            decreases self.blocks@.len() - i,
        {
            assert(v.blocks[i as int] == self.blocks@[i as int]@);
            let is_dead = !contains_bytes(&live, &self.blocks[i].cid);
            if is_dead {
                dead = dead + 1;
            }
            let is_cand = is_dead && self.referrers(&self.blocks[i].cid) == 0;
            cands.push(is_cand);
            i = i + 1;
        }
        let excess: usize = if (dead as u64) > self.cache_size {
            dead - (self.cache_size as usize)
        } else {
            0
        };
        let mut old_blocks: Vec<StoredBlock> = Vec::new();
        std::mem::swap(&mut old_blocks, &mut self.blocks);
        assert(old_blocks@.map_values(|b: StoredBlock| b@) == v.blocks);
        let mut seen_cand: usize = 0;
        let mut k: usize = 0;
        while k < old_blocks.len()
            invariant
                0 <= k <= old_blocks@.len(),
                old_blocks@.map_values(|b: StoredBlock| b@) == v.blocks,
                self.blocks@.map_values(|b: StoredBlock| b@) == v.kept_prefix(k as int),
                self.aliases == old(self).aliases,
                self.pins == old(self).pins,
                self.next_pin == old(self).next_pin,
                self.cache_size == old(self).cache_size,
                v == old(self)@,
                seen_cand as int == v.cand_before(k as int),
                seen_cand <= k,
                excess as int == if v.excess() > 0 { v.excess() } else { 0 },
                cands@.len() == old_blocks@.len(),
                forall|j: int| 0 <= j < cands@.len() ==> cands@[j] == #[trigger] v.candidate(j),
            decreases old_blocks@.len() - k,
        {
            let ghost before = self.blocks@.map_values(|b: StoredBlock| b@);
            assert(v.blocks[k as int] == old_blocks@[k as int]@);
            let is_cand = cands[k];
            assert(is_cand == v.candidate(k as int));
            if !is_cand || seen_cand >= excess {
                self.blocks.push(copy_block(&old_blocks[k]));
                assert(self.blocks@.map_values(|b: StoredBlock| b@) =~= before.push(v.blocks[k as int]));
            } else {
                assert(self.blocks@.map_values(|b: StoredBlock| b@) =~= before);
            }
            assert(v.kept_prefix(k + 1) =~= v.kept_prefix(k as int) + if v.kept(k as int) { seq![v.blocks[k as int]] } else { seq![] });
            if is_cand {
                seen_cand = seen_cand + 1;
            }
            k = k + 1;
        }
        proof {
            lemma_kept_unique(v, v.blocks.len() as int);
            assert(self@ =~= v.evict_spec());
        }
    }

    /// Drops every block after the first `n`.
    pub(crate) fn truncate_blocks(&mut self, n: usize)
        requires
            old(self).wf(),
            n <= old(self)@.blocks.len(),
        ensures
            final(self).wf(),
            final(self)@ == (StoreView { blocks: old(self)@.blocks.subrange(0, n as int), ..old(self)@ }),
    {
        let ghost v = self@;
        self.blocks.truncate(n);
        assert(self@.blocks =~= v.blocks.subrange(0, n as int));
        assert(self@.aliases =~= v.aliases);
        assert(self@.pins =~= v.pins);
    }

    /// How many blocks the store holds.
    pub fn len(&self) -> (r: usize)
        ensures
            r == self@.blocks.len(),
    {
        self.blocks.len()
    }

    /// The alias roots, one entry per alias.
    fn alias_root_list(&self) -> (r: Vec<Vec<u8>>)
        ensures
            views(r@).to_set() == self@.alias_roots(),
    {
        let mut out: Vec<Vec<u8>> = Vec::new();
        let mut i: usize = 0;
        while i < self.aliases.len()
            invariant
                0 <= i <= self.aliases@.len(),
                forall|c: Seq<u8>| #[trigger] views(out@).contains(c) <==> exists|k: int| 0 <= k < i && (#[trigger] self@.aliases[k]).1 == c,
            decreases self.aliases@.len() - i,
        {
            let ghost before = views(out@);
            out.push(copy_bytes(&self.aliases[i].root));
            proof {
                assert(views(out@) =~= before.push(self@.aliases[i as int].1));
                lemma_push_contains(before, self@.aliases[i as int].1);
                assert forall|c: Seq<u8>| #[trigger] views(out@).contains(c) <==> exists|k: int| 0 <= k < i + 1 && (#[trigger] self@.aliases[k]).1 == c by {
                    if c == self@.aliases[i as int].1 {
                        assert(0 <= i < i + 1 && self@.aliases[i as int].1 == c);
                    }
                }
            }
            i = i + 1;
        }
        assert(views(out@).to_set() =~= self@.alias_roots());
        out
    }

    /// The pin count of a block: the temporary pins that reach it, plus one
    /// when an alias reaches it.
    pub fn pins(&self, cid: &Vec<u8>) -> (r: u64)
        requires
            self.wf(),
        ensures
            r == self@.pin_count(cid@),
    {
        let mut n: u64 = 0;
        let mut i: usize = 0;
        while i < self.pins.len()
            invariant
                self.wf(),
                0 <= i <= self.pins@.len(),
                n == self@.temp_pin_count(cid@, i as int),
                n <= i,
            decreases self.pins@.len() - i,
        {
            let reached = self.closure(&self.pins[i].roots);
            if contains_bytes(&reached, cid) {
                n = n + 1;
            }
            i = i + 1;
        }
        let roots = self.alias_root_list();
        let reached = self.closure(&roots);
        if contains_bytes(&reached, cid) {
            n + 1
        } else {
            n
        }
    }

    /// The referrer count of a block: how many stored blocks reference it.
    pub fn referrers(&self, cid: &Vec<u8>) -> (r: usize)
        ensures
            r == self@.referrer_count(cid@, self@.blocks.len() as int),
    {
        let mut n: usize = 0;
        let mut i: usize = 0;
        while i < self.blocks.len()
            invariant
                0 <= i <= self.blocks@.len(),
                n == self@.referrer_count(cid@, i as int),
                n <= i,
            decreases self.blocks@.len() - i,
        {
            if contains_bytes(&self.blocks[i].refs, cid) {
                n = n + 1;
            }
            i = i + 1;
        }
        n
    }

    /// The position of an alias whose root is `cid`.
    fn find_alias_root(&self, cid: &Vec<u8>) -> (r: Option<usize>)
        ensures
            match r {
                Some(i) => i < self@.aliases.len() && self@.aliases[i as int].1 == cid@,
                None => forall|k: int| 0 <= k < self@.aliases.len() ==> (#[trigger] self@.aliases[k]).1 != cid@,
            },
    {
        let mut i: usize = 0;
        while i < self.aliases.len()
            invariant
                0 <= i <= self.aliases@.len(),
                forall|k: int| 0 <= k < i ==> (#[trigger] self.aliases@[k]).root@ != cid@,
            decreases self.aliases@.len() - i,
        {
            if bytes_eq(&self.aliases[i].root, cid) {
                return Some(i);
            }
            i = i + 1;
        }
        assert forall|k: int| 0 <= k < self@.aliases.len() implies (#[trigger] self@.aliases[k]).1 != cid@ by {
            assert(self.aliases@[k].root@ != cid@);
        }
        None
    }

    /// Removes every alias whose root is `cid`.
    pub fn unpin(&mut self, cid: &Vec<u8>)
        requires
            old(self).wf(),
        ensures
            final(self).wf(),
            final(self)@.blocks == old(self)@.blocks,
            final(self)@.pins == old(self)@.pins,
            final(self)@.next_pin == old(self)@.next_pin,
            final(self)@.cache_size == old(self)@.cache_size,
            forall|p: (Seq<u8>, Seq<u8>)| #[trigger] final(self)@.aliases.contains(p) <==> old(self)@.aliases.contains(p) && p.1 != cid@,
    {
        let ghost v = self@;
        let mut next = self.find_alias_root(cid);
        while next.is_some()
            invariant
                self.wf(),
                self@.blocks == v.blocks,
                self@.pins == v.pins,
                self@.next_pin == v.next_pin,
                self@.cache_size == v.cache_size,
                v == old(self)@,
                match next {
                    Some(i) => i < self@.aliases.len() && self@.aliases[i as int].1 == cid@,
                    None => forall|k: int| 0 <= k < self@.aliases.len() ==> (#[trigger] self@.aliases[k]).1 != cid@,
                },
                forall|p: (Seq<u8>, Seq<u8>)| p.1 != cid@ ==> (#[trigger] self@.aliases.contains(p) <==> v.aliases.contains(p)),
                forall|p: (Seq<u8>, Seq<u8>)| #[trigger] self@.aliases.contains(p) ==> v.aliases.contains(p),
            decreases self@.aliases.len(),
        {
            let i = next.unwrap();
            let ghost before = self@;
            let _gone = self.aliases.remove(i);
            proof {
                assert(self@.aliases =~= before.aliases.remove(i as int));
                assert(self@.blocks =~= before.blocks);
                assert(self@.pins =~= before.pins);
                assert forall|p: (Seq<u8>, Seq<u8>)| #[trigger] self@.aliases.contains(p) implies before.aliases.contains(p) by {
                    let k = choose|k: int| 0 <= k < self@.aliases.len() && self@.aliases[k] == p;
                    if k < i {
                        assert(before.aliases[k] == p);
                    } else {
                        assert(before.aliases[k + 1] == p);
                    }
                }
                assert forall|p: (Seq<u8>, Seq<u8>)| p.1 != cid@ && #[trigger] before.aliases.contains(p) implies self@.aliases.contains(p) by {
                    let k = choose|k: int| 0 <= k < before.aliases.len() && before.aliases[k] == p;
                    if k < i {
                        assert(self@.aliases[k] == p);
                    } else {
                        assert(k != i);
                        assert(self@.aliases[k - 1] == p);
                    }
                }
                assert forall|p: (Seq<u8>, Seq<u8>)| p.1 != cid@ implies (#[trigger] self@.aliases.contains(p) <==> v.aliases.contains(p)) by {
                    if v.aliases.contains(p) {
                        assert(before.aliases.contains(p));
                    }
                    if self@.aliases.contains(p) {
                        assert(before.aliases.contains(p));
                    }
                }
            }
            next = self.find_alias_root(cid);
        }
        assert forall|p: (Seq<u8>, Seq<u8>)| #[trigger] self@.aliases.contains(p) implies p.1 != cid@ by {
            let k = choose|k: int| 0 <= k < self@.aliases.len() && self@.aliases[k] == p;
        }
    }

    /// The pin count, referrer count and origin of a stored block.
    pub fn metadata(&self, cid: &Vec<u8>) -> (r: Option<Metadata>)
        requires
            self.wf(),
        ensures
            match r {
                Some(m) => exists|i: int| 0 <= i < self@.blocks.len() && (#[trigger] self@.blocks[i]).cid == cid@
                    && m.public == self@.blocks[i].public
                    && m.pins == self@.pin_count(cid@)
                    && m.referrers == self@.referrer_count(cid@, self@.blocks.len() as int),
                None => !self@.has(cid@),
            },
    {
        match self.find(cid) {
            None => None,
            Some(i) => {
                let public = self.blocks[i].public;
                let pins = self.pins(cid);
                let referrers = self.referrers(cid) as u64;
                Some(Metadata { pins, referrers, public })
            },
        }
    }
}

} // verus!
