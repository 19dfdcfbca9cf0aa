//! The decisions of DAG synchronisation and of single-block fetches. The
//! caller performs the requests to peers and hands back what came of them;
//! the store says what to request next and when the DAG is complete.
use vstd::prelude::*;
use crate::bytes::{bytes_eq, contains_bytes, copy_bytes, views};
use crate::model::reachable;
use crate::store::{BlockStore, StoreError, StoreView, TempPin};

verus! {

/// How many times one CID may fail to arrive before a sync gives up on it.
pub const RETRY_LIMIT: u64 = 3;

/// What a sync or fetch asks its caller to do next.
pub enum SyncAction {
    /// Request these CIDs from the providers.
    Fetch(Vec<Vec<u8>>),
    /// Every block that the root reaches is stored.
    Complete,
    /// The sync failed.
    Fail(StoreError),
}

/// What the caller reports back.
pub enum SyncEvent {
    /// A peer delivered bytes for a CID.
    Received { cid: Vec<u8>, data: Vec<u8> },
    /// No provider delivered the CID.
    Failed { cid: Vec<u8> },
}

/// The first step of a fetch of one block.
pub enum FetchAction {
    /// The block is stored: here are its bytes.
    Found(Vec<u8>),
    /// Request the block from the providers, then call `fetch_end` with this
    /// temporary pin, which keeps the block from eviction until then.
    Request(TempPin),
    /// The block is not stored and there is nobody to ask.
    NotFound,
}

/// The state of one sync: its root, every CID requested so far, and one entry
/// per failed request.
pub struct SyncQuery {
    pub root: Vec<u8>,
    pub requested: Vec<Vec<u8>>,
    pub failures: Vec<Vec<u8>>,
}

/// How many times `c` occurs in `s`.
pub open spec fn occurrences(s: Seq<Seq<u8>>, c: Seq<u8>) -> int
    decreases s.len(),
{
    if s.len() == 0 {
        0
    } else {
        occurrences(s.drop_last(), c) + if s.last() == c { 1int } else { 0int }
    }
}

/// Every block that `root` reaches is stored.
pub open spec fn dag_complete(v: StoreView, root: Seq<u8>) -> bool {
    forall|c: Seq<u8>| #[trigger] reachable(v.blocks, set![root], c) ==> v.has(c)
}

/// What the list of a `Fetch` holds: CIDs that `root` reaches and that are not
/// stored, none requested before, each once.
pub open spec fn fresh_requests(v: StoreView, root: Seq<u8>, before: Seq<Seq<u8>>, r: Seq<Seq<u8>>) -> bool {
    &&& r.no_duplicates()
    &&& r.len() > 0
    &&& forall|c: Seq<u8>| #[trigger] r.contains(c) <==> reachable(v.blocks, set![root], c) && !v.has(c) && !before.contains(c)
}

fn count_in(s: &Vec<Vec<u8>>, c: &Vec<u8>) -> (r: u64)
    requires
        s@.len() < u64::MAX,
    ensures
        r == occurrences(views(s@), c@),
        r <= s@.len(),
{
    let mut n: u64 = 0;
    let mut i: usize = 0;
    while i < s.len()
        invariant
            0 <= i <= s@.len(),
            s@.len() < u64::MAX,
            n == occurrences(views(s@).subrange(0, i as int), c@),
            n <= i,
        decreases s@.len() - i,
    {
        assert(views(s@).subrange(0, i + 1).drop_last() =~= views(s@).subrange(0, i as int));
        if bytes_eq(&s[i], c) {
            n = n + 1;
        }
        i = i + 1;
    }
    assert(views(s@).subrange(0, s@.len() as int) =~= views(s@));
    n
}

impl BlockStore {
    /// The missing CIDs of `root` that `q` has not requested yet; all of them
    /// become requested.
    fn next_requests(&self, q: &mut SyncQuery) -> (r: Vec<Vec<u8>>)
        requires
            self.wf(),
        ensures
            final(q).root == old(q).root,
            final(q).failures == old(q).failures,
            views(final(q).requested@) == views(old(q).requested@) + views(r@),
            views(r@).no_duplicates(),
            forall|c: Seq<u8>| #[trigger] views(r@).contains(c) <==> reachable(self@.blocks, set![old(q).root@], c)
                && !self@.has(c) && !views(old(q).requested@).contains(c),
    {
        let missing = self.missing_blocks(&q.root);
        let ghost before = views(q.requested@);
        let mut out: Vec<Vec<u8>> = Vec::new();
        let mut i: usize = 0;
        while i < missing.len()
            invariant
                0 <= i <= missing@.len(),
                views(missing@).no_duplicates(),
                views(q.requested@) == before + views(out@),
                views(out@).no_duplicates(),
                q.root == old(q).root,
                q.failures == old(q).failures,
                before == views(old(q).requested@),
                forall|c: Seq<u8>| #[trigger] views(out@).contains(c) <==> (exists|k: int| 0 <= k < i && views(missing@)[k] == c)
                    && !before.contains(c),
            decreases missing@.len() - i,
        {
            let ghost x = views(missing@)[i as int];
            let seen_before = contains_bytes(&q.requested, &missing[i]);
            if !seen_before {
                proof {
                    crate::model::lemma_push_contains(views(out@), x);
                    if before.contains(x) {
                        let t = choose|t: int| 0 <= t < before.len() && before[t] == x;
                        assert((before + views(out@))[t] == x);
                    }
                    if views(out@).contains(x) {
                        let t = choose|t: int| 0 <= t < views(out@).len() && views(out@)[t] == x;
                        assert((before + views(out@))[before.len() + t] == x);
                    }
                }
                let ghost old_out = views(out@);
                let ghost old_req = views(q.requested@);
                out.push(copy_bytes(&missing[i]));
                q.requested.push(copy_bytes(&missing[i]));
                assert(views(out@) =~= old_out.push(x));
                assert(views(q.requested@) =~= old_req.push(x));
                assert(views(q.requested@) =~= before + views(out@));
            } else {
                proof {
                    let t = choose|t: int| 0 <= t < views(q.requested@).len() && views(q.requested@)[t] == x;
                    if t >= before.len() {
                        assert(views(out@)[t - before.len()] == x);
                        assert(views(out@).contains(x));
                    }
                }
            }
            proof {
                assert forall|c: Seq<u8>| #[trigger] views(out@).contains(c) <==> (exists|k: int| 0 <= k < i + 1 && views(missing@)[k] == c)
                    && !before.contains(c) by {
                    if c == x {
                        assert(0 <= i < i + 1 && views(missing@)[i as int] == c);
                    }
                    if exists|k: int| 0 <= k < i + 1 && views(missing@)[k] == c {
                        let k = choose|k: int| 0 <= k < i + 1 && views(missing@)[k] == c;
                        if k < i {
                            assert(exists|k: int| 0 <= k < i && views(missing@)[k] == c);
                        }
                    }
                }
            }
            i = i + 1;
        }
        proof {
            assert forall|c: Seq<u8>| #[trigger] views(out@).contains(c) <==> reachable(self@.blocks, set![old(q).root@], c)
                && !self@.has(c) && !before.contains(c) by {
                if views(missing@).contains(c) {
                    let k = choose|k: int| 0 <= k < views(missing@).len() && views(missing@)[k] == c;
                }
            }
        }
        out
    }

    /// Starts a sync of the DAG under `root`: either it is already complete, or
    /// the CIDs to request first.
    pub fn sync_start(&self, root: &Vec<u8>) -> (r: (SyncQuery, SyncAction))
        requires
            self.wf(),
        ensures
            r.0.root@ == root@,
            r.0.failures@.len() == 0,
            match r.1 {
                SyncAction::Complete => dag_complete(self@, root@) && r.0.requested@.len() == 0,
                SyncAction::Fetch(v) => !dag_complete(self@, root@) && fresh_requests(self@, root@, seq![], views(v@))
                    && views(r.0.requested@) == views(v@),
                SyncAction::Fail(_) => false,
            },
    {
        let mut q = SyncQuery { root: copy_bytes(root), requested: Vec::new(), failures: Vec::new() };
        assert(views(q.requested@) =~= seq![]);
        let first = self.next_requests(&mut q);
        assert(views(q.requested@) =~= views(first@));
        if first.len() == 0 {
            assert forall|c: Seq<u8>| #[trigger] reachable(self@.blocks, set![root@], c) implies self@.has(c) by {
                if !self@.has(c) {
                    assert(views(first@).contains(c));
                }
            }
            (q, SyncAction::Complete)
        } else {
            let ghost c0 = views(first@)[0];
            assert(views(first@).contains(c0));
            (q, SyncAction::Fetch(first))
        }
    }

    /// Takes in what the caller reports and decides the next step. A block
    /// that arrives is inserted (and refused when its bytes do not hash to its
    /// CID); what it reveals and is neither stored nor requested yet is to be
    /// requested (an empty list: wait for the requests in flight); a CID that failed more than `RETRY_LIMIT` times ends the sync
    /// with `NotFound`.
    pub fn sync_step(&mut self, q: &mut SyncQuery, ev: SyncEvent) -> (r: SyncAction)
        requires
            old(self).wf(),
            old(q).failures@.len() < u64::MAX - 1,
        ensures
            final(self).wf(),
            final(q).root == old(q).root,
            match ev {
                SyncEvent::Received { cid, data } => {
                    &&& final(self)@ == old(self)@.insert_spec(cid@, data@, true).0
                    &&& final(q).failures == old(q).failures
                    &&& match old(self)@.insert_spec(cid@, data@, true).1 {
                        Err(e) => r == SyncAction::Fail(e) && final(q).requested == old(q).requested,
                        Ok(_) => match r {
                            SyncAction::Complete => dag_complete(final(self)@, old(q).root@)
                                && views(final(q).requested@) == views(old(q).requested@),
                            SyncAction::Fetch(v) => !dag_complete(final(self)@, old(q).root@)
                                && views(v@).no_duplicates()
                                && views(final(q).requested@) == views(old(q).requested@) + views(v@)
                                && forall|c: Seq<u8>| #[trigger] views(v@).contains(c) <==> reachable(final(self)@.blocks, set![old(q).root@], c)
                                    && !final(self)@.has(c) && !views(old(q).requested@).contains(c),
                            SyncAction::Fail(_) => false,
                        },
                    }
                },
                SyncEvent::Failed { cid } => {
                    &&& final(self)@ == old(self)@
                    &&& final(q).requested == old(q).requested
                    &&& views(final(q).failures@) == views(old(q).failures@).push(cid@)
                    &&& if occurrences(views(old(q).failures@), cid@) + 1 > RETRY_LIMIT {
                        r == SyncAction::Fail(StoreError::NotFound)
                    } else {
                        r matches SyncAction::Fetch(v) && views(v@) == seq![cid@]
                    }
                },
            },
    {
        match ev {
            SyncEvent::Received { cid, data } => {
                match self.insert_as(&cid, &data, true) {
                    Err(e) => SyncAction::Fail(e),
                    Ok(()) => {
                        let fresh = self.next_requests(q);
                        let missing = self.missing_blocks(&q.root);
                        if missing.len() == 0 {
                            assert forall|c: Seq<u8>| #[trigger] reachable(self@.blocks, set![q.root@], c) implies self@.has(c) by {
                                if !self@.has(c) {
                                    assert(views(missing@).contains(c));
                                }
                            }
                            if fresh.len() > 0 {
                                assert(views(fresh@).contains(views(fresh@)[0]));
                            }
                            assert(views(fresh@) =~= seq![]);
                            assert(views(q.requested@) =~= views(old(q).requested@));
                            SyncAction::Complete
                        } else {
                            let ghost c0 = views(missing@)[0];
                            assert(views(missing@).contains(c0));
                            SyncAction::Fetch(fresh)
                        }
                    },
                }
            },
            SyncEvent::Failed { cid } => {
                let n = count_in(&q.failures, &cid);
                let ghost before = views(q.failures@);
                q.failures.push(copy_bytes(&cid));
                assert(views(q.failures@) =~= before.push(cid@));
                if n + 1 > RETRY_LIMIT {
                    SyncAction::Fail(StoreError::NotFound)
                } else {
                    let mut again: Vec<Vec<u8>> = Vec::new();
                    again.push(cid);
                    assert(views(again@) =~= seq![again@[0]@]);
                    SyncAction::Fetch(again)
                }
            },
        }
    }

    /// Starts a fetch: a stored block is returned at once; otherwise, when
    /// there are providers, the CID goes under a new temporary pin and is to
    /// be requested.
    pub fn fetch_begin(&mut self, cid: &Vec<u8>, providers: usize) -> (r: FetchAction)
        requires
            old(self).wf(),
            old(self)@.next_pin < u64::MAX - 1,
        ensures
            final(self).wf(),
            match r {
                FetchAction::Found(d) => final(self)@ == old(self)@ && exists|i: int|
                    0 <= i < old(self)@.blocks.len() && (#[trigger] old(self)@.blocks[i]).cid == cid@ && old(self)@.blocks[i].data == d@,
                FetchAction::Request(t) => !old(self)@.has(cid@) && providers > 0 && t.id == old(self)@.next_pin
                    && final(self)@ == (StoreView {
                        pins: old(self)@.pins.push((t.id, seq![cid@])),
                        next_pin: (old(self)@.next_pin + 1) as u64,
                        ..old(self)@
                    }),
                FetchAction::NotFound => final(self)@ == old(self)@ && !old(self)@.has(cid@) && providers == 0,
            },
    {
        match self.get(cid) {
            Some(d) => FetchAction::Found(d),
            None => if providers > 0 {
                let ghost v = self@;
                let mut t = self.create_temp_pin();
                let ghost mid = self@;
                assert(mid.pins[mid.pins.len() - 1].0 == t.id);
                let _ = self.temp_pin(&mut t, cid);
                proof {
                    assert(!mid.pins[mid.pins.len() - 1].1.contains(cid@));
                    assert forall|k: int| 0 <= k < mid.pins.len() - 1 implies mid.pins[k].0 != t.id by {
                        assert(mid.pins[k] == v.pins[k]);
                    }
                    assert(self@.pins =~= v.pins.push((t.id, seq![cid@])));
                }
                FetchAction::Request(t)
            } else {
                FetchAction::NotFound
            },
        }
    }

    /// Ends a fetch with what came of the request: its error, or else the
    /// block's bytes, or `NotFound` when no peer delivered it. The temporary
    /// pin of the fetch is released.
    pub fn fetch_end(&mut self, cid: &Vec<u8>, pin: TempPin, request: Result<(), StoreError>) -> (r: Result<Vec<u8>, StoreError>)
        requires
            old(self).wf(),
        ensures
            final(self).wf(),
            final(self)@.blocks == old(self)@.blocks,
            final(self)@.aliases == old(self)@.aliases,
            forall|k: int| 0 <= k < final(self)@.pins.len() ==> (#[trigger] final(self)@.pins[k]).0 != pin.id,
            forall|p: (u64, Seq<Seq<u8>>)| p.0 != pin.id ==> (#[trigger] final(self)@.pins.contains(p) <==> old(self)@.pins.contains(p)),
            match request {
                Err(e) => r == Err::<Vec<u8>, StoreError>(e),
                Ok(_) => match r {
                    Ok(d) => exists|i: int|
                        0 <= i < old(self)@.blocks.len() && (#[trigger] old(self)@.blocks[i]).cid == cid@ && old(self)@.blocks[i].data == d@,
                    Err(e) => e == StoreError::NotFound && !old(self)@.has(cid@),
                },
            },
    {
        let r = match request {
            Err(e) => Err(e),
            Ok(()) => match self.get(cid) {
                Some(d) => Ok(d),
                None => Err(StoreError::NotFound),
            },
        };
        self.release_temp_pin(pin);
        r
    }
}

} // verus!
