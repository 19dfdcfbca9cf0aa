//! Batches: a list of reads and writes applied as one unit. Either every
//! write of the batch is kept, or, when one of them fails or the batch is
//! aborted, none is.
use vstd::prelude::*;
use crate::store::{BlockStore, StoreError, StoreView};

verus! {

/// One operation of a batch.
pub enum BatchOp {
    /// Inserts a block.
    Insert { cid: Vec<u8>, data: Vec<u8> },
    /// Asks whether a block is stored, counting the batch's own earlier writes.
    Contains { cid: Vec<u8> },
    /// Reads a block's bytes, counting the batch's own earlier writes.
    Get { cid: Vec<u8> },
    /// Aborts the batch.
    Abort,
}

/// The model of a batch operation.
pub enum OpView {
    Insert(Seq<u8>, Seq<u8>),
    Contains(Seq<u8>),
    Get(Seq<u8>),
    Abort,
}

/// The answer to a read of a batch.
#[derive(Debug, PartialEq, Eq)]
pub enum BatchReply {
    Contains(bool),
    Get(Option<Vec<u8>>),
}

/// The model of an answer.
pub enum ReplyView {
    Contains(bool),
    Get(Option<Seq<u8>>),
}

impl View for BatchReply {
    type V = ReplyView;

    open spec fn view(&self) -> ReplyView {
        match self {
            BatchReply::Contains(b) => ReplyView::Contains(*b),
            BatchReply::Get(d) => ReplyView::Get(match d {
                Some(v) => Some(v@),
                None => None,
            }),
        }
    }
}

/// The models of a list of answers.
pub open spec fn replies(s: Seq<BatchReply>) -> Seq<ReplyView> {
    s.map_values(|x: BatchReply| x@)
}

impl View for BatchOp {
    type V = OpView;

    open spec fn view(&self) -> OpView {
        match self {
            BatchOp::Insert { cid, data } => OpView::Insert(cid@, data@),
            BatchOp::Contains { cid } => OpView::Contains(cid@),
            BatchOp::Get { cid } => OpView::Get(cid@),
            BatchOp::Abort => OpView::Abort,
        }
    }
}

/// The outcome of running `ops` one after the other on `v`: the final store
/// and the answers of the reads, or the first error.
pub open spec fn batch_spec(v: StoreView, ops: Seq<OpView>) -> Result<(StoreView, Seq<ReplyView>), StoreError>
    decreases ops.len(),
{
    if ops.len() == 0 {
        Ok((v, seq![]))
    } else {
        match batch_spec(v, ops.drop_last()) {
            Err(e) => Err(e),
            Ok((w, out)) => match ops.last() {
                OpView::Insert(c, d) => match w.insert_spec(c, d, false).1 {
                    Ok(_) => Ok((w.insert_spec(c, d, false).0, out)),
                    Err(e) => Err(e),
                },
                OpView::Contains(c) => Ok((w, out.push(ReplyView::Contains(w.has(c))))),
                OpView::Get(c) => Ok((w, out.push(ReplyView::Get(w.data_of(c))))),
                OpView::Abort => Err(StoreError::Aborted),
            },
        }
    }
}

/// Inserting only appends blocks.
proof fn lemma_batch_appends(v: StoreView, ops: Seq<OpView>)
    ensures
        match batch_spec(v, ops) {
            Ok((w, out)) => w.blocks.len() >= v.blocks.len() && w.blocks.subrange(0, v.blocks.len() as int) == v.blocks
                && w.aliases == v.aliases && w.pins == v.pins && w.next_pin == v.next_pin
                && w.cache_size == v.cache_size,
            Err(_) => true,
        },
    decreases ops.len(),
{
    if ops.len() > 0 {
        lemma_batch_appends(v, ops.drop_last());
        match batch_spec(v, ops.drop_last()) {
            Ok((w, out)) => {
                match ops.last() {
                    OpView::Insert(c, d) => {
                        let w2 = w.insert_spec(c, d, false).0;
                        assert(w2.blocks.subrange(0, v.blocks.len() as int) =~= v.blocks);
                    },
                    _ => {},
                }
            },
            Err(_) => {},
        }
    }
}

impl BlockStore {
    /// Runs the operations of a batch in order. Reads see the batch's earlier
    /// writes. On the first failed insert, or on `Abort`, every write of the
    /// batch is undone and the error is returned.
    pub fn batch_ops(&mut self, ops: &Vec<BatchOp>) -> (r: Result<Vec<BatchReply>, StoreError>)
        requires
            old(self).wf(),
        ensures
            final(self).wf(),
            match batch_spec(old(self)@, ops@.map_values(|o: BatchOp| o@)) {
                Ok((w, out)) => r is Ok && final(self)@ == w && replies(r.unwrap()@) == out,
                Err(e) => r == Err::<Vec<BatchReply>, StoreError>(e) && final(self)@ == old(self)@,
            },
    {
        let ghost v = self@;
        let ghost all = ops@.map_values(|o: BatchOp| o@);
        let base = self.len();
        let mut out: Vec<BatchReply> = Vec::new();
        assert(replies(out@) =~= seq![]);
        assert(all.subrange(0, 0) =~= seq![]);
        let mut k: usize = 0;
        while k < ops.len()
            invariant
                self.wf(),
                v == old(self)@,
                base == v.blocks.len(),
                all == ops@.map_values(|o: BatchOp| o@),
                0 <= k <= ops@.len(),
                batch_spec(v, all.subrange(0, k as int)) == Ok::<(StoreView, Seq<ReplyView>), StoreError>((self@, replies(out@))),
            decreases ops@.len() - k,
        {
            assert(all.subrange(0, k + 1).drop_last() =~= all.subrange(0, k as int));
            assert(all.subrange(0, k + 1).last() == ops@[k as int]@);
            proof { lemma_batch_appends(v, all.subrange(0, k as int)); }
            match &ops[k] {
                BatchOp::Insert { cid, data } => {
                    match self.insert(cid, data) {
                        Ok(()) => {},
                        Err(e) => {
                            self.truncate_blocks(base);
                            proof {
                                assert(self@.blocks =~= v.blocks);
                                assert(self@ == v);
                                lemma_batch_err_sticks(v, all, k as int + 1);
                            }
                            return Err(e);
                        },
                    }
                },
                BatchOp::Contains { cid } => {
                    let present = self.contains(cid);
                    let ghost before = replies(out@);
                    out.push(BatchReply::Contains(present));
                    assert(replies(out@) =~= before.push(ReplyView::Contains(present)));
                },
                BatchOp::Get { cid } => {
                    let data = self.get(cid);
                    let ghost dv: Option<Seq<u8>> = match &data {
                        Some(d) => Some(d@),
                        None => None,
                    };
                    let ghost before = replies(out@);
                    out.push(BatchReply::Get(data));
                    assert(replies(out@) =~= before.push(ReplyView::Get(dv)));
                },
                BatchOp::Abort => {
                    self.truncate_blocks(base);
                    proof {
                        assert(self@.blocks =~= v.blocks);
                        assert(self@ == v);
                        lemma_batch_err_sticks(v, all, k as int + 1);
                    }
                    return Err(StoreError::Aborted);
                },
            }
            k = k + 1;
        }
        assert(all.subrange(0, ops@.len() as int) =~= all);
        Ok(out)
    }
}

/// Once a prefix of a batch fails, the whole batch fails with the same error.
proof fn lemma_batch_err_sticks(v: StoreView, ops: Seq<OpView>, k: int)
    requires
        0 <= k <= ops.len(),
        batch_spec(v, ops.subrange(0, k)) is Err,
    ensures
        batch_spec(v, ops) == batch_spec(v, ops.subrange(0, k)),
    decreases ops.len() - k,
{
    if k < ops.len() {
        assert(ops.subrange(0, k + 1).drop_last() =~= ops.subrange(0, k));
        lemma_batch_err_sticks(v, ops, k + 1);
    } else {
        assert(ops.subrange(0, k) =~= ops);
    }
}

} // verus!
