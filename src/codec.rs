//! The calls into libipld: hash verification and reference extraction.
//! CIDs travel through the library in their binary encoding.
use vstd::prelude::*;
use libipld::cid::Cid;
use libipld::store::DefaultParams;
use libipld::Block;
use std::convert::TryFrom;
use crate::cbor::{cbor_wf, DAG_CBOR};

verus! {

/// Whether `data` hashes to the multihash of the CID encoded as `cid`.
pub uninterp spec fn hash_ok(cid: Seq<u8>, data: Seq<u8>) -> bool;

/// The CIDs that the codec of `cid` finds in `data`, in the codec's order;
/// `None` when the codec is unknown or its walk over `data` fails.
pub uninterp spec fn references_of(cid: Seq<u8>, data: Seq<u8>) -> Option<Seq<Seq<u8>>>;

/// The codec code of the CID encoded as `cid`; `None` when it is no CID.
pub uninterp spec fn codec_of(cid: Seq<u8>) -> Option<u64>;

/// Relies on `Cid::try_from(&[u8])` and `Cid::codec`: the codec code that
/// the CID names.
#[verifier::external_body]
pub(crate) fn cid_codec(cid: &Vec<u8>) -> (r: Option<u64>)
    ensures
        r == codec_of(cid@),
{
    Cid::try_from(cid.as_slice()).ok().map(|c| c.codec())
}

/// Relies on `Cid::try_from(&[u8])` and `Block::<DefaultParams>::new`, which
/// recomputes the multihash of the data and compares it with the CID's.
#[verifier::external_body]
pub(crate) fn verify_hash(cid: &Vec<u8>, data: &Vec<u8>) -> (r: bool)
    ensures
        r == hash_ok(cid@, data@),
{
    match Cid::try_from(cid.as_slice()) {
        Ok(c) => Block::<DefaultParams>::new(c, data.clone()).is_ok(),
        Err(_) => false,
    }
}

/// Relies on `Block::references`, which walks `data` under the codec named
/// by the CID and collects the CIDs it links to; each is re-encoded to bytes.
/// The DAG-CBOR walk skips strings by seeking and follows the lengths it
/// reads, so DAG-CBOR data must first pass the structural check.
#[verifier::external_body]
pub(crate) fn extract_references(cid: &Vec<u8>, data: &Vec<u8>) -> (r: Option<Vec<Vec<u8>>>)
    requires
        codec_of(cid@) == Some(DAG_CBOR) ==> cbor_wf(data@),
    ensures
        match r {
            Some(v) => references_of(cid@, data@) == Some(crate::bytes::views(v@)),
            None => references_of(cid@, data@) is None,
        },
{
    let c = Cid::try_from(cid.as_slice()).ok()?;
    let block = Block::<DefaultParams>::new_unchecked(c, data.clone());
    let mut found: Vec<Cid> = Vec::new();
    block.references(&mut found).ok()?;
    Some(found.iter().map(|c| c.to_bytes()).collect())
}

} // verus!
