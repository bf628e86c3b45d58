//! Block proposals: a block with the digest of its header, as consensus
//! passes them around.

use vstd::prelude::*;
use crate::trusted::{blake3_digest, blake3_of};

verus! {

/// A block header: version, the hash of the previous block, the height and
/// the timestamp the block was proposed at, and the mining nonce.
pub struct Header {
    pub version: u8,
    pub previous: Vec<u8>,
    pub height: u32,
    pub timestamp: u64,
    pub nonce: u64,
}

/// A block: its header and the hashes of its transactions.
pub struct BlockInfo {
    pub header: Header,
    pub txs: Vec<Vec<u8>>,
}

/// The serialized form of a header: the version byte, the previous hash,
/// then height, timestamp and nonce in little-endian order.
pub open spec fn header_bytes(h: &Header) -> Seq<u8> {
    seq![h.version] + h.previous@ + le_bytes(h.height as nat, 4) + le_bytes(h.timestamp as nat, 8)
        + le_bytes(h.nonce as nat, 8)
}

/// `width` little-endian bytes of `n`.
pub open spec fn le_bytes(n: nat, width: nat) -> Seq<u8>
    decreases width,
{
    if width == 0 {
        Seq::<u8>::empty()
    } else {
        seq![(n % 256) as u8] + le_bytes(n / 256, (width - 1) as nat)
    }
}

/// The digest a block is named by: the hash of its serialized header.
pub open spec fn block_hash(b: &BlockInfo) -> Seq<u8> {
    blake3_of(header_bytes(&b.header))
}

/// Append `width` little-endian bytes of `n`.
fn push_le_bytes(out: &mut Vec<u8>, n: u64, width: usize)
    ensures
        final(out)@ == old(out)@ + le_bytes(n as nat, width as nat),
    decreases width,
{
    if width == 0 {
        proof {
            assert(out@ =~= old(out)@ + le_bytes(n as nat, 0));
        }
    } else {
        out.push((n % 256) as u8);
        push_le_bytes(out, n / 256, width - 1);
        proof {
            assert(out@ =~= old(out)@ + le_bytes(n as nat, width as nat));
        }
    }
}

impl BlockInfo {
    /// Serialize the header.
    pub fn header_to_bytes(&self) -> (r: Vec<u8>)
        ensures
            r@ == header_bytes(&self.header),
    {
        let mut out: Vec<u8> = Vec::new();
        out.push(self.header.version);
        let mut i: usize = 0;
        while i < self.header.previous.len()
            invariant
                0 <= i <= self.header.previous@.len(),
                out@ == seq![self.header.version] + self.header.previous@.take(i as int),
            decreases self.header.previous@.len() - i,
        {
            out.push(self.header.previous[i]);
            proof {
                assert(out@ =~= seq![self.header.version] + self.header.previous@.take(i + 1));
            }
            i += 1;
        }
        proof {
            assert(self.header.previous@.take(self.header.previous@.len() as int)
                =~= self.header.previous@);
        }
        push_le_bytes(&mut out, self.header.height as u64, 4);
        push_le_bytes(&mut out, self.header.timestamp, 8);
        push_le_bytes(&mut out, self.header.nonce, 8);
        proof {
            assert(out@ =~= header_bytes(&self.header));
        }
        out
    }

    /// The digest of this block's header.
    pub fn hash(&self) -> (r: Vec<u8>)
        ensures
            r@ == block_hash(self),
            r@.len() == 32,
    {
        let bytes = self.header_to_bytes();
        blake3_digest(&bytes)
    }
}

/// A block proposal: the block and its digest.
pub struct Proposal {
    /// The block's hash.
    pub hash: Vec<u8>,
    /// The block's data.
    pub block: BlockInfo,
}

impl Proposal {
    /// A proposal for a block, named by the block's header digest.
    pub fn new(block: BlockInfo) -> (r: Proposal)
        ensures
            r.hash@ == block_hash(&r.block),
            r.hash@.len() == 32,
            r.block.header == block.header,
            r.block.txs@ == block.txs@,
    {
        let hash = block.hash();
        Proposal { hash, block }
    }
}

} // verus!
