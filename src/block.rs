//! A block: a fixed-size header followed by a batch of transactions.
use vstd::prelude::*;

use vstd::slice::slice_subrange;

use crate::codec::{get_array, put_array, varint, varint_bytes};
use crate::transaction::TransactionModel;
use crate::transactions::{
    batch_bytes, batch_valid, lemma_batch_round_trip, parse_batch, txs_bytes, CodecError,
    Transactions,
};

verus! {

/// Length in bytes of a block header.
pub const HEADER_SIZE: usize = 112;

/// A block header, kept as its fixed-size encoding.
#[derive(Clone, Copy, Debug, PartialEq, Eq)]
pub struct BlockHeader {
    pub bytes: [u8; HEADER_SIZE],
}

impl BlockHeader {
    /// Length in bytes of every header's encoding.
    pub fn size() -> (r: usize)
        ensures
            r == HEADER_SIZE,
    {
        HEADER_SIZE
    }

    /// The header's fixed-size encoding.
    pub fn serialize(&self) -> (r: [u8; HEADER_SIZE])
        ensures
            r@ == self.bytes@,
    {
        self.bytes
    }

    /// The header whose encoding is `bytes`.
    pub fn deserialize(bytes: &[u8; HEADER_SIZE]) -> (r: BlockHeader)
        ensures
            r.bytes@ == bytes@,
    {
        BlockHeader { bytes: *bytes }
    }
}

/// A header followed by the transactions of the block.
#[derive(Clone, Debug, PartialEq, Eq)]
pub struct Block {
    /// The block header.
    pub header: BlockHeader,
    /// The block's transactions, in block order.
    pub transactions: Transactions,
}

/// The mathematical value of a block.
pub struct BlockModel {
    pub header: Seq<u8>,
    pub transactions: Seq<TransactionModel>,
}

impl View for Block {
    type V = BlockModel;

    open spec fn view(&self) -> BlockModel {
        BlockModel { header: self.header.bytes@, transactions: self.transactions@ }
    }
}

/// A block model that some `Block` value can have.
pub open spec fn block_valid(b: BlockModel) -> bool {
    &&& b.header.len() == HEADER_SIZE
    &&& batch_valid(b.transactions)
}

/// The encoding of a block as the header's bytes followed by the batch's encoding.
pub open spec fn block_bytes(b: BlockModel) -> Seq<u8> {
    b.header + batch_bytes(b.transactions)
}

/// The bytes of a block laid out field by field: header, transaction count,
/// then each transaction.
pub open spec fn block_layout(b: BlockModel) -> Seq<u8> {
    b.header + varint_bytes(b.transactions.len() as u64) + txs_bytes(b.transactions)
}

/// Reads a block at the start of `s`, with the number of bytes it takes.
pub open spec fn parse_block(s: Seq<u8>) -> Option<(BlockModel, nat)> {
    if s.len() < HEADER_SIZE {
        None
    } else {
        match parse_batch(s.skip(HEADER_SIZE as int)) {
            None => None,
            Some((ts, n)) => Some(
                (BlockModel { header: s.take(HEADER_SIZE as int), transactions: ts }, HEADER_SIZE as nat + n),
            ),
        }
    }
}

/// A block reads back as itself from its encoding, whatever follows it.
pub proof fn lemma_block_round_trip(b: BlockModel, rest: Seq<u8>)
    requires
        block_valid(b),
    ensures
        parse_block(block_bytes(b) + rest) == Some((b, block_bytes(b).len())),
{
    let e = block_bytes(b) + rest;
    assert(e.skip(HEADER_SIZE as int) =~= batch_bytes(b.transactions) + rest);
    assert(e.take(HEADER_SIZE as int) =~= b.header);
    lemma_batch_round_trip(b.transactions, rest);
}

/// Writing a block to a stream and serializing it give the same bytes.
pub proof fn lemma_write_matches_serialize(b: BlockModel)
    ensures
        block_bytes(b) == block_layout(b),
{
    assert(block_bytes(b) =~= block_layout(b));
}

impl Block {
    /// Appends the block's encoding to `out`: the header, then the batch.
    pub fn write(&self, out: &mut Vec<u8>)
        ensures
            final(out)@ == old(out)@ + block_bytes(self@),
    {
        put_array(out, &self.header.bytes);
        self.transactions.write(out);
        assert(final(out)@ =~= old(out)@ + block_bytes(self@));
    }

    /// Reads a block at the start of `bytes`: the block and the number of
    /// bytes it takes; bytes after it are left alone.
    pub fn read(bytes: &[u8]) -> (r: Result<(Block, usize), CodecError>)
        ensures
            bytes@.len() < HEADER_SIZE ==> r == Err::<(Block, usize), CodecError>(
                CodecError::HeaderTooShort,
            ),
            bytes@.len() >= HEADER_SIZE ==> match parse_block(bytes@) {
                None => r == Err::<(Block, usize), CodecError>(CodecError::Malformed),
                Some((b, n)) => r is Ok && r.unwrap().0@ == b && r.unwrap().1 == n,
            },
    {
        let header_bytes: [u8; HEADER_SIZE] = match get_array(bytes) {
            None => return Err(CodecError::HeaderTooShort),
            Some(a) => a,
        };
        let header = BlockHeader::deserialize(&header_bytes);
        match Transactions::read_at(bytes, HEADER_SIZE) {
            Err(e) => Err(e),
            Ok((transactions, end)) => Ok((Block { header, transactions }, end)),
        }
    }

    /// The block's encoding as a new byte vector, laid out field by field.
    pub fn serialize(&self) -> (r: Vec<u8>)
        ensures
            r@ == block_layout(self@),
    {
        let mut serialization: Vec<u8> = Vec::new();
        put_array(&mut serialization, &self.header.serialize());
        let count = varint(self.transactions.len() as u64);
        let mut i: usize = 0;
        while i < count.len()
            invariant
                0 <= i <= count@.len(),
                serialization@ == self.header.bytes@ + count@.take(i as int),
            decreases count@.len() - i,
        {
            serialization.push(count[i]);
            i = i + 1;
            assert(count@.take(i as int) =~= count@.take(i - 1).push(count@[i - 1]));
        }
        assert(count@.take(i as int) =~= count@);
        let ghost start = serialization@;
        let mut i: usize = 0;
        while i < self.transactions.len()
            invariant
                0 <= i <= self@.transactions.len(),
                serialization@ == start + txs_bytes(self@.transactions.take(i as int)),
                start == self.header.bytes@ + varint_bytes(self@.transactions.len() as u64),
            decreases self@.transactions.len() - i,
        {
            self.transactions.get(i).write(&mut serialization);
            i = i + 1;
            assert(self@.transactions.take(i as int).drop_last() =~= self@.transactions.take(i - 1));
        }
        assert(self@.transactions.take(i as int) =~= self@.transactions);
        serialization
    }

    /// The block encoded in `bytes`: a header of `HEADER_SIZE` bytes, then a
    /// batch; bytes after the batch are ignored. Input shorter than a header
    /// is refused.
    pub fn deserialize(bytes: &[u8]) -> (r: Result<Block, CodecError>)
        ensures
            bytes@.len() < HEADER_SIZE ==> r == Err::<Block, CodecError>(CodecError::HeaderTooShort),
            bytes@.len() >= HEADER_SIZE ==> match parse_block(bytes@) {
                None => r == Err::<Block, CodecError>(CodecError::Malformed),
                Some((b, n)) => r is Ok && r.unwrap()@ == b,
            },
    {
        if bytes.len() < HEADER_SIZE {
            return Err(CodecError::HeaderTooShort);
        }
        let header_part = slice_subrange(bytes, 0, HEADER_SIZE);
        let header_array: [u8; HEADER_SIZE] = get_array(header_part).unwrap();
        let header = BlockHeader::deserialize(&header_array);
        let rest = slice_subrange(bytes, HEADER_SIZE, bytes.len());
        assert(rest@ =~= bytes@.skip(HEADER_SIZE as int));
        assert(header_part@.take(HEADER_SIZE as int) =~= bytes@.take(HEADER_SIZE as int));
        match Transactions::read(rest) {
            Err(e) => Err(e),
            Ok((transactions, _)) => Ok(Block { header, transactions }),
        }
    }
}

} // verus!
