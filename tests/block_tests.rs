use dpc_block::block::{Block, BlockHeader, HEADER_SIZE};
use dpc_block::transaction::Transaction;
use dpc_block::transactions::{CodecError, Transactions};

fn tx(network: u8, serials: &[u64], commitments: &[u64], memo: u64) -> Transaction {
    Transaction {
        network,
        old_serial_numbers: serials.to_vec(),
        new_commitments: commitments.to_vec(),
        memorandum: memo,
        id: [memo as u8; 32],
    }
}

fn header(fill: u8) -> BlockHeader {
    let mut bytes = [0u8; HEADER_SIZE];
    for (i, b) in bytes.iter_mut().enumerate() {
        *b = fill.wrapping_add(i as u8);
    }
    BlockHeader { bytes }
}

fn sample_block() -> Block {
    let txs = vec![tx(1, &[10, 11], &[20], 100), tx(1, &[12], &[21, 22], 101), tx(1, &[], &[], 102)];
    Block { header: header(3), transactions: Transactions::from(&txs) }
}

#[test]
fn conflict_scenario_fresh_serial_reused_serial_reused_memo() {
    let batch = Transactions::from(&[tx(1, &[1], &[1001], 500)]);
    assert!(!batch.conflicts(&tx(1, &[2], &[1002], 501)));
    assert!(batch.conflicts(&tx(1, &[1], &[1003], 502)));
    assert!(batch.conflicts(&tx(1, &[3], &[1004], 500)));
}

#[test]
fn reused_commitment_conflicts() {
    let batch = Transactions::from(&[tx(1, &[1], &[1001], 500)]);
    assert!(batch.conflicts(&tx(1, &[2], &[1001], 501)));
}

#[test]
fn duplicate_serial_conflicts_with_empty_batch() {
    let batch = Transactions::new();
    assert!(batch.conflicts(&tx(1, &[7, 8, 7], &[1], 1)));
    assert!(!batch.conflicts(&tx(1, &[7, 8], &[1], 1)));
}

#[test]
fn duplicate_commitment_conflicts_with_empty_batch() {
    let batch = Transactions::new();
    assert!(batch.conflicts(&tx(1, &[7], &[4, 4], 1)));
}

#[test]
fn other_network_conflicts_without_overlap() {
    let batch = Transactions::from(&[tx(1, &[1], &[2], 3), tx(1, &[4], &[5], 6)]);
    assert!(batch.conflicts(&tx(2, &[100], &[200], 300)));
    assert!(Transactions::new().conflicts(&tx(2, &[100], &[200], 300)) == false);
}

#[test]
fn member_order_does_not_change_verdict() {
    let a = tx(1, &[1], &[2], 3);
    let b = tx(1, &[4], &[5], 6);
    let c = tx(1, &[7], &[8], 9);
    let one = Transactions::from(&[a.clone(), b.clone(), c.clone()]);
    let two = Transactions::from(&[c, a, b]);
    for cand in [tx(1, &[4], &[50], 60), tx(1, &[40], &[50], 60), tx(1, &[40], &[8], 60), tx(1, &[40], &[50], 3)] {
        assert_eq!(one.conflicts(&cand), two.conflicts(&cand));
    }
}

#[test]
fn disjoint_candidate_does_not_conflict() {
    let batch = Transactions::from(&[tx(1, &[1, 2], &[3, 4], 5), tx(1, &[6], &[7], 8)]);
    assert!(!batch.conflicts(&tx(1, &[9, 10], &[11, 12], 13)));
}

#[test]
fn new_is_empty_and_from_keeps_order() {
    let empty = Transactions::new();
    assert!(empty.is_empty());
    assert_eq!(empty.len(), 0);
    let txs = vec![tx(1, &[1], &[2], 3), tx(1, &[4], &[5], 6)];
    let batch = Transactions::from(&txs);
    assert_eq!(batch.len(), 2);
    assert_eq!(batch.get(0), &txs[0]);
    assert_eq!(batch.get(1), &txs[1]);
}

#[test]
fn push_appends() {
    let mut batch = Transactions::new();
    batch.push(tx(1, &[1], &[2], 3));
    batch.push(tx(1, &[4], &[5], 6));
    assert_eq!(batch.len(), 2);
    assert_eq!(batch.get(1).memorandum, 6);
}

#[test]
fn transaction_ids_in_order() {
    let batch = Transactions::from(&[tx(1, &[1], &[2], 3), tx(1, &[4], &[5], 6)]);
    let ids = batch.to_transaction_ids();
    assert_eq!(ids, vec![[3u8; 32], [6u8; 32]]);
}

#[test]
fn transaction_encoding_exact_bytes() {
    let t = Transaction {
        network: 1,
        old_serial_numbers: vec![0x0102030405060708],
        new_commitments: vec![2, 3],
        memorandum: 0x1122,
        id: [7u8; 32],
    };
    let mut out = Vec::new();
    t.write(&mut out);
    let mut expected = vec![1u8, 1, 8, 7, 6, 5, 4, 3, 2, 1, 2, 2, 0, 0, 0, 0, 0, 0, 0, 3, 0, 0, 0, 0, 0, 0, 0];
    expected.extend_from_slice(&[0x22, 0x11, 0, 0, 0, 0, 0, 0]);
    expected.extend_from_slice(&[7u8; 32]);
    assert_eq!(out, expected);
    let (back, end) = Transaction::read(&out, 0).unwrap();
    assert_eq!(back, t);
    assert_eq!(end, out.len());
}

#[test]
fn batch_serialize_each() {
    let batch = Transactions::from(&[tx(1, &[1], &[], 2), tx(9, &[], &[5], 4)]);
    let each = batch.serialize();
    assert_eq!(each.len(), 2);
    let mut first = vec![1u8, 1, 1, 0, 0, 0, 0, 0, 0, 0, 0, 2, 0, 0, 0, 0, 0, 0, 0];
    first.extend_from_slice(&[2u8; 32]);
    assert_eq!(each[0], first);
    let mut one = Vec::new();
    batch.get(1).write(&mut one);
    assert_eq!(each[1], one);
}

#[test]
fn batch_serialize_as_hex() {
    let batch = Transactions::from(&[tx(0xab, &[], &[], 0x10)]);
    let strs = batch.serialize_as_str();
    assert_eq!(strs.len(), 1);
    let expected = format!("ab00001000000000000000{}", "10".repeat(32));
    assert_eq!(strs[0], expected);
}

#[test]
fn batch_round_trip() {
    let batch = Transactions::from(&[tx(1, &[1, 2], &[3], 4), tx(1, &[], &[5, 6], 7)]);
    let mut out = Vec::new();
    batch.write(&mut out);
    out.extend_from_slice(&[0xee, 0xee]);
    let (back, used) = Transactions::read(&out).unwrap();
    assert_eq!(back, batch);
    assert_eq!(used, out.len() - 2);
}

#[test]
fn large_batch_count_prefix() {
    let txs: Vec<Transaction> = (0..253u64).map(|i| tx(1, &[i], &[1000 + i], i)).collect();
    let batch = Transactions::from(&txs);
    let mut out = Vec::new();
    batch.write(&mut out);
    assert_eq!(&out[0..3], &[0xfd, 0xfd, 0x00]);
    let (back, used) = Transactions::read(&out).unwrap();
    assert_eq!(back, batch);
    assert_eq!(used, out.len());
}

#[test]
fn truncated_count_is_an_error() {
    assert_eq!(Transactions::read(&[0xfd, 0x01]), Err(CodecError::Malformed));
    assert_eq!(Transactions::read(&[]), Err(CodecError::Malformed));
    let mut bytes = header(0).bytes.to_vec();
    bytes.push(0xfe);
    assert_eq!(Block::deserialize(&bytes), Err(CodecError::Malformed));
}

#[test]
fn count_not_in_shortest_form_is_an_error() {
    assert_eq!(Transactions::read(&[0xfd, 0x05, 0x00]), Err(CodecError::Malformed));
    assert_eq!(Transactions::read(&[0x00]).unwrap().0, Transactions::new());
}

#[test]
fn truncated_transaction_is_an_error() {
    let batch = Transactions::from(&[tx(1, &[1], &[2], 3)]);
    let mut out = Vec::new();
    batch.write(&mut out);
    out.pop();
    assert_eq!(Transactions::read(&out), Err(CodecError::Malformed));
}

#[test]
fn short_input_to_deserialize_is_an_error() {
    assert_eq!(Block::deserialize(&[1, 2, 3]), Err(CodecError::HeaderTooShort));
    assert_eq!(Block::deserialize(&[]), Err(CodecError::HeaderTooShort));
    assert!(matches!(Block::read(&[0u8; HEADER_SIZE - 1]), Err(CodecError::HeaderTooShort)));
}

#[test]
fn block_round_trip_both_paths() {
    let block = sample_block();
    let mut written = Vec::new();
    block.write(&mut written);
    let (back, used) = Block::read(&written).unwrap();
    assert_eq!(back, block);
    assert_eq!(used, written.len());
    let serialized = block.serialize();
    assert_eq!(Block::deserialize(&serialized).unwrap(), block);
}

#[test]
fn write_and_serialize_agree() {
    let block = sample_block();
    let mut written = Vec::new();
    block.write(&mut written);
    assert_eq!(written, block.serialize());
    let empty = Block { header: header(9), transactions: Transactions::new() };
    let mut w = Vec::new();
    empty.write(&mut w);
    assert_eq!(w, empty.serialize());
    assert_eq!(w.len(), HEADER_SIZE + 1);
    assert_eq!(w[HEADER_SIZE], 0);
}

#[test]
fn block_layout_starts_with_header() {
    let block = sample_block();
    let bytes = block.serialize();
    assert_eq!(&bytes[0..HEADER_SIZE], &block.header.serialize()[..]);
    assert_eq!(bytes[HEADER_SIZE], 3);
    assert_eq!(BlockHeader::size(), HEADER_SIZE);
    assert_eq!(BlockHeader::deserialize(&block.header.serialize()), block.header);
}

#[test]
fn deserialize_ignores_trailing_bytes() {
    let block = sample_block();
    let mut bytes = block.serialize();
    bytes.extend_from_slice(&[1, 2, 3]);
    assert_eq!(Block::deserialize(&bytes).unwrap(), block);
}
