//! An ordered batch of transactions and its conflict check.
use vstd::prelude::*;

use vstd::slice::slice_subrange;

use crate::codec::{lemma_varint_round_trip, parse_varint, platform_count, read_varint, varint, varint_bytes};
use crate::transaction::{
    contains_duplicate, contains_value, lemma_tx_round_trip, parse_tx, tx_bytes, tx_model_valid,
    Transaction, TransactionModel,
};

verus! {

/// The transactions of a block, in block order.
#[derive(Clone, Debug, PartialEq, Eq)]
pub struct Transactions(pub Vec<Transaction>);

/// The models of a sequence of transactions.
pub open spec fn models(txs: Seq<Transaction>) -> Seq<TransactionModel> {
    txs.map_values(|t: Transaction| t@)
}

impl View for Transactions {
    type V = Seq<TransactionModel>;

    open spec fn view(&self) -> Seq<TransactionModel> {
        models(self.0@)
    }
}

/// Whether the batch member `x` rules out the candidate `t`: another network,
/// the same memorandum, or a serial number or commitment in common.
pub open spec fn clashes(x: TransactionModel, t: TransactionModel) -> bool {
    ||| x.network != t.network
    ||| x.memo == t.memo
    ||| exists|j: int| 0 <= j < t.serials.len() && #[trigger] x.serials.contains(t.serials[j])
    ||| exists|j: int| 0 <= j < t.commitments.len() && #[trigger] x.commitments.contains(t.commitments[j])
}

/// Whether the candidate `t` conflicts with the batch `batch`: it repeats a
/// serial number or a commitment of its own, or clashes with some member.
pub open spec fn conflicts_with(batch: Seq<TransactionModel>, t: TransactionModel) -> bool {
    ||| !t.serials.no_duplicates()
    ||| !t.commitments.no_duplicates()
    ||| exists|x: TransactionModel| #[trigger] batch.contains(x) && clashes(x, t)
}

/// Whether `v` is a serial number of one of the first `k` members of `batch`.
pub open spec fn serial_taken(batch: Seq<TransactionModel>, k: int, v: u64) -> bool {
    exists|i: int| 0 <= i < k && #[trigger] batch[i].serials.contains(v)
}

/// Whether `v` is a commitment of one of the first `k` members of `batch`.
pub open spec fn commitment_taken(batch: Seq<TransactionModel>, k: int, v: u64) -> bool {
    exists|i: int| 0 <= i < k && #[trigger] batch[i].commitments.contains(v)
}

/// Why bytes could not be read back as a batch or a block.
#[derive(Clone, Copy, Debug, PartialEq, Eq)]
pub enum CodecError {
    /// The input is shorter than a block header.
    HeaderTooShort,
    /// The bytes are not the encoding of a batch: truncated, a count not in
    /// its shortest form, or a transaction that does not decode.
    Malformed,
}

/// The encodings of the transactions, one after another.
pub open spec fn txs_bytes(ts: Seq<TransactionModel>) -> Seq<u8>
    decreases ts.len(),
{
    if ts.len() == 0 {
        Seq::empty()
    } else {
        txs_bytes(ts.drop_last()) + tx_bytes(ts.last())
    }
}

/// The encoding of a batch: the number of transactions as a variable-length
/// integer, then each transaction in order.
pub open spec fn batch_bytes(ts: Seq<TransactionModel>) -> Seq<u8> {
    varint_bytes(ts.len() as u64) + txs_bytes(ts)
}

/// Reads `c` transactions one after another at the start of `s`.
pub open spec fn parse_txs(s: Seq<u8>, c: nat) -> Option<(Seq<TransactionModel>, nat)>
    decreases c,
{
    if c == 0 {
        Some((Seq::empty(), 0))
    } else {
        match parse_tx(s) {
            None => None,
            Some((t, m)) => match parse_txs(s.skip(m as int), (c - 1) as nat) {
                None => None,
                Some((r, n)) => Some((seq![t] + r, m + n)),
            },
        }
    }
}

/// Reads a batch at the start of `s`, with the number of bytes it takes.
pub open spec fn parse_batch(s: Seq<u8>) -> Option<(Seq<TransactionModel>, nat)> {
    match parse_varint(s) {
        None => None,
        Some((c, m)) => match parse_txs(s.skip(m as int), platform_count(c)) {
            None => None,
            Some((r, n)) => Some((r, m + n)),
        },
    }
}

/// A batch that some `Transactions` value can have.
pub open spec fn batch_valid(ts: Seq<TransactionModel>) -> bool {
    &&& ts.len() <= usize::MAX
    &&& forall|i: int| 0 <= i < ts.len() ==> tx_model_valid(#[trigger] ts[i])
}

/// Splits the encoding of a non-empty run of transactions into its first and the rest.
pub proof fn lemma_txs_bytes_first(ts: Seq<TransactionModel>)
    requires
        ts.len() > 0,
    ensures
        txs_bytes(ts) == tx_bytes(ts[0]) + txs_bytes(ts.drop_first()),
    decreases ts.len(),
{
    if ts.len() == 1 {
        assert(ts.drop_last() =~= Seq::<TransactionModel>::empty());
        assert(ts.drop_first() =~= Seq::<TransactionModel>::empty());
        assert(txs_bytes(ts) =~= tx_bytes(ts[0]) + txs_bytes(ts.drop_first()));
    } else {
        lemma_txs_bytes_first(ts.drop_last());
        assert(ts.drop_last().drop_first() =~= ts.drop_first().drop_last());
        assert(txs_bytes(ts) =~= tx_bytes(ts[0]) + txs_bytes(ts.drop_first()));
    }
}

/// A run of transactions reads back as itself, whatever follows it.
pub proof fn lemma_txs_round_trip(ts: Seq<TransactionModel>, rest: Seq<u8>)
    requires
        forall|i: int| 0 <= i < ts.len() ==> tx_model_valid(#[trigger] ts[i]),
    ensures
        parse_txs(txs_bytes(ts) + rest, ts.len()) == Some((ts, txs_bytes(ts).len())),
    decreases ts.len(),
{
    if ts.len() > 0 {
        lemma_txs_bytes_first(ts);
        let tail = ts.drop_first();
        assert forall|i: int| 0 <= i < tail.len() implies tx_model_valid(#[trigger] tail[i]) by {
            assert(tail[i] == ts[i + 1]);
        }
        lemma_txs_round_trip(tail, rest);
        assert(tx_model_valid(ts[0]));
        lemma_tx_round_trip(ts[0], txs_bytes(tail) + rest);
        let e = txs_bytes(ts) + rest;
        assert(e =~= tx_bytes(ts[0]) + (txs_bytes(tail) + rest));
        assert(e.skip(tx_bytes(ts[0]).len() as int) =~= txs_bytes(tail) + rest);
        assert(seq![ts[0]] + tail =~= ts);
    }
}

/// A batch reads back as itself, whatever follows it.
pub proof fn lemma_batch_round_trip(ts: Seq<TransactionModel>, rest: Seq<u8>)
    requires
        batch_valid(ts),
    ensures
        parse_batch(batch_bytes(ts) + rest) == Some((ts, batch_bytes(ts).len())),
{
    let e = batch_bytes(ts) + rest;
    let v = varint_bytes(ts.len() as u64);
    lemma_varint_round_trip(ts.len() as u64, txs_bytes(ts) + rest);
    assert(e =~= v + (txs_bytes(ts) + rest));
    assert(e.skip(v.len() as int) =~= txs_bytes(ts) + rest);
    lemma_txs_round_trip(ts, rest);
    vstd::arithmetic::div_mod::lemma_small_mod(ts.len(), (usize::MAX + 1) as nat);
}

/// The lowercase hexadecimal digit of `d`, below sixteen.
pub open spec fn hex_digit(d: u8) -> char {
    seq!['0', '1', '2', '3', '4', '5', '6', '7', '8', '9', 'a', 'b', 'c', 'd', 'e', 'f'][d as int]
}

/// Each byte as two lowercase hexadecimal digits, high digit first.
pub open spec fn hex_of(b: Seq<u8>) -> Seq<char>
    decreases b.len(),
{
    if b.len() == 0 {
        Seq::empty()
    } else {
        hex_of(b.drop_last()) + seq![hex_digit(b.last() / 16), hex_digit(b.last() % 16)]
    }
}

/// Relies on hex::encode: two lowercase hexadecimal digits per byte, in order.
#[verifier::external_body]
fn to_hex(b: &Vec<u8>) -> (r: String)
    ensures
        r@ == hex_of(b@),
{
    hex::encode(b)
}

/// Reads `count` transactions one after another starting at `start`.
fn read_txs(bytes: &[u8], start: usize, count: usize) -> (r: Option<(Vec<Transaction>, usize)>)
    requires
        start <= bytes@.len(),
    ensures
        match parse_txs(bytes@.skip(start as int), count as nat) {
            None => r is None,
            Some((ts, n)) => r is Some && models(r.unwrap().0@) == ts && r.unwrap().1 == start + n,
        },
        r is Some ==> r.unwrap().1 <= bytes@.len(),
{
    let ghost s = bytes@;
    let mut txs: Vec<Transaction> = Vec::new();
    let mut cur: usize = start;
    let mut i: usize = 0;
    while i < count
        invariant
            s == bytes@,
            start <= cur <= s.len(),
            0 <= i <= count,
            parse_txs(s.skip(start as int), count as nat) == (match parse_txs(
                s.skip(cur as int),
                (count - i) as nat,
            ) {
                None => None,
                Some((r, n)) => Some((models(txs@) + r, (cur - start) as nat + n)),
            }),
        decreases count - i,
    {
        let (t, next) = match Transaction::read(bytes, cur) {
            None => return None,
            Some(x) => x,
        };
        assert(s.skip(cur as int).skip(next - cur) =~= s.skip(next as int));
        let ghost before = models(txs@);
        txs.push(t);
        assert(models(txs@) =~= before.push(t@));
        cur = next;
        i = i + 1;
        assert forall|r: Seq<TransactionModel>| before + (seq![t@] + r) =~= models(txs@) + r by {}
    }
    assert(models(txs@) + Seq::<TransactionModel>::empty() =~= models(txs@));
    Some((txs, cur))
}

/// A candidate that repeats one of its own serial numbers conflicts even with
/// an empty batch.
pub proof fn lemma_self_duplicate_conflicts(t: TransactionModel)
    requires
        !t.serials.no_duplicates(),
    ensures
        conflicts_with(Seq::<TransactionModel>::empty(), t),
{
}

/// The order of the batch's members does not matter: two batches holding the
/// same members, each as often, give the same verdict on every candidate.
pub proof fn lemma_conflicts_order_independent(
    b1: Seq<TransactionModel>,
    b2: Seq<TransactionModel>,
    t: TransactionModel,
)
    requires
        b1.to_multiset() == b2.to_multiset(),
    ensures
        conflicts_with(b1, t) == conflicts_with(b2, t),
{
    assert forall|x: TransactionModel| b1.contains(x) <==> b2.contains(x) by {
        vstd::seq_lib::to_multiset_contains(b1, x);
        vstd::seq_lib::to_multiset_contains(b2, x);
    }
}

/// In a non-empty batch whose members share network `n`, a candidate from
/// another network always conflicts, whatever its other fields hold.
pub proof fn lemma_other_network_conflicts(b: Seq<TransactionModel>, n: u8, t: TransactionModel)
    requires
        b.len() > 0,
        forall|i: int| 0 <= i < b.len() ==> #[trigger] b[i].network == n,
        t.network != n,
    ensures
        conflicts_with(b, t),
{
    assert(b.contains(b[0]) && clashes(b[0], t));
}

/// A candidate on the batch's network, without repeated serial numbers or
/// commitments of its own, and sharing no memorandum, serial number or
/// commitment with any member, does not conflict.
pub proof fn lemma_no_false_positive(b: Seq<TransactionModel>, t: TransactionModel)
    requires
        forall|i: int| 0 <= i < b.len() ==> #[trigger] b[i].network == t.network,
        t.serials.no_duplicates(),
        t.commitments.no_duplicates(),
        forall|i: int| 0 <= i < b.len() ==> #[trigger] b[i].memo != t.memo,
        forall|i: int, j: int|
            0 <= i < b.len() && 0 <= j < t.serials.len() ==> !(#[trigger] b[i].serials).contains(
                #[trigger] t.serials[j],
            ),
        forall|i: int, j: int|
            0 <= i < b.len() && 0 <= j < t.commitments.len() ==> !(#[trigger] b[i].commitments).contains(
                #[trigger] t.commitments[j],
            ),
    ensures
        !conflicts_with(b, t),
{
    assert forall|x: TransactionModel| #[trigger] b.contains(x) implies !clashes(x, t) by {
        let i = choose|i: int| 0 <= i < b.len() && b[i] == x;
        assert(b[i].network == t.network);
        assert(b[i].memo != t.memo);
    }
}

/// Appends every element of `src` to `dst`.
fn extend_values(dst: &mut Vec<u64>, src: &Vec<u64>)
    ensures
        final(dst)@ == old(dst)@ + src@,
{
    let mut i: usize = 0;
    while i < src.len()
        invariant
            0 <= i <= src@.len(),
            dst@ == old(dst)@ + src@.subrange(0, i as int),
        decreases src@.len() - i,
    {
        dst.push(src[i]);
        i = i + 1;
        assert(src@.subrange(0, i as int) == src@.subrange(0, i - 1) + seq![src@[i - 1]]);
    }
    assert(src@.subrange(0, i as int) == src@);
}

impl Transactions {
    /// An empty batch.
    pub fn new() -> (r: Self)
        ensures
            r@ == Seq::<TransactionModel>::empty(),
    {
        Transactions(Vec::new())
    }

    /// A batch holding copies of `transactions`, in the same order.
    pub fn from(transactions: &[Transaction]) -> (r: Self)
        ensures
            r@ == models(transactions@),
    {
        let mut v: Vec<Transaction> = Vec::new();
        let mut i: usize = 0;
        while i < transactions.len()
            invariant
                0 <= i <= transactions@.len(),
                v@.len() == i,
                forall|k: int| 0 <= k < i ==> (#[trigger] v@[k])@ == transactions@[k]@,
            decreases transactions@.len() - i,
        {
            let t = transactions[i].duplicate();
            v.push(t);
            i = i + 1;
        }
        assert(models(v@) =~= models(transactions@));
        Transactions(v)
    }

    /// Number of transactions in the batch.
    pub fn len(&self) -> (r: usize)
        ensures
            r == self@.len(),
    {
        self.0.len()
    }

    /// Whether the batch holds no transaction.
    pub fn is_empty(&self) -> (r: bool)
        ensures
            r == (self@.len() == 0),
    {
        self.0.len() == 0
    }

    /// The transaction at position `i`.
    pub fn get(&self, i: usize) -> (r: &Transaction)
        requires
            i < self@.len(),
        ensures
            r@ == self@[i as int],
    {
        &self.0[i]
    }

    /// Appends `t` at the end of the batch.
    pub fn push(&mut self, t: Transaction)
        ensures
            final(self)@ == old(self)@.push(t@),
    {
        self.0.push(t);
        assert(final(self)@ =~= old(self)@.push(t@));
    }

    /// Appends the batch's encoding to `out`.
    pub fn write(&self, out: &mut Vec<u8>)
        ensures
            final(out)@ == old(out)@ + batch_bytes(self@),
    {
        let prefix = varint(self.0.len() as u64);
        let mut i: usize = 0;
        while i < prefix.len()
            invariant
                0 <= i <= prefix@.len(),
                out@ == old(out)@ + prefix@.take(i as int),
            decreases prefix@.len() - i,
        {
            out.push(prefix[i]);
            i = i + 1;
            assert(prefix@.take(i as int) =~= prefix@.take(i - 1).push(prefix@[i - 1]));
        }
        assert(prefix@.take(i as int) =~= prefix@);
        let ghost start = out@;
        let mut i: usize = 0;
        while i < self.0.len()
            invariant
                0 <= i <= self@.len(),
                out@ == start + txs_bytes(self@.take(i as int)),
                start == old(out)@ + varint_bytes(self@.len() as u64),
            decreases self@.len() - i,
        {
            self.0[i].write(out);
            i = i + 1;
            assert(self@.take(i as int).drop_last() =~= self@.take(i - 1));
        }
        assert(self@.take(i as int) =~= self@);
    }

    /// Reads a batch starting at `pos`: the batch and the position just after it.
    pub fn read_at(bytes: &[u8], pos: usize) -> (r: Result<(Transactions, usize), CodecError>)
        requires
            pos <= bytes@.len(),
        ensures
            match parse_batch(bytes@.skip(pos as int)) {
                None => r == Err::<(Transactions, usize), CodecError>(CodecError::Malformed),
                Some((ts, n)) => r is Ok && r.unwrap().0@ == ts && r.unwrap().1 == pos + n,
            },
            r is Ok ==> r.unwrap().1 <= bytes@.len(),
    {
        let rest = slice_subrange(bytes, pos, bytes.len());
        assert(rest@ =~= bytes@.skip(pos as int));
        let (count, left) = match read_varint(rest) {
            None => return Err(CodecError::Malformed),
            Some(x) => x,
        };
        let start = pos + (rest.len() - left);
        assert(bytes@.skip(pos as int).skip(rest.len() - left) =~= bytes@.skip(start as int));
        match read_txs(bytes, start, count) {
            None => Err(CodecError::Malformed),
            Some((txs, cur)) => Ok((Transactions(txs), cur)),
        }
    }

    /// Reads a batch at the start of `bytes`: the batch and the number of
    /// bytes it takes; bytes after it are left alone.
    pub fn read(bytes: &[u8]) -> (r: Result<(Transactions, usize), CodecError>)
        ensures
            match parse_batch(bytes@) {
                None => r == Err::<(Transactions, usize), CodecError>(CodecError::Malformed),
                Some((ts, n)) => r is Ok && r.unwrap().0@ == ts && r.unwrap().1 == n,
            },
    {
        assert(bytes@.skip(0) =~= bytes@);
        Self::read_at(bytes, 0)
    }

    /// The encoding of each transaction, in batch order.
    pub fn serialize(&self) -> (r: Vec<Vec<u8>>)
        ensures
            r@.len() == self@.len(),
            forall|i: int| 0 <= i < r@.len() ==> (#[trigger] r@[i])@ == tx_bytes(self@[i]),
    {
        let mut out: Vec<Vec<u8>> = Vec::new();
        let mut i: usize = 0;
        while i < self.0.len()
            invariant
                0 <= i <= self@.len(),
                out@.len() == i,
                forall|k: int| 0 <= k < i ==> (#[trigger] out@[k])@ == tx_bytes(self@[k]),
            decreases self@.len() - i,
        {
            let mut bytes: Vec<u8> = Vec::new();
            self.0[i].write(&mut bytes);
            assert(bytes@ =~= tx_bytes(self@[i as int]));
            out.push(bytes);
            i = i + 1;
        }
        out
    }

    /// The encoding of each transaction as lowercase hexadecimal, in batch order.
    pub fn serialize_as_str(&self) -> (r: Vec<String>)
        ensures
            r@.len() == self@.len(),
            forall|i: int| 0 <= i < r@.len() ==> (#[trigger] r@[i])@ == hex_of(tx_bytes(self@[i])),
    {
        let mut out: Vec<String> = Vec::new();
        let mut i: usize = 0;
        while i < self.0.len()
            invariant
                0 <= i <= self@.len(),
                out@.len() == i,
                forall|k: int| 0 <= k < i ==> (#[trigger] out@[k])@ == hex_of(tx_bytes(self@[k])),
            decreases self@.len() - i,
        {
            let mut bytes: Vec<u8> = Vec::new();
            self.0[i].write(&mut bytes);
            assert(bytes@ =~= tx_bytes(self@[i as int]));
            out.push(to_hex(&bytes));
            i = i + 1;
        }
        out
    }

    /// The identifiers of the transactions, in batch order.
    pub fn to_transaction_ids(&self) -> (r: Vec<[u8; 32]>)
        ensures
            r@.len() == self@.len(),
            forall|i: int| 0 <= i < r@.len() ==> (#[trigger] r@[i])@ == self@[i].id,
    {
        let mut ids: Vec<[u8; 32]> = Vec::new();
        let mut i: usize = 0;
        while i < self.0.len()
            invariant
                0 <= i <= self@.len(),
                ids@.len() == i,
                forall|k: int| 0 <= k < i ==> (#[trigger] ids@[k])@ == self@[k].id,
            decreases self@.len() - i,
        {
            ids.push(self.0[i].transaction_id());
            i = i + 1;
        }
        ids
    }

    /// Whether `transaction` conflicts with the batch: true when some member
    /// is on another network, the candidate repeats a serial number or a
    /// commitment of its own, or it shares its memorandum, a serial number
    /// or a commitment with some member.
    pub fn conflicts(&self, transaction: &Transaction) -> (r: bool)
        ensures
            r == conflicts_with(self@, transaction@),
    {
        let ghost b = self@;
        let ghost t = transaction@;
        let mut holding_serial_numbers: Vec<u64> = Vec::new();
        let mut holding_commitments: Vec<u64> = Vec::new();
        let mut holding_memos: Vec<u64> = Vec::new();
        let mut k: usize = 0;
        while k < self.0.len()
            invariant
                b == self@,
                t == transaction@,
                0 <= k <= b.len(),
                forall|i: int| 0 <= i < k ==> b[i].network == t.network,
                holding_memos@.len() == k,
                forall|v: u64| holding_serial_numbers@.contains(v) <==> serial_taken(b, k as int, v),
                forall|v: u64| holding_commitments@.contains(v) <==> commitment_taken(b, k as int, v),
                forall|v: u64| holding_memos@.contains(v) <==> exists|i: int| 0 <= i < k && #[trigger] b[i].memo == v,
            decreases b.len() - k,
        {
            let tx = &self.0[k];
            if tx.network != transaction.network {
                assert(b.contains(b[k as int]) && clashes(b[k as int], t));
                return true;
            }
            let ghost old_sn = holding_serial_numbers@;
            let ghost old_cm = holding_commitments@;
            let ghost old_memo = holding_memos@;
            extend_values(&mut holding_serial_numbers, &tx.old_serial_numbers);
            extend_values(&mut holding_commitments, &tx.new_commitments);
            holding_memos.push(tx.memorandum);
            assert forall|v: u64| holding_serial_numbers@.contains(v) <==> serial_taken(b, k + 1, v) by {
                if serial_taken(b, k + 1, v) {
                    let i = choose|i: int| 0 <= i < k + 1 && #[trigger] b[i].serials.contains(v);
                    if i < k {
                        assert(old_sn.contains(v));
                        let j = choose|j: int| 0 <= j < old_sn.len() && old_sn[j] == v;
                        assert(holding_serial_numbers@[j] == v);
                    } else {
                        let j = choose|j: int| 0 <= j < b[i].serials.len() && b[i].serials[j] == v;
                        assert(holding_serial_numbers@[old_sn.len() + j] == v);
                    }
                }
                if holding_serial_numbers@.contains(v) {
                    let j = choose|j: int| 0 <= j < holding_serial_numbers@.len() && holding_serial_numbers@[j] == v;
                    if j < old_sn.len() {
                        assert(old_sn.contains(v));
                    } else {
                        assert(b[k as int].serials[j - old_sn.len()] == v);
                        assert(b[k as int].serials.contains(v));
                    }
                }
            }
            assert forall|v: u64| holding_commitments@.contains(v) <==> commitment_taken(b, k + 1, v) by {
                if commitment_taken(b, k + 1, v) {
                    let i = choose|i: int| 0 <= i < k + 1 && #[trigger] b[i].commitments.contains(v);
                    if i < k {
                        assert(old_cm.contains(v));
                        let j = choose|j: int| 0 <= j < old_cm.len() && old_cm[j] == v;
                        assert(holding_commitments@[j] == v);
                    } else {
                        let j = choose|j: int| 0 <= j < b[i].commitments.len() && b[i].commitments[j] == v;
                        assert(holding_commitments@[old_cm.len() + j] == v);
                    }
                }
                if holding_commitments@.contains(v) {
                    let j = choose|j: int| 0 <= j < holding_commitments@.len() && holding_commitments@[j] == v;
                    if j < old_cm.len() {
                        assert(old_cm.contains(v));
                    } else {
                        assert(b[k as int].commitments[j - old_cm.len()] == v);
                        assert(b[k as int].commitments.contains(v));
                    }
                }
            }
            assert forall|v: u64| holding_memos@.contains(v) <==> exists|i: int| 0 <= i < k + 1 && #[trigger] b[i].memo == v by {
                if exists|i: int| 0 <= i < k + 1 && #[trigger] b[i].memo == v {
                    let i = choose|i: int| 0 <= i < k + 1 && #[trigger] b[i].memo == v;
                    if i < k {
                        assert(old_memo.contains(v));
                        let j = choose|j: int| 0 <= j < old_memo.len() && old_memo[j] == v;
                        assert(holding_memos@[j] == v);
                    } else {
                        assert(holding_memos@[k as int] == v);
                    }
                }
                if holding_memos@.contains(v) {
                    let j = choose|j: int| 0 <= j < holding_memos@.len() && holding_memos@[j] == v;
                    if j < old_memo.len() {
                        assert(old_memo.contains(v));
                    } else {
                        assert(b[k as int].memo == v);
                    }
                }
            }
            k = k + 1;
        }
        if contains_duplicate(&transaction.old_serial_numbers) {
            return true;
        }
        if contains_duplicate(&transaction.new_commitments) {
            return true;
        }
        if contains_value(&holding_memos, transaction.memorandum) {
            proof {
                let i = choose|i: int| 0 <= i < k && #[trigger] b[i].memo == t.memo;
                assert(b.contains(b[i]) && clashes(b[i], t));
            }
            return true;
        }
        let mut j: usize = 0;
        while j < transaction.old_serial_numbers.len()
            invariant
                t == transaction@,
                b == self@,
                k == b.len(),
                forall|i: int| 0 <= i < k ==> b[i].network == t.network,
                forall|v: u64| holding_serial_numbers@.contains(v) <==> serial_taken(b, k as int, v),
                forall|v: u64| holding_commitments@.contains(v) <==> commitment_taken(b, k as int, v),
                forall|v: u64| holding_memos@.contains(v) <==> exists|i: int| 0 <= i < k && #[trigger] b[i].memo == v,
                !holding_memos@.contains(t.memo),
                t.serials.no_duplicates(),
                t.commitments.no_duplicates(),
                0 <= j <= t.serials.len(),
                forall|q: int| 0 <= q < j ==> !holding_serial_numbers@.contains(#[trigger] t.serials[q]),
            decreases t.serials.len() - j,
        {
            if contains_value(&holding_serial_numbers, transaction.old_serial_numbers[j]) {
                proof {
                    let v = t.serials[j as int];
                    let i = choose|i: int| 0 <= i < k && #[trigger] b[i].serials.contains(v);
                    assert(b.contains(b[i]) && clashes(b[i], t));
                }
                return true;
            }
            j = j + 1;
        }
        let mut j: usize = 0;
        while j < transaction.new_commitments.len()
            invariant
                t == transaction@,
                b == self@,
                k == b.len(),
                forall|i: int| 0 <= i < k ==> b[i].network == t.network,
                forall|v: u64| holding_serial_numbers@.contains(v) <==> serial_taken(b, k as int, v),
                forall|v: u64| holding_commitments@.contains(v) <==> commitment_taken(b, k as int, v),
                forall|v: u64| holding_memos@.contains(v) <==> exists|i: int| 0 <= i < k && #[trigger] b[i].memo == v,
                !holding_memos@.contains(t.memo),
                t.serials.no_duplicates(),
                t.commitments.no_duplicates(),
                forall|q: int| 0 <= q < t.serials.len() ==> !holding_serial_numbers@.contains(#[trigger] t.serials[q]),
                0 <= j <= t.commitments.len(),
                forall|q: int| 0 <= q < j ==> !holding_commitments@.contains(#[trigger] t.commitments[q]),
            decreases t.commitments.len() - j,
        {
            if contains_value(&holding_commitments, transaction.new_commitments[j]) {
                proof {
                    let v = t.commitments[j as int];
                    let i = choose|i: int| 0 <= i < k && #[trigger] b[i].commitments.contains(v);
                    assert(b.contains(b[i]) && clashes(b[i], t));
                }
                return true;
            }
            j = j + 1;
        }
        assert forall|x: TransactionModel| #[trigger] b.contains(x) implies !clashes(x, t) by {
            let i = choose|i: int| 0 <= i < b.len() && b[i] == x;
            assert(b[i].network == t.network);
            assert(!holding_memos@.contains(t.memo));
            if exists|q: int| 0 <= q < t.serials.len() && #[trigger] x.serials.contains(t.serials[q]) {
                let q = choose|q: int| 0 <= q < t.serials.len() && #[trigger] x.serials.contains(t.serials[q]);
                assert(serial_taken(b, k as int, t.serials[q]));
            }
            if exists|q: int| 0 <= q < t.commitments.len() && #[trigger] x.commitments.contains(t.commitments[q]) {
                let q = choose|q: int| 0 <= q < t.commitments.len() && #[trigger] x.commitments.contains(t.commitments[q]);
                assert(commitment_taken(b, k as int, t.commitments[q]));
            }
        }
        false
    }
}

} // verus!
