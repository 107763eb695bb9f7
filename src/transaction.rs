//! A single transaction, as far as batches and blocks look into it.
use vstd::prelude::*;

use snarkvm_utilities::has_duplicates;

use vstd::slice::slice_subrange;

use crate::codec::{
    get_array, get_u64, le_bytes, le_value, lemma_le_round_trip, lemma_varint_round_trip,
    parse_varint, platform_count, pow256, put_array, put_u64, read_varint, varint,
    varint_bytes,
};

verus! {

/// Length in bytes of a transaction identifier.
pub const ID_SIZE: usize = 32;

/// The fields of a transaction that batch assembly and the codec read.
#[derive(Clone, Debug, PartialEq, Eq)]
pub struct Transaction {
    /// Identifier of the network the transaction belongs to.
    pub network: u8,
    /// Serial numbers of the outputs this transaction spends.
    pub old_serial_numbers: Vec<u64>,
    /// Commitments to the outputs this transaction creates.
    pub new_commitments: Vec<u64>,
    /// Opaque tag that must be unique within a batch.
    pub memorandum: u64,
    /// The transaction's identifier (its digest).
    pub id: [u8; ID_SIZE],
}

/// The mathematical value of a transaction.
pub struct TransactionModel {
    pub network: u8,
    pub serials: Seq<u64>,
    pub commitments: Seq<u64>,
    pub memo: u64,
    pub id: Seq<u8>,
}

impl View for Transaction {
    type V = TransactionModel;

    open spec fn view(&self) -> TransactionModel {
        TransactionModel {
            network: self.network,
            serials: self.old_serial_numbers@,
            commitments: self.new_commitments@,
            memo: self.memorandum,
            id: self.id@,
        }
    }
}

/// A model that some `Transaction` value can have: every length fits a `usize`
/// and the identifier has its fixed size.
pub open spec fn tx_model_valid(t: TransactionModel) -> bool {
    &&& t.serials.len() <= usize::MAX
    &&& t.commitments.len() <= usize::MAX
    &&& t.id.len() == ID_SIZE
}

/// The little-endian bytes of each value, in order.
pub open spec fn u64s_bytes(s: Seq<u64>) -> Seq<u8>
    decreases s.len(),
{
    if s.len() == 0 {
        Seq::empty()
    } else {
        u64s_bytes(s.drop_last()) + le_bytes(s.last() as nat, 8)
    }
}

/// A list of values: its length as a variable-length integer, then the values.
pub open spec fn u64_list_bytes(s: Seq<u64>) -> Seq<u8> {
    varint_bytes(s.len() as u64) + u64s_bytes(s)
}

/// The encoding of a transaction: network byte, serial numbers, commitments,
/// memorandum and identifier.
pub open spec fn tx_bytes(t: TransactionModel) -> Seq<u8> {
    seq![t.network] + u64_list_bytes(t.serials) + u64_list_bytes(t.commitments) + le_bytes(
        t.memo as nat,
        8,
    ) + t.id
}

/// Reads `c` values of eight bytes each at the start of `s`, with the number
/// of bytes read.
pub open spec fn parse_u64s(s: Seq<u8>, c: nat) -> Option<(Seq<u64>, nat)>
    decreases c,
{
    if c == 0 {
        Some((Seq::empty(), 0))
    } else if s.len() < 8 {
        None
    } else {
        match parse_u64s(s.skip(8), (c - 1) as nat) {
            None => None,
            Some((r, n)) => Some((seq![le_value(s.take(8)) as u64] + r, n + 8)),
        }
    }
}

/// Reads a counted list of values at the start of `s`.
pub open spec fn parse_u64_list(s: Seq<u8>) -> Option<(Seq<u64>, nat)> {
    match parse_varint(s) {
        None => None,
        Some((c, m)) => match parse_u64s(s.skip(m as int), platform_count(c)) {
            None => None,
            Some((r, n)) => Some((r, m + n)),
        },
    }
}

/// Reads a transaction at the start of `s`, with the number of bytes it takes.
pub open spec fn parse_tx(s: Seq<u8>) -> Option<(TransactionModel, nat)> {
    if s.len() < 1 {
        None
    } else {
        match parse_u64_list(s.skip(1)) {
            None => None,
            Some((serials, a)) => match parse_u64_list(s.skip(1 + a as int)) {
                None => None,
                Some((commitments, b)) => {
                    let p: int = 1 + a as int + b as int;
                    if s.len() < p + 8 + ID_SIZE {
                        None
                    } else {
                        Some(
                            (
                                TransactionModel {
                                    network: s[0],
                                    serials,
                                    commitments,
                                    memo: le_value(s.subrange(p, p + 8)) as u64,
                                    id: s.subrange(p + 8, p + 8 + ID_SIZE),
                                },
                                (p + 8 + ID_SIZE) as nat,
                            ),
                        )
                    }
                },
            },
        }
    }
}

/// Splits the encoding of a non-empty list into its first value and the rest.
pub proof fn lemma_u64s_bytes_first(s: Seq<u64>)
    requires
        s.len() > 0,
    ensures
        u64s_bytes(s) == le_bytes(s[0] as nat, 8) + u64s_bytes(s.drop_first()),
    decreases s.len(),
{
    if s.len() == 1 {
        assert(s.drop_last() =~= Seq::<u64>::empty());
        assert(s.drop_first() =~= Seq::<u64>::empty());
        assert(u64s_bytes(s) =~= le_bytes(s[0] as nat, 8) + u64s_bytes(s.drop_first()));
    } else {
        lemma_u64s_bytes_first(s.drop_last());
        assert(s.drop_last().drop_first() =~= s.drop_first().drop_last());
        assert(u64s_bytes(s) =~= le_bytes(s[0] as nat, 8) + u64s_bytes(s.drop_first()));
    }
}

/// The encoding of `s` is eight bytes per value and reads back as `s`,
/// whatever follows it.
pub proof fn lemma_u64s_round_trip(s: Seq<u64>, rest: Seq<u8>)
    ensures
        u64s_bytes(s).len() == 8 * s.len(),
        parse_u64s(u64s_bytes(s) + rest, s.len()) == Some((s, 8 * s.len())),
    decreases s.len(),
{
    if s.len() > 0 {
        lemma_u64s_bytes_first(s);
        lemma_u64s_round_trip(s.drop_first(), rest);
        reveal_with_fuel(pow256, 9);
        lemma_le_round_trip(s[0] as nat, 8);
        let e = u64s_bytes(s) + rest;
        assert(e.skip(8) =~= u64s_bytes(s.drop_first()) + rest);
        assert(e.take(8) =~= le_bytes(s[0] as nat, 8));
        assert(seq![s[0]] + s.drop_first() =~= s);
    }
}

/// A counted list reads back as itself, whatever follows it.
pub proof fn lemma_u64_list_round_trip(s: Seq<u64>, rest: Seq<u8>)
    requires
        s.len() <= usize::MAX,
    ensures
        parse_u64_list(u64_list_bytes(s) + rest) == Some((s, u64_list_bytes(s).len())),
{
    let e = u64_list_bytes(s) + rest;
    let v = varint_bytes(s.len() as u64);
    lemma_varint_round_trip(s.len() as u64, u64s_bytes(s) + rest);
    assert(e =~= v + (u64s_bytes(s) + rest));
    assert(e.skip(v.len() as int) =~= u64s_bytes(s) + rest);
    lemma_u64s_round_trip(s, rest);
    vstd::arithmetic::div_mod::lemma_small_mod(s.len(), (usize::MAX + 1) as nat);
}

/// A transaction reads back as itself, whatever follows it.
pub proof fn lemma_tx_round_trip(t: TransactionModel, rest: Seq<u8>)
    requires
        tx_model_valid(t),
    ensures
        parse_tx(tx_bytes(t) + rest) == Some((t, tx_bytes(t).len())),
{
    let e = tx_bytes(t) + rest;
    let ls = u64_list_bytes(t.serials);
    let lc = u64_list_bytes(t.commitments);
    let tail = le_bytes(t.memo as nat, 8) + t.id + rest;
    reveal_with_fuel(pow256, 9);
    lemma_le_round_trip(t.memo as nat, 8);
    assert(e =~= seq![t.network] + ls + lc + tail);
    assert(e.skip(1) =~= ls + (lc + tail));
    lemma_u64_list_round_trip(t.serials, lc + tail);
    assert(e.skip(1 + ls.len() as int) =~= lc + tail);
    lemma_u64_list_round_trip(t.commitments, tail);
    let p: int = 1 + ls.len() as int + lc.len() as int;
    assert(e.subrange(p, p + 8) =~= le_bytes(t.memo as nat, 8));
    assert(e.subrange(p + 8, p + 8 + ID_SIZE) =~= t.id);
}

/// Appends the counted encoding of `items`.
fn write_u64_list(out: &mut Vec<u8>, items: &Vec<u64>)
    ensures
        final(out)@ == old(out)@ + u64_list_bytes(items@),
{
    let prefix = varint(items.len() as u64);
    let mut i: usize = 0;
    while i < prefix.len()
        invariant
            0 <= i <= prefix@.len(),
            out@ == old(out)@ + prefix@.take(i as int),
        decreases prefix@.len() - i,
    {
        out.push(prefix[i]);
        i = i + 1;
        assert(prefix@.take(i as int) =~= prefix@.take(i - 1).push(prefix@[i - 1]));
    }
    assert(prefix@.take(i as int) =~= prefix@);
    let ghost start = out@;
    let mut i: usize = 0;
    while i < items.len()
        invariant
            0 <= i <= items@.len(),
            out@ == start + u64s_bytes(items@.take(i as int)),
            start == old(out)@ + varint_bytes(items@.len() as u64),
        decreases items@.len() - i,
    {
        put_u64(out, items[i]);
        i = i + 1;
        assert(items@.take(i as int).drop_last() =~= items@.take(i - 1));
    }
    assert(items@.take(i as int) =~= items@);
}

/// Reads `count` eight-byte values starting at `pos`.
fn read_u64s(bytes: &[u8], pos: usize, count: usize) -> (r: Option<(Vec<u64>, usize)>)
    requires
        pos <= bytes@.len(),
    ensures
        match parse_u64s(bytes@.skip(pos as int), count as nat) {
            None => r is None,
            Some((v, n)) => r is Some && r.unwrap().0@ == v && r.unwrap().1 == pos + n,
        },
        r is Some ==> r.unwrap().1 <= bytes@.len(),
{
    let ghost s = bytes@;
    let mut items: Vec<u64> = Vec::new();
    let mut cur: usize = pos;
    let mut i: usize = 0;
    while i < count
        invariant
            s == bytes@,
            pos <= cur <= s.len(),
            0 <= i <= count,
            parse_u64s(s.skip(pos as int), count as nat) == (match parse_u64s(
                s.skip(cur as int),
                (count - i) as nat,
            ) {
                None => None,
                Some((r, n)) => Some((items@ + r, (cur - pos) as nat + n)),
            }),
        decreases count - i,
    {
        let ghost t = s.skip(cur as int);
        if bytes.len() - cur < 8 {
            return None;
        }
        let rest = slice_subrange(bytes, cur, bytes.len());
        assert(rest@ =~= t);
        let x = get_u64(rest).unwrap();
        assert(t.skip(8) =~= s.skip(cur + 8));
        let ghost before = items@;
        items.push(x);
        cur = cur + 8;
        i = i + 1;
        assert forall|r: Seq<u64>| before + (seq![x] + r) =~= items@ + r by {}
    }
    Some((items, cur))
}

/// Reads a counted list of values starting at `pos`.
fn read_u64_list(bytes: &[u8], pos: usize) -> (r: Option<(Vec<u64>, usize)>)
    requires
        pos <= bytes@.len(),
    ensures
        match parse_u64_list(bytes@.skip(pos as int)) {
            None => r is None,
            Some((v, n)) => r is Some && r.unwrap().0@ == v && r.unwrap().1 == pos + n,
        },
        r is Some ==> r.unwrap().1 <= bytes@.len(),
{
    let rest = slice_subrange(bytes, pos, bytes.len());
    assert(rest@ =~= bytes@.skip(pos as int));
    match read_varint(rest) {
        None => None,
        Some((count, left)) => {
            let start = pos + (rest.len() - left);
            assert(bytes@.skip(pos as int).skip(rest.len() - left) =~= bytes@.skip(start as int));
            read_u64s(bytes, start, count)
        },
    }
}

/// Relies on snarkvm_utilities::has_duplicates: true exactly when two
/// positions of the sequence hold equal values.
#[verifier::external_body]
pub(crate) fn contains_duplicate(items: &Vec<u64>) -> (r: bool)
    ensures
        r == !items@.no_duplicates(),
{
    has_duplicates(items.iter())
}

/// Whether `items` holds `x`.
pub fn contains_value(items: &Vec<u64>, x: u64) -> (r: bool)
    ensures
        r == items@.contains(x),
{
    let mut i: usize = 0;
    while i < items.len()
        invariant
            0 <= i <= items@.len(),
            forall|k: int| 0 <= k < i ==> items@[k] != x,
        decreases items@.len() - i,
    {
        if items[i] == x {
            return true;
        }
        i = i + 1;
    }
    false
}

impl Transaction {
    /// Copies a transaction field by field.
    pub fn duplicate(&self) -> (r: Transaction)
        ensures
            r@ == self@,
    {
        Transaction {
            network: self.network,
            old_serial_numbers: self.old_serial_numbers.clone(),
            new_commitments: self.new_commitments.clone(),
            memorandum: self.memorandum,
            id: self.id,
        }
    }

    /// Appends the transaction's encoding to `out`.
    pub fn write(&self, out: &mut Vec<u8>)
        ensures
            final(out)@ == old(out)@ + tx_bytes(self@),
    {
        out.push(self.network);
        write_u64_list(out, &self.old_serial_numbers);
        write_u64_list(out, &self.new_commitments);
        put_u64(out, self.memorandum);
        put_array(out, &self.id);
        assert(final(out)@ =~= old(out)@ + tx_bytes(self@));
    }

    /// Reads a transaction starting at `pos`: the transaction and the
    /// position just after it, or `None` where the bytes there are not a
    /// transaction's encoding.
    pub fn read(bytes: &[u8], pos: usize) -> (r: Option<(Transaction, usize)>)
        requires
            pos <= bytes@.len(),
        ensures
            match parse_tx(bytes@.skip(pos as int)) {
                None => r is None,
                Some((t, n)) => r is Some && r.unwrap().0@ == t && r.unwrap().1 == pos + n,
            },
            r is Some ==> r.unwrap().1 <= bytes@.len(),
    {
        let ghost s = bytes@.skip(pos as int);
        if pos >= bytes.len() {
            return None;
        }
        let network = bytes[pos];
        assert(bytes@.skip(pos as int).skip(1) =~= bytes@.skip(pos + 1));
        let (old_serial_numbers, p1) = match read_u64_list(bytes, pos + 1) {
            None => return None,
            Some(x) => x,
        };
        assert(bytes@.skip(pos as int).skip(p1 - pos) =~= bytes@.skip(p1 as int));
        let (new_commitments, p2) = match read_u64_list(bytes, p1) {
            None => return None,
            Some(x) => x,
        };
        if bytes.len() - p2 < 8 + ID_SIZE {
            return None;
        }
        let memorandum = get_u64(slice_subrange(bytes, p2, bytes.len())).unwrap();
        let id: [u8; ID_SIZE] = get_array(slice_subrange(bytes, p2 + 8, bytes.len())).unwrap();
        assert(bytes@.subrange(p2 as int, bytes@.len() as int).take(8) =~= s.subrange(p2 - pos, p2 - pos + 8));
        assert(bytes@.subrange(p2 + 8, bytes@.len() as int).take(ID_SIZE as int) =~= s.subrange(p2 - pos + 8, p2 - pos + 8 + ID_SIZE));
        let t = Transaction { network, old_serial_numbers, new_commitments, memorandum, id };
        Some((t, p2 + 8 + ID_SIZE))
    }

    /// The transaction's identifier.
    pub fn transaction_id(&self) -> (r: [u8; ID_SIZE])
        ensures
            r@ == self@.id,
    {
        self.id
    }
}

} // verus!
