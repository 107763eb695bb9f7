//! Byte-level building blocks of the wire format: little-endian integers,
//! variable-length integers and fixed-size byte arrays, with the spec
//! functions that give their encodings.
use vstd::prelude::*;

use snarkvm_utilities::bytes::{FromBytes, ToBytes};
use snarkvm_utilities::variable_length_integer::{read_variable_length_integer, variable_length_integer};

verus! {

/// `256` to the power `n`.
pub open spec fn pow256(n: nat) -> nat
    decreases n,
{
    if n == 0 {
        1
    } else {
        256 * pow256((n - 1) as nat)
    }
}

/// The `n` low bytes of `v`, least significant first.
pub open spec fn le_bytes(v: nat, n: nat) -> Seq<u8>
    decreases n,
{
    if n == 0 {
        Seq::empty()
    } else {
        seq![(v % 256) as u8] + le_bytes(v / 256, (n - 1) as nat)
    }
}

/// The number whose little-endian bytes are `s`.
pub open spec fn le_value(s: Seq<u8>) -> nat
    decreases s.len(),
{
    if s.len() == 0 {
        0
    } else {
        s[0] as nat + 256 * le_value(s.drop_first())
    }
}

/// Reading back the `n` little-endian bytes of a value below `256^n` gives the value.
pub proof fn lemma_le_round_trip(v: nat, n: nat)
    requires
        v < pow256(n),
    ensures
        le_bytes(v, n).len() == n,
        le_value(le_bytes(v, n)) == v,
    decreases n,
{
    if n > 0 {
        let p = pow256((n - 1) as nat);
        assert(v / 256 < p) by (nonlinear_arith)
            requires
                v < 256 * p,
        ;
        lemma_le_round_trip(v / 256, (n - 1) as nat);
        assert(le_bytes(v, n).drop_first() =~= le_bytes(v / 256, (n - 1) as nat));
    }
}

/// The variable-length encoding of `v`: one byte below 253, else a marker
/// byte followed by two, four or eight little-endian bytes.
pub open spec fn varint_bytes(v: u64) -> Seq<u8> {
    if v <= 252 {
        seq![v as u8]
    } else if v <= 0xffff {
        seq![0xfdu8] + le_bytes(v as nat, 2)
    } else if v <= 0xffff_ffff {
        seq![0xfeu8] + le_bytes(v as nat, 4)
    } else {
        seq![0xffu8] + le_bytes(v as nat, 8)
    }
}

/// Reads a variable-length integer at the start of `s`: its value and the
/// number of bytes it takes, or `None` when `s` is too short or the value is
/// not written in its shortest form.
pub open spec fn parse_varint(s: Seq<u8>) -> Option<(nat, nat)> {
    if s.len() < 1 {
        None
    } else if s[0] <= 252 {
        Some((s[0] as nat, 1))
    } else if s[0] == 0xfd {
        if s.len() < 3 || le_value(s.subrange(1, 3)) < 253 {
            None
        } else {
            Some((le_value(s.subrange(1, 3)), 3))
        }
    } else if s[0] == 0xfe {
        if s.len() < 5 || le_value(s.subrange(1, 5)) < 0x1_0000 {
            None
        } else {
            Some((le_value(s.subrange(1, 5)), 5))
        }
    } else {
        if s.len() < 9 || le_value(s.subrange(1, 9)) < 0x1_0000_0000 {
            None
        } else {
            Some((le_value(s.subrange(1, 9)), 9))
        }
    }
}

/// A decoded count once cast to `usize`, as the platform holds it.
pub open spec fn platform_count(v: nat) -> nat {
    v % (usize::MAX as nat + 1)
}

/// A variable-length integer reads back as the value it encodes, whatever follows it.
pub proof fn lemma_varint_round_trip(v: u64, rest: Seq<u8>)
    ensures
        parse_varint(varint_bytes(v) + rest) == Some((v as nat, varint_bytes(v).len())),
{
    let s = varint_bytes(v) + rest;
    reveal_with_fuel(pow256, 9);
    if v <= 252 {
    } else if v <= 0xffff {
        lemma_le_round_trip(v as nat, 2);
        assert(s.subrange(1, 3) =~= le_bytes(v as nat, 2));
    } else if v <= 0xffff_ffff {
        lemma_le_round_trip(v as nat, 4);
        assert(s.subrange(1, 5) =~= le_bytes(v as nat, 4));
    } else {
        lemma_le_round_trip(v as nat, 8);
        assert(s.subrange(1, 9) =~= le_bytes(v as nat, 8));
    }
}

/// Relies on snarkvm_utilities::variable_length_integer: the encoding above.
#[verifier::external_body]
pub(crate) fn varint(v: u64) -> (r: Vec<u8>)
    ensures
        r@ == varint_bytes(v),
{
    variable_length_integer(v)
}

/// Relies on snarkvm_utilities::read_variable_length_integer over a byte
/// slice: it fails where `parse_varint` does and otherwise yields the value,
/// cast to `usize`, and consumes exactly the integer's bytes. The second
/// component is the number of bytes left unread.
#[verifier::external_body]
pub(crate) fn read_varint(bytes: &[u8]) -> (r: Option<(usize, usize)>)
    ensures
        match parse_varint(bytes@) {
            None => r is None,
            Some((v, n)) => r is Some && r.unwrap().0 as nat == platform_count(v)
                && r.unwrap().1 == bytes@.len() - n,
        },
{
    let mut reader = bytes;
    match read_variable_length_integer(&mut reader) {
        Ok(v) => Some((v, reader.len())),
        Err(_) => None,
    }
}

/// Relies on snarkvm_utilities's `ToBytes` for `u64`: the eight
/// little-endian bytes of `v`, appended; writing to a `Vec` cannot fail.
#[verifier::external_body]
pub(crate) fn put_u64(out: &mut Vec<u8>, v: u64)
    ensures
        final(out)@ == old(out)@ + le_bytes(v as nat, 8),
{
    let _ = ToBytes::write(&v, &mut *out);
}

/// Relies on snarkvm_utilities's `FromBytes` for `u64`: the value of the
/// first eight bytes, little-endian, or an error when fewer are left.
#[verifier::external_body]
pub(crate) fn get_u64(bytes: &[u8]) -> (r: Option<u64>)
    ensures
        bytes@.len() >= 8 ==> r == Some(le_value(bytes@.take(8)) as u64),
        bytes@.len() < 8 ==> r is None,
{
    <u64 as FromBytes>::read(bytes).ok()
}

/// Relies on snarkvm_utilities's `ToBytes` for `[u8; N]`: the array's bytes,
/// appended as they are; writing to a `Vec` cannot fail.
#[verifier::external_body]
pub(crate) fn put_array<const N: usize>(out: &mut Vec<u8>, a: &[u8; N])
    ensures
        final(out)@ == old(out)@ + a@,
{
    let _ = ToBytes::write(a, &mut *out);
}

/// Relies on snarkvm_utilities's `FromBytes` for `[u8; N]`: the first `N`
/// bytes, or an error when fewer are left.
#[verifier::external_body]
pub(crate) fn get_array<const N: usize>(bytes: &[u8]) -> (r: Option<[u8; N]>)
    ensures
        bytes@.len() >= N ==> r is Some && r.unwrap()@ == bytes@.take(N as int),
        bytes@.len() < N ==> r is None,
{
    <[u8; N] as FromBytes>::read(bytes).ok()
}

} // verus!
