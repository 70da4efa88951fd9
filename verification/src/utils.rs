//! Conversions between the little-endian bytes of a field element, big
//! numbers and machine integers.

use num_bigint::BigUint;
use vstd::arithmetic::div_mod::{
    lemma_div_denominator, lemma_fundamental_div_mod, lemma_fundamental_div_mod_converse,
    lemma_small_mod,
};
use vstd::arithmetic::power2::{
    lemma2_to64, lemma_pow2_adds, lemma_pow2_pos, lemma_pow2_strictly_increases, pow2,
};
use vstd::prelude::*;

verus! {

/// The number of bytes that a field element is padded to.
pub const FIELD_BYTES: usize = 48;

/// A named cell of a gate: its three coordinates and its name.
#[derive(Debug)]
pub struct GateCell {
    pub cell: [usize; 3],
    pub name: String,
}

/// `num_bigint::BigUint`, an unsigned integer of any size.
#[verifier::external_type_specification]
#[verifier::external_body]
pub struct ExBigUint(num_bigint::BigUint);

/// The number that a `BigUint` holds.
pub uninterp spec fn spec_biguint_value(number: BigUint) -> nat;

/// `BigUint::from_bytes_le`: the number that holds what the bytes denote,
/// least significant byte first; zero for no bytes.
#[verifier::external_body]
fn biguint_from_bytes_le(bytes: &[u8]) -> (number: BigUint)
    ensures
        spec_biguint_value(number) == spec_le_value(bytes@),
{
    BigUint::from_bytes_le(bytes)
}

/// `BigUint::to_bytes_le`: bytes that denote, least significant byte first,
/// the number held.
#[verifier::external_body]
fn biguint_to_bytes_le(number: &BigUint) -> (bytes: Vec<u8>)
    ensures
        spec_le_value(bytes@) == spec_biguint_value(*number),
{
    number.to_bytes_le()
}

/// The number that `bytes` denote, least significant byte first.
pub open spec fn spec_le_value(bytes: Seq<u8>) -> nat
    decreases bytes.len(),
{
    if bytes.len() == 0 {
        0
    } else {
        bytes.first() as nat + 256 * spec_le_value(bytes.drop_first())
    }
}

/// `256^count`, the number of values of `count` bytes.
pub open spec fn spec_byte_range(count: nat) -> nat {
    pow2(8 * count)
}

/// One more byte multiplies the number of values by 256.
pub proof fn lemma_byte_range_step(count: nat)
    ensures
        spec_byte_range(count + 1) == 256 * spec_byte_range(count),
        spec_byte_range(count) >= 1,
        spec_byte_range(0) == 1,
{
    lemma2_to64();
    lemma_pow2_adds(8, 8 * count);
    lemma_pow2_pos(8 * count);
    assert(8 * (count + 1) == 8 + 8 * count);
}

/// What `count` bytes denote is below `256^count`.
pub proof fn lemma_le_value_bound(bytes: Seq<u8>)
    ensures
        spec_le_value(bytes) < spec_byte_range(bytes.len()),
    decreases bytes.len(),
{
    if bytes.len() == 0 {
        lemma_byte_range_step(0);
    } else {
        lemma_le_value_bound(bytes.drop_first());
        lemma_byte_range_step((bytes.len() - 1) as nat);
    }
}

/// Zero bytes at the end do not change what bytes denote.
pub proof fn lemma_le_value_padded(bytes: Seq<u8>, padded: Seq<u8>)
    requires
        bytes.len() <= padded.len(),
        forall|i: int| 0 <= i < bytes.len() ==> padded[i] == bytes[i],
        forall|i: int| bytes.len() <= i < padded.len() ==> padded[i] == 0,
    ensures
        spec_le_value(padded) == spec_le_value(bytes),
    decreases padded.len(),
{
    if padded.len() > 0 {
        if bytes.len() == 0 {
            lemma_le_value_padded(bytes, padded.drop_first());
        } else {
            lemma_le_value_padded(bytes.drop_first(), padded.drop_first());
        }
    }
}

/// The first `count` bytes denote the remainder modulo `256^count`.
pub proof fn lemma_le_value_cut(bytes: Seq<u8>, count: nat)
    requires
        count <= bytes.len(),
    ensures
        spec_le_value(bytes.take(count as int)) == spec_le_value(bytes) % spec_byte_range(count),
    decreases count,
{
    lemma_byte_range_step(0);
    if count == 0 {
        assert(bytes.take(0) =~= Seq::<u8>::empty());
        assert(spec_le_value(bytes) % 1 == 0);
    } else {
        let rest = bytes.drop_first();
        let below = (count - 1) as nat;
        let range = spec_byte_range(below) as int;
        let high = spec_le_value(rest) as int;
        let low = bytes.first() as int;
        lemma_le_value_cut(rest, below);
        lemma_byte_range_step(below);
        assert(bytes.take(count as int).drop_first() =~= rest.take(below as int));
        lemma_fundamental_div_mod(high, range);
        assert(low + 256 * high == (256 * range) * (high / range) + (low + 256 * (high % range)))
            by (nonlinear_arith)
            requires
                high == range * (high / range) + high % range,
        ;
        lemma_fundamental_div_mod_converse(
            low + 256 * high,
            256 * range,
            high / range,
            low + 256 * (high % range),
        );
    }
}

/// Bytes denote what their first `count` denote, plus `256^count` times
/// what the others denote.
pub proof fn lemma_le_value_split(bytes: Seq<u8>, count: nat)
    requires
        count <= bytes.len(),
    ensures
        spec_le_value(bytes) == spec_le_value(bytes.take(count as int)) + spec_byte_range(count)
            * spec_le_value(bytes.skip(count as int)),
    decreases count,
{
    lemma_byte_range_step(0);
    if count == 0 {
        assert(bytes.take(0) =~= Seq::<u8>::empty());
        assert(bytes.skip(0) =~= bytes);
    } else {
        let rest = bytes.drop_first();
        let below = (count - 1) as nat;
        lemma_le_value_split(rest, below);
        lemma_byte_range_step(below);
        assert(bytes.take(count as int).drop_first() =~= rest.take(below as int));
        assert(bytes.skip(count as int) =~= rest.skip(below as int));
        let range = spec_byte_range(below) as int;
        let tail = spec_le_value(rest.skip(below as int)) as int;
        assert(256 * (range * tail) == (256 * range) * tail) by (nonlinear_arith);
    }
}

/// The big number that the little-endian bytes of a field element denote.
pub fn field_to_bn(bytes: &[u8]) -> (number: BigUint)
    ensures
        spec_biguint_value(number) == spec_le_value(bytes@),
{
    biguint_from_bytes_le(bytes)
}

/// The little-endian bytes of a big number, cut or padded with zeros to
/// `FIELD_BYTES` bytes: what is left of the number modulo `256^48`.
pub fn bn_to_field(bn: &BigUint) -> (bytes: Vec<u8>)
    ensures
        bytes@.len() == FIELD_BYTES,
        spec_le_value(bytes@) == spec_biguint_value(*bn) % spec_byte_range(FIELD_BYTES as nat),
{
    let mut bytes = biguint_to_bytes_le(bn);
    let ghost full = bytes@;
    bytes.resize(FIELD_BYTES, 0);
    proof {
        if full.len() >= FIELD_BYTES {
            assert(bytes@ =~= full.take(FIELD_BYTES as int));
            lemma_le_value_cut(full, FIELD_BYTES as nat);
        } else {
            assert forall|i: int| 0 <= i < full.len() implies bytes@[i] == full[i] by {
                assert(bytes@.subrange(0, full.len() as int)[i] == full[i]);
            }
            lemma_le_value_padded(full, bytes@);
            lemma_le_value_bound(full);
            lemma_pow2_strictly_increases(8 * full.len(), 8 * (FIELD_BYTES as nat));
            lemma_small_mod(spec_le_value(full), spec_byte_range(FIELD_BYTES as nat));
        }
    }
    bytes
}

/// The number that the first four little-endian bytes of a field element
/// denote.
pub fn field_to_u32(bytes: &[u8]) -> (value: u32)
    requires
        bytes@.len() >= 4,
    ensures
        value == spec_le_value(bytes@.take(4)),
{
    proof {
        reveal_with_fuel(spec_le_value, 5);
        let head = bytes@.take(4);
        assert(head.drop_first().drop_first().drop_first().drop_first() =~= Seq::<u8>::empty());
    }
    (bytes[0] as u32) + (bytes[1] as u32) * 0x100 + (bytes[2] as u32) * 0x1_0000 + (bytes[3] as u32)
        * 0x100_0000
}

/// The number that the first eight little-endian bytes of a field element
/// denote.
pub fn field_to_u64(bytes: &[u8]) -> (value: u64)
    requires
        bytes@.len() >= 8,
    ensures
        value == spec_le_value(bytes@.take(8)),
{
    proof {
        reveal_with_fuel(spec_le_value, 5);
        let head = bytes@.take(8);
        let low = head.take(4);
        let high = head.skip(4);
        assert(low.drop_first().drop_first().drop_first().drop_first() =~= Seq::<u8>::empty());
        assert(high.drop_first().drop_first().drop_first().drop_first() =~= Seq::<u8>::empty());
        lemma_le_value_split(head, 4);
        lemma2_to64();
        assert(spec_le_value(head) == spec_le_value(low) + 0x1_0000_0000 * spec_le_value(high))
            by (nonlinear_arith)
            requires
                spec_le_value(head) == spec_le_value(low) + spec_byte_range(4) * spec_le_value(
                    high,
                ),
                spec_byte_range(4) == 0x1_0000_0000,
        ;
    }
    let low = (bytes[0] as u64) + (bytes[1] as u64) * 0x100 + (bytes[2] as u64) * 0x1_0000 + (
    bytes[3] as u64) * 0x100_0000;
    let high = (bytes[4] as u64) + (bytes[5] as u64) * 0x100 + (bytes[6] as u64) * 0x1_0000 + (
    bytes[7] as u64) * 0x100_0000;
    low + high * 0x1_0000_0000
}

/// The eight base-16 digits of `v`, least significant first.
pub fn u32_to_limbs(v: u32) -> (limbs: [u64; 8])
    ensures
        forall|i: int| 0 <= i < 8 ==> limbs[i] == (v as nat / pow2((4 * i) as nat)) % 16,
{
    let mut rem = v;
    let mut r = [0u64; 8];
    let mut i: usize = 0;
    proof {
        lemma2_to64();
        assert(v as nat / 1 == v);
    }
    while i < 8
        invariant
            i <= 8,
            rem == v as nat / pow2((4 * i) as nat),
            forall|j: int| 0 <= j < i ==> r[j] == (v as nat / pow2((4 * j) as nat)) % 16,
        decreases 8 - i,
    {
        r[i] = (rem % 16) as u64;
        proof {
            lemma2_to64();
            lemma_pow2_adds((4 * i) as nat, 4);
            lemma_pow2_pos((4 * i) as nat);
            lemma_div_denominator(v as int, pow2((4 * i) as nat) as int, 16);
            assert(4 * i + 4 == 4 * (i + 1));
        }
        rem = rem / 16;
        i = i + 1;
    }
    r
}

} // verus!
