//! The scalar codec: fixed-width scalars, their little-endian bit expansion,
//! and their decomposition into fixed-width window digits.
//!
//! A scalar is stored as its canonical 32-byte little-endian representation.
//! The spec-level model is the unsigned integer those bytes encode; the codec
//! proves that bits and digits reconstruct that integer exactly.

use vstd::arithmetic::power2::*;
use vstd::prelude::*;

verus! {

/// The scalar bit width: every scalar is encoded in 256 bits (32 bytes).
pub const SCALAR_BITS: usize = 256;

/// The byte length of a scalar's canonical little-endian encoding.
pub const SCALAR_BYTES: usize = 32;

/// Numeric weight of a single bit.
pub open spec fn bit_val(b: bool) -> nat {
    if b {
        1
    } else {
        0
    }
}

/// The unsigned integer encoded by a little-endian bit sequence:
/// bit i carries weight 2^i.
pub open spec fn bits_value(bits: Seq<bool>) -> nat
    decreases bits.len(),
{
    if bits.len() == 0 {
        0
    } else {
        bit_val(bits[0]) + 2 * bits_value(bits.skip(1))
    }
}

/// The unsigned integer encoded by a little-endian byte sequence:
/// byte i carries weight 256^i.
pub open spec fn bytes_value(bytes: Seq<u8>) -> nat
    decreases bytes.len(),
{
    if bytes.len() == 0 {
        0
    } else {
        (bytes[0] as nat) + 256 * bytes_value(bytes.skip(1))
    }
}

/// The eight bits of one byte, least significant first.
pub open spec fn byte_bits(b: u8) -> Seq<bool> {
    Seq::new(8, |i: int| (b >> (i as u8)) & 1u8 == 1u8)
}

/// The little-endian bit expansion of a byte sequence.
pub open spec fn expand_bits(bytes: Seq<u8>) -> Seq<bool>
    decreases bytes.len(),
{
    if bytes.len() == 0 {
        Seq::empty()
    } else {
        byte_bits(bytes[0]) + expand_bits(bytes.skip(1))
    }
}

pub proof fn lemma_expand_bits_len(bytes: Seq<u8>)
    ensures
        expand_bits(bytes).len() == 8 * bytes.len(),
    decreases bytes.len(),
{
    if bytes.len() > 0 {
        lemma_expand_bits_len(bytes.skip(1));
    }
}

/// Bit 8*i + j of the expansion is bit j of byte i.
pub proof fn lemma_expand_bits_index(bytes: Seq<u8>, i: int, j: int)
    requires
        0 <= i < bytes.len(),
        0 <= j < 8,
    ensures
        expand_bits(bytes)[8 * i + j] == byte_bits(bytes[i])[j],
    decreases i,
{
    lemma_expand_bits_len(bytes.skip(1));
    if i == 0 {
    } else {
        lemma_expand_bits_index(bytes.skip(1), i - 1, j);
        assert(8 * i + j - 8 == 8 * (i - 1) + j);
    }
}

/// Splitting a bit sequence at position k splits its value with weight 2^k.
pub proof fn lemma_bits_value_split(bits: Seq<bool>, k: int)
    requires
        0 <= k <= bits.len(),
    ensures
        bits_value(bits) == bits_value(bits.take(k)) + pow2(k as nat) * bits_value(bits.skip(k)),
    decreases k,
{
    if k == 0 {
        lemma2_to64();
        assert(bits.take(0) =~= Seq::<bool>::empty());
        assert(bits.skip(0) =~= bits);
        assert(bits_value(bits.take(0)) == 0);
        assert(pow2(0) == 1);
        assert(pow2(0) * bits_value(bits.skip(0)) == bits_value(bits));
    } else {
        let tail = bits.skip(1);
        lemma_bits_value_split(tail, k - 1);
        assert(bits.take(k).skip(1) =~= tail.take(k - 1));
        assert(bits.skip(k) =~= tail.skip(k - 1));
        assert(bits.take(k)[0] == bits[0]);
        lemma_pow2_unfold(k as nat);
        let a = bits_value(tail.take(k - 1)) as int;
        let p = pow2((k - 1) as nat) as int;
        let x = bits_value(tail.skip(k - 1)) as int;
        assert(bits_value(tail) == a + p * x);
        assert(2 * (a + p * x) == 2 * a + (2 * p) * x) by (nonlinear_arith);
        assert(bits_value(bits) == bit_val(bits[0]) + 2 * a + (2 * p) * x);
        assert(pow2(k as nat) == 2 * p);
        assert(bits_value(bits.skip(k)) == x);
        assert(pow2(k as nat) * bits_value(bits.skip(k)) == (2 * p) * x);
        assert(bits_value(bits.take(k)) == bit_val(bits[0]) + 2 * a);
        assert(bits_value(bits) == bits_value(bits.take(k)) + pow2(k as nat) * bits_value(
            bits.skip(k),
        ));
    }
}

/// Extending a prefix by one bit adds that bit's weight.
pub proof fn lemma_bits_value_take_succ(bits: Seq<bool>, k: int)
    requires
        0 <= k < bits.len(),
    ensures
        bits_value(bits.take(k + 1)) == bits_value(bits.take(k)) + bit_val(bits[k]) * pow2(
            k as nat,
        ),
{
    let front = bits.take(k + 1);
    lemma_bits_value_split(front, k);
    assert(front.take(k) =~= bits.take(k));
    let s = front.skip(k);
    assert(s =~= seq![bits[k]]);
    assert(s.skip(1) =~= Seq::<bool>::empty());
    assert(bits_value(s.skip(1)) == 0);
    assert(bits_value(s) == bit_val(s[0]) + 2 * bits_value(s.skip(1)));
    assert(bits_value(s) == bit_val(bits[k]));
    assert(pow2(k as nat) * bit_val(bits[k]) == bit_val(bits[k]) * pow2(k as nat))
        by (nonlinear_arith);
}

/// A sequence of n bits encodes a value below 2^n.
pub proof fn lemma_bits_value_bound(bits: Seq<bool>)
    ensures
        bits_value(bits) < pow2(bits.len()),
    decreases bits.len(),
{
    if bits.len() == 0 {
        lemma2_to64();
    } else {
        lemma_bits_value_bound(bits.skip(1));
        lemma_pow2_unfold(bits.len());
    }
}

/// A sequence of unset bits encodes zero.
pub proof fn lemma_bits_value_all_false(bits: Seq<bool>)
    requires
        forall|i: int| 0 <= i < bits.len() ==> !bits[i],
    ensures
        bits_value(bits) == 0,
    decreases bits.len(),
{
    if bits.len() > 0 {
        lemma_bits_value_all_false(bits.skip(1));
    }
}

/// A bit sequence with no set bit at index 64 or above encodes a value
/// below 2^64, whatever its length.
pub proof fn lemma_bits_value_high_zero(bits: Seq<bool>)
    requires
        forall|i: int| 64 <= i < bits.len() ==> !bits[i],
    ensures
        bits_value(bits) < pow2(64),
{
    if bits.len() <= 64 {
        lemma_bits_value_bound(bits);
        if bits.len() < 64 {
            lemma_pow2_strictly_increases(bits.len(), 64);
        }
    } else {
        lemma_bits_value_split(bits, 64);
        lemma_bits_value_all_false(bits.skip(64));
        lemma_bits_value_bound(bits.take(64));
        assert(pow2(64) * bits_value(bits.skip(64)) == 0);
    }
}

/// The eight bits of a byte encode the byte itself.
pub proof fn lemma_byte_bits_value(b: u8)
    ensures
        bits_value(byte_bits(b)) == b,
{
    let s = byte_bits(b);
    lemma2_to64();
    assert(s.take(0) =~= Seq::<bool>::empty());
    lemma_bits_value_take_succ(s, 0);
    lemma_bits_value_take_succ(s, 1);
    lemma_bits_value_take_succ(s, 2);
    lemma_bits_value_take_succ(s, 3);
    lemma_bits_value_take_succ(s, 4);
    lemma_bits_value_take_succ(s, 5);
    lemma_bits_value_take_succ(s, 6);
    lemma_bits_value_take_succ(s, 7);
    assert(s.take(8) =~= s);
    assert(bits_value(s.take(0)) == 0);
    assert(((b >> 0u8) & 1u8) < 2 && ((b >> 1u8) & 1u8) < 2 && ((b >> 2u8) & 1u8) < 2 && ((b
        >> 3u8) & 1u8) < 2 && ((b >> 4u8) & 1u8) < 2 && ((b >> 5u8) & 1u8) < 2 && ((b >> 6u8)
        & 1u8) < 2 && ((b >> 7u8) & 1u8) < 2) by (bit_vector);
    assert(bit_val(s[0]) == ((b >> 0u8) & 1u8) as nat);
    assert(bit_val(s[1]) == ((b >> 1u8) & 1u8) as nat);
    assert(bit_val(s[2]) == ((b >> 2u8) & 1u8) as nat);
    assert(bit_val(s[3]) == ((b >> 3u8) & 1u8) as nat);
    assert(bit_val(s[4]) == ((b >> 4u8) & 1u8) as nat);
    assert(bit_val(s[5]) == ((b >> 5u8) & 1u8) as nat);
    assert(bit_val(s[6]) == ((b >> 6u8) & 1u8) as nat);
    assert(bit_val(s[7]) == ((b >> 7u8) & 1u8) as nat);
    assert(pow2(0) == 1 && pow2(1) == 2 && pow2(2) == 4 && pow2(3) == 8 && pow2(4) == 16 && pow2(5)
        == 32 && pow2(6) == 64 && pow2(7) == 128);
    assert(bits_value(s.take(1)) == bits_value(s.take(0)) + bit_val(s[0]) * pow2(0));
    assert(bits_value(s.take(2)) == bits_value(s.take(1)) + bit_val(s[1]) * pow2(1));
    assert(bits_value(s.take(3)) == bits_value(s.take(2)) + bit_val(s[2]) * pow2(2));
    assert(bits_value(s.take(4)) == bits_value(s.take(3)) + bit_val(s[3]) * pow2(3));
    assert(bits_value(s.take(5)) == bits_value(s.take(4)) + bit_val(s[4]) * pow2(4));
    assert(bits_value(s.take(6)) == bits_value(s.take(5)) + bit_val(s[5]) * pow2(5));
    assert(bits_value(s.take(7)) == bits_value(s.take(6)) + bit_val(s[6]) * pow2(6));
    assert(bits_value(s.take(8)) == bits_value(s.take(7)) + bit_val(s[7]) * pow2(7));
    assert(bits_value(s) == bit_val(s[0]) + 2 * bit_val(s[1]) + 4 * bit_val(s[2]) + 8 * bit_val(
        s[3],
    ) + 16 * bit_val(s[4]) + 32 * bit_val(s[5]) + 64 * bit_val(s[6]) + 128 * bit_val(s[7]));
    assert(b == ((b >> 0u8) & 1u8) + 2 * ((b >> 1u8) & 1u8) + 4 * ((b >> 2u8) & 1u8) + 8 * ((b
        >> 3u8) & 1u8) + 16 * ((b >> 4u8) & 1u8) + 32 * ((b >> 5u8) & 1u8) + 64 * ((b >> 6u8)
        & 1u8) + 128 * ((b >> 7u8) & 1u8)) by (bit_vector);
}

/// Appending one byte adds its value with weight 256^len.
pub proof fn lemma_bytes_value_push(bytes: Seq<u8>, b: u8)
    ensures
        bytes_value(bytes.push(b)) == bytes_value(bytes) + pow2(8 * bytes.len()) * b,
    decreases bytes.len(),
{
    if bytes.len() == 0 {
        lemma2_to64();
        assert(bytes.push(b).skip(1) =~= Seq::<u8>::empty());
        assert(bytes.push(b)[0] == b);
        assert(bytes_value(bytes.push(b)) == b + 256 * bytes_value(bytes.push(b).skip(1)));
        assert(pow2(0) * b == b);
    } else {
        let tail = bytes.skip(1);
        lemma_bytes_value_push(tail, b);
        assert(bytes.push(b).skip(1) =~= tail.push(b));
        lemma_pow2_adds(8, 8 * (bytes.len() - 1) as nat);
        lemma2_to64();
        let v = bytes_value(tail) as int;
        let p = pow2(8 * (bytes.len() - 1) as nat) as int;
        assert(256 * (v + p * b) == 256 * v + (256 * p) * b) by (nonlinear_arith);
        assert(bytes_value(tail.push(b)) == v + p * b);
        assert(bytes_value(bytes.push(b)) == bytes[0] + 256 * bytes_value(tail.push(b)));
        assert(8 * bytes.len() == 8 + 8 * (bytes.len() - 1));
        assert(pow2(8 * bytes.len()) == 256 * p);
        assert(bytes_value(bytes) == bytes[0] + 256 * v);
        assert(bytes_value(bytes.push(b)) == bytes[0] + 256 * v + (256 * p) * b);
    }
}

/// Byte sequences of one length are determined by the integer they encode.
pub proof fn lemma_bytes_value_injective(a: Seq<u8>, b: Seq<u8>)
    requires
        a.len() == b.len(),
        bytes_value(a) == bytes_value(b),
    ensures
        a == b,
    decreases a.len(),
{
    if a.len() == 0 {
        assert(a =~= b);
    } else {
        let v = bytes_value(a) as int;
        let va = bytes_value(a.skip(1)) as int;
        let vb = bytes_value(b.skip(1)) as int;
        assert(v == va * 256 + a[0]);
        assert(v == vb * 256 + b[0]);
        vstd::arithmetic::div_mod::lemma_fundamental_div_mod_converse(v, 256, va, a[0] as int);
        vstd::arithmetic::div_mod::lemma_fundamental_div_mod_converse(v, 256, vb, b[0] as int);
        lemma_bytes_value_injective(a.skip(1), b.skip(1));
        assert forall|i: int| 0 <= i < a.len() implies a[i] == b[i] by {
            if i > 0 {
                assert(a[i] == a.skip(1)[i - 1]);
                assert(b[i] == b.skip(1)[i - 1]);
            }
        }
        assert(a =~= b);
    }
}

/// The eight little-endian bytes of a 64-bit integer encode that integer.
pub proof fn lemma_u64_le_bytes(x: u64)
    ensures
        bytes_value(
            seq![
                x as u8,
                (x >> 8u64) as u8,
                (x >> 16u64) as u8,
                (x >> 24u64) as u8,
                (x >> 32u64) as u8,
                (x >> 40u64) as u8,
                (x >> 48u64) as u8,
                (x >> 56u64) as u8,
            ],
        ) == x,
{
    let s = seq![
        x as u8,
        (x >> 8u64) as u8,
        (x >> 16u64) as u8,
        (x >> 24u64) as u8,
        (x >> 32u64) as u8,
        (x >> 40u64) as u8,
        (x >> 48u64) as u8,
        (x >> 56u64) as u8,
    ];
    let e = Seq::<u8>::empty();
    let s0 = e.push(x as u8);
    let s1 = s0.push((x >> 8u64) as u8);
    let s2 = s1.push((x >> 16u64) as u8);
    let s3 = s2.push((x >> 24u64) as u8);
    let s4 = s3.push((x >> 32u64) as u8);
    let s5 = s4.push((x >> 40u64) as u8);
    let s6 = s5.push((x >> 48u64) as u8);
    let s7 = s6.push((x >> 56u64) as u8);
    lemma_bytes_value_push(e, x as u8);
    lemma_bytes_value_push(s0, (x >> 8u64) as u8);
    lemma_bytes_value_push(s1, (x >> 16u64) as u8);
    lemma_bytes_value_push(s2, (x >> 24u64) as u8);
    lemma_bytes_value_push(s3, (x >> 32u64) as u8);
    lemma_bytes_value_push(s4, (x >> 40u64) as u8);
    lemma_bytes_value_push(s5, (x >> 48u64) as u8);
    lemma_bytes_value_push(s6, (x >> 56u64) as u8);
    assert(s =~= s7);
    assert(bytes_value(e) == 0);
    lemma2_to64();
    lemma2_to64_rest();
    assert((x as u8) as u64 == (x & 0xff)) by (bit_vector);
    assert(((x >> 8u64) as u8) as u64 == ((x >> 8u64) & 0xff)) by (bit_vector);
    assert(((x >> 16u64) as u8) as u64 == ((x >> 16u64) & 0xff)) by (bit_vector);
    assert(((x >> 24u64) as u8) as u64 == ((x >> 24u64) & 0xff)) by (bit_vector);
    assert(((x >> 32u64) as u8) as u64 == ((x >> 32u64) & 0xff)) by (bit_vector);
    assert(((x >> 40u64) as u8) as u64 == ((x >> 40u64) & 0xff)) by (bit_vector);
    assert(((x >> 48u64) as u8) as u64 == ((x >> 48u64) & 0xff)) by (bit_vector);
    assert(((x >> 56u64) as u8) as u64 == ((x >> 56u64) & 0xff)) by (bit_vector);
    assert(bytes_value(s0) == pow2(0) * (x as u8));
    assert(bytes_value(s0) == (x as u8) as nat);
    assert(bytes_value(s0) == (x & 0xff));
    assert(bytes_value(s1) == bytes_value(s0) + 0x100 * ((x >> 8u64) & 0xff));
    assert(bytes_value(s2) == bytes_value(s1) + 0x10000 * ((x >> 16u64) & 0xff));
    assert(bytes_value(s3) == bytes_value(s2) + 0x1000000 * ((x >> 24u64) & 0xff));
    assert(bytes_value(s4) == bytes_value(s3) + 0x100000000 * ((x >> 32u64) & 0xff));
    assert(bytes_value(s5) == bytes_value(s4) + 0x10000000000 * ((x >> 40u64) & 0xff));
    assert(bytes_value(s6) == bytes_value(s5) + 0x1000000000000 * ((x >> 48u64) & 0xff));
    assert(bytes_value(s7) == bytes_value(s6) + 0x100000000000000 * ((x >> 56u64) & 0xff));
    assert(x == (x & 0xff) + 0x100 * ((x >> 8u64) & 0xff) + 0x10000 * ((x >> 16u64) & 0xff)
        + 0x1000000 * ((x >> 24u64) & 0xff) + 0x100000000 * ((x >> 32u64) & 0xff) + 0x10000000000
        * ((x >> 40u64) & 0xff) + 0x1000000000000 * ((x >> 48u64) & 0xff) + 0x100000000000000 * ((x
        >> 56u64) & 0xff)) by (bit_vector);
}

/// The bit expansion of a byte sequence encodes the same integer.
pub proof fn lemma_expand_bits_value(bytes: Seq<u8>)
    ensures
        bits_value(expand_bits(bytes)) == bytes_value(bytes),
    decreases bytes.len(),
{
    if bytes.len() == 0 {
    } else {
        let head = byte_bits(bytes[0]);
        let rest = expand_bits(bytes.skip(1));
        let whole = expand_bits(bytes);
        lemma_expand_bits_value(bytes.skip(1));
        lemma_byte_bits_value(bytes[0]);
        lemma_bits_value_split(whole, 8);
        assert(whole.take(8) =~= head);
        assert(whole.skip(8) =~= rest);
        lemma2_to64();
    }
}

/// The bits of window j for width c: positions [c*j, c*j + c), clipped to the
/// bit length.  The final window may be narrower than c.
pub open spec fn window_bits(bits: Seq<bool>, c: nat, j: nat) -> Seq<bool> {
    let lo = if c * j <= bits.len() {
        (c * j) as int
    } else {
        bits.len() as int
    };
    let hi = if c * j + c <= bits.len() {
        (c * j + c) as int
    } else {
        bits.len() as int
    };
    bits.subrange(lo, hi)
}

/// The digit of window j: the unsigned integer its bits encode.
pub open spec fn digit_of(bits: Seq<bool>, c: nat, j: nat) -> nat {
    bits_value(window_bits(bits, c, j))
}

/// The integer encoded by a digit sequence for window width c:
/// digit j carries weight 2^(c*j).
pub open spec fn digits_value(digits: Seq<nat>, c: nat) -> nat
    decreases digits.len(),
{
    if digits.len() == 0 {
        0
    } else {
        digits[0] + pow2(c) * digits_value(digits.skip(1), c)
    }
}

/// Window j+1 of a bit sequence is window j of the sequence with the first
/// window removed.
proof fn lemma_window_shift(bits: Seq<bool>, c: nat, j: nat)
    requires
        1 <= c,
    ensures
        digit_of(bits, c, j + 1) == digit_of(
            bits.skip(
                if c <= bits.len() {
                    c as int
                } else {
                    bits.len() as int
                },
            ),
            c,
            j,
        ),
{
    assert(c * (j + 1) == c * j + c) by (nonlinear_arith);
    assert(c * j >= 0) by (nonlinear_arith);
    if c <= bits.len() {
        let tail = bits.skip(c as int);
        assert(window_bits(bits, c, (j + 1) as nat) =~= window_bits(tail, c, j));
    } else {
        let tail = bits.skip(bits.len() as int);
        assert(window_bits(bits, c, (j + 1) as nat) =~= Seq::<bool>::empty());
        assert(window_bits(tail, c, j) =~= Seq::<bool>::empty());
    }
}

/// Digit reconstruction: if a digit sequence holds all the windows of a bit
/// sequence for width c, then summing digit_j * 2^(c*j) yields exactly the
/// integer the bits encode.
pub proof fn lemma_digits_reconstruct(digits: Seq<nat>, bits: Seq<bool>, c: nat)
    requires
        1 <= c,
        bits.len() <= c * digits.len(),
        forall|j: int| 0 <= j < digits.len() ==> digits[j] == digit_of(bits, c, j as nat),
    ensures
        digits_value(digits, c) == bits_value(bits),
    decreases digits.len(),
{
    if digits.len() == 0 {
        assert(c * 0 == 0) by (nonlinear_arith);
        assert(bits.len() == 0);
    } else {
        let k = if c <= bits.len() {
            c as int
        } else {
            bits.len() as int
        };
        let tail = bits.skip(k);
        assert(c * (digits.len() - 1) == c * digits.len() - c) by (nonlinear_arith);
        assert(tail.len() <= c * digits.skip(1).len());
        assert forall|j: int| 0 <= j < digits.skip(1).len() implies digits.skip(1)[j] == digit_of(
            tail,
            c,
            j as nat,
        ) by {
            lemma_window_shift(bits, c, j as nat);
            assert(digits[j + 1] == digit_of(bits, c, (j + 1) as nat));
        }
        lemma_digits_reconstruct(digits.skip(1), tail, c);
        lemma_bits_value_split(bits, k);
        assert(c * 0 == 0) by (nonlinear_arith);
        assert(digits[0] == digit_of(bits, c, 0));
        assert(window_bits(bits, c, 0) =~= bits.take(k));
        if c <= bits.len() {
        } else {
            assert(tail =~= Seq::<bool>::empty());
            assert(bits_value(tail) == 0);
            assert(pow2(c) * bits_value(tail) == 0);
            assert(pow2(k as nat) * bits_value(tail) == 0);
        }
    }
}

/// A scalar field element in its canonical 32-byte little-endian encoding.
///
/// The spec-level model is `value()`, the unsigned integer the bytes encode.
/// The codec never interprets the scalar modulo the field order; evaluators
/// consume exactly the 256-bit pattern the collaborator hands over.
#[derive(Clone, Debug)]
pub struct Scalar {
    pub bytes: Vec<u8>,
}

impl Scalar {
    /// Well-formed: exactly 32 bytes.
    pub open spec fn wf(&self) -> bool {
        self.bytes@.len() == SCALAR_BYTES
    }

    /// The unsigned integer this scalar encodes.
    pub open spec fn value(&self) -> nat {
        bytes_value(self.bytes@)
    }

    /// The 256-bit little-endian expansion of this scalar.
    pub open spec fn bits(&self) -> Seq<bool> {
        expand_bits(self.bytes@)
    }

    /// Wraps a 32-byte little-endian encoding; rejects any other length.
    pub fn from_bytes_le(bytes: Vec<u8>) -> (r: Option<Scalar>)
        ensures
            bytes@.len() == SCALAR_BYTES ==> (r matches Some(s) && s.wf() && s.bytes@ == bytes@),
            bytes@.len() != SCALAR_BYTES ==> r is None,
    {
        if bytes.len() == SCALAR_BYTES {
            Some(Scalar { bytes })
        } else {
            None
        }
    }

    /// The scalar encoding a 64-bit integer.
    pub fn from_u64(x: u64) -> (s: Scalar)
        ensures
            s.wf(),
            s.value() == x,
    {
        let mut bytes: Vec<u8> = Vec::new();
        bytes.push(x as u8);
        bytes.push((x >> 8u64) as u8);
        bytes.push((x >> 16u64) as u8);
        bytes.push((x >> 24u64) as u8);
        bytes.push((x >> 32u64) as u8);
        bytes.push((x >> 40u64) as u8);
        bytes.push((x >> 48u64) as u8);
        bytes.push((x >> 56u64) as u8);
        proof {
            assert(bytes@ =~= seq![
                x as u8,
                (x >> 8u64) as u8,
                (x >> 16u64) as u8,
                (x >> 24u64) as u8,
                (x >> 32u64) as u8,
                (x >> 40u64) as u8,
                (x >> 48u64) as u8,
                (x >> 56u64) as u8,
            ]);
            lemma_u64_le_bytes(x);
        }
        let mut i: usize = 8;
        while i < 32
            invariant
                8 <= i <= 32,
                bytes@.len() == i,
                bytes_value(bytes@) == x,
            decreases 32 - i,
        {
            let ghost prev = bytes@;
            bytes.push(0u8);
            proof {
                lemma_bytes_value_push(prev, 0u8);
            }
            i = i + 1;
        }
        Scalar { bytes }
    }

    /// The zero scalar.
    pub fn zero() -> (s: Scalar)
        ensures
            s.wf(),
            s.value() == 0,
    {
        Scalar::from_u64(0)
    }

    /// The little-endian bit expansion, bit i of weight 2^i; 256 bits.
    pub fn to_bits(&self) -> (r: Vec<bool>)
        requires
            self.wf(),
        ensures
            r@ == self.bits(),
            r@.len() == SCALAR_BITS,
            bits_value(r@) == self.value(),
    {
        let mut r: Vec<bool> = Vec::new();
        let mut i: usize = 0;
        while i < SCALAR_BYTES
            invariant
                self.wf(),
                i <= SCALAR_BYTES,
                r@.len() == 8 * i,
                forall|i2: int, j2: int|
                    0 <= i2 < i && 0 <= j2 < 8 ==> r@[8 * i2 + j2] == byte_bits(self.bytes@[i2])[j2],
            decreases SCALAR_BYTES - i,
        {
            let byte = self.bytes[i];
            let mut j: u8 = 0;
            while j < 8
                invariant
                    self.wf(),
                    i < SCALAR_BYTES,
                    j <= 8,
                    byte == self.bytes@[i as int],
                    r@.len() == 8 * i + j,
                    forall|i2: int, j2: int|
                        0 <= i2 < i && 0 <= j2 < 8 ==> r@[8 * i2 + j2] == byte_bits(
                            self.bytes@[i2],
                        )[j2],
                    forall|j2: int| 0 <= j2 < j ==> r@[8 * i + j2] == byte_bits(byte)[j2],
                decreases 8 - j,
            {
                r.push((byte >> j) & 1u8 == 1u8);
                j = j + 1;
            }
            i = i + 1;
        }
        proof {
            lemma_expand_bits_len(self.bytes@);
            assert forall|k: int| 0 <= k < r@.len() implies r@[k] == expand_bits(self.bytes@)[k]
                by {
                let i2 = k / 8;
                let j2 = k % 8;
                vstd::arithmetic::div_mod::lemma_fundamental_div_mod(k, 8);
                vstd::arithmetic::div_mod::lemma_mod_bound(k, 8);
                lemma_expand_bits_index(self.bytes@, i2, j2);
            }
            assert(r@ =~= expand_bits(self.bytes@));
            lemma_expand_bits_value(self.bytes@);
        }
        r
    }

    /// Packs a 256-bit little-endian expansion back into a scalar; rejects
    /// any other length.  Inverse of `to_bits`.
    pub fn from_bits(bits: &Vec<bool>) -> (r: Option<Scalar>)
        ensures
            bits@.len() == SCALAR_BITS ==> (r matches Some(s) && s.wf() && s.value() == bits_value(
                bits@,
            )),
            bits@.len() != SCALAR_BITS ==> r is None,
    {
        if bits.len() != SCALAR_BITS {
            return None;
        }
        let mut bytes: Vec<u8> = Vec::new();
        let mut i: usize = 0;
        while i < SCALAR_BYTES
            invariant
                bits@.len() == SCALAR_BITS,
                i <= SCALAR_BYTES,
                bytes@.len() == i,
                bytes_value(bytes@) == bits_value(bits@.take(8 * i)),
            decreases SCALAR_BYTES - i,
        {
            let ghost window = bits@.subrange(8 * i as int, 8 * i + 8);
            let mut b: u8 = 0;
            let mut j: u8 = 0;
            while j < 8
                invariant
                    bits@.len() == SCALAR_BITS,
                    i < SCALAR_BYTES,
                    j <= 8,
                    window == bits@.subrange(8 * i as int, 8 * i + 8),
                    b == bits_value(window.take(j as int)),
                decreases 8 - j,
            {
                proof {
                    lemma_bits_value_take_succ(window, j as int);
                    lemma_bits_value_bound(window.take(j as int));
                    lemma2_to64();
                }
                assert(window[j as int] == bits@[8 * (i as int) + j]);
                if bits[8 * i + j as usize] {
                    proof {
                        lemma_pow2_strictly_increases(j as nat, 8);
                        assert(pow2(8) == 256);
                        assert(1u8 * pow2(j as nat) <= u8::MAX);
                        vstd::bits::lemma_u8_shl_is_mul(1u8, j);
                    }
                    b = b + (1u8 << j);
                    assert(bit_val(window[j as int]) == 1);
                    assert(b == bits_value(window.take(j as int)) + pow2(j as nat));
                } else {
                    assert(bit_val(window[j as int]) == 0);
                }
                assert(b == bits_value(window.take(j as int + 1)));
                j = j + 1;
            }
            proof {
                assert(window.take(8) =~= window);
            }
            let ghost prev = bytes@;
            bytes.push(b);
            proof {
                lemma_bytes_value_push(prev, b);
                lemma_bits_value_split(bits@.take(8 * (i + 1) as int), 8 * i as int);
                assert(bits@.take(8 * (i + 1) as int).take(8 * i as int) =~= bits@.take(
                    8 * i as int,
                ));
                assert(bits@.take(8 * (i + 1) as int).skip(8 * i as int) =~= window);
            }
            i = i + 1;
        }
        proof {
            assert(bits@.take(8 * SCALAR_BYTES as int) =~= bits@);
        }
        Some(Scalar { bytes })
    }

    /// The window digits of this scalar for width c, least-significant window
    /// first.  Digit j is the integer encoded by bits [c*j, c*j + c); the
    /// final window keeps only the bits below 256.  The two length bounds say
    /// the windows cover all 256 bits with no spare window.
    ///
    /// The width is capped at 63 so that every digit fits in a u64.
    pub fn to_digits(&self, c: usize) -> (r: Vec<u64>)
        requires
            self.wf(),
            1 <= c <= 63,
        ensures
            forall|j: int| 0 <= j < r@.len() ==> r@[j] == digit_of(self.bits(), c as nat, j as nat),
            SCALAR_BITS <= c * r@.len(),
            c * (r@.len() - 1) < SCALAR_BITS,
    {
        let bits = self.to_bits();
        let mut r: Vec<u64> = Vec::new();
        let mut start: usize = 0;
        while start < SCALAR_BITS
            invariant
                self.wf(),
                bits@ == self.bits(),
                bits@.len() == SCALAR_BITS,
                1 <= c <= 63,
                start == c * r@.len(),
                start < SCALAR_BITS + c,
                forall|j: int|
                    0 <= j < r@.len() ==> r@[j] == digit_of(self.bits(), c as nat, j as nat),
            decreases SCALAR_BITS + c - start,
        {
            let end = if start + c <= SCALAR_BITS {
                start + c
            } else {
                SCALAR_BITS
            };
            let ghost window = bits@.subrange(start as int, end as int);
            proof {
                assert(window =~= window_bits(self.bits(), c as nat, r@.len() as nat));
            }
            let mut d: u64 = 0;
            let mut t: u64 = 0;
            while t < (end - start) as u64
                invariant
                    bits@.len() == SCALAR_BITS,
                    start < end <= SCALAR_BITS,
                    end - start <= c <= 63,
                    t <= (end - start) as u64,
                    window == bits@.subrange(start as int, end as int),
                    d == bits_value(window.take(t as int)),
                decreases end - start - t,
            {
                proof {
                    lemma_bits_value_take_succ(window, t as int);
                    lemma_bits_value_bound(window.take(t as int));
                    vstd::bits::lemma_u64_pow2_no_overflow(t as nat);
                    lemma_pow2_strictly_increases(t as nat, 63);
                    lemma2_to64();
                    lemma2_to64_rest();
                }
                assert(window[t as int] == bits@[start + t]);
                if bits[start + t as usize] {
                    proof {
                        assert(1u64 * pow2(t as nat) <= u64::MAX);
                        vstd::bits::lemma_u64_shl_is_mul(1u64, t);
                    }
                    d = d + (1u64 << t);
                    assert(bit_val(window[t as int]) == 1);
                    assert(d == bits_value(window.take(t as int)) + pow2(t as nat));
                } else {
                    assert(bit_val(window[t as int]) == 0);
                }
                assert(d == bits_value(window.take(t as int + 1)));
                t = t + 1;
            }
            proof {
                assert(window.take((end - start) as int) =~= window);
            }
            let ghost oldlen = r@.len();
            r.push(d);
            proof {
                assert(c * r@.len() == c * oldlen + c) by (nonlinear_arith)
                    requires
                        r@.len() == oldlen + 1,
                ;
            }
            start = start + c;
        }
        proof {
            assert(c * (r@.len() - 1) == c * r@.len() - c) by (nonlinear_arith);
        }
        r
    }
}

/// Well-formedness of a scalar sequence: every entry is 32 bytes.
pub open spec fn wf_scalars(scalars: Seq<Scalar>) -> bool {
    forall|i: int| 0 <= i < scalars.len() ==> scalars[i].wf()
}

/// The integer values of a scalar sequence.
pub open spec fn scalar_values(scalars: Seq<Scalar>) -> Seq<nat> {
    scalars.map_values(|s: Scalar| s.value())
}

/// Reads a little-endian bit slice as a 64-bit integer: bit i has weight
/// 2^i.  The slice may be any length, as long as every set bit sits below
/// index 64, so the value fits the result.
pub fn bits_to_u64(bits: &[bool]) -> (r: u64)
    requires
        forall|i: int| 64 <= i < bits@.len() ==> !bits@[i],
    ensures
        r == bits_value(bits@),
{
    let n = bits.len();
    let mut r: u64 = 0;
    let mut i: usize = 0;
    while i < n
        invariant
            n == bits@.len(),
            i <= n,
            forall|k: int| 64 <= k < bits@.len() ==> !bits@[k],
            r == bits_value(bits@.take(i as int)),
        decreases n - i,
    {
        proof {
            lemma_bits_value_take_succ(bits@, i as int);
        }
        if bits[i] {
            proof {
                assert(i < 64);
                lemma2_to64();
                lemma2_to64_rest();
                if (i as nat) < 63 {
                    lemma_pow2_strictly_increases(i as nat, 63);
                }
                assert(1u64 * pow2(i as nat) <= u64::MAX);
                vstd::bits::lemma_u64_shl_is_mul(1u64, i as u64);
                lemma_bits_value_high_zero(bits@.take(i as int + 1));
                assert(bits_value(bits@.take(i as int + 1)) == r + pow2(i as nat));
            }
            r = r + (1u64 << (i as u64));
        }
        i = i + 1;
    }
    proof {
        assert(bits@.take(n as int) =~= bits@);
    }
    r
}

} // verus!
