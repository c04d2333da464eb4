//! Bit-level model of byte streams: every byte carries eight bits, the
//! least-significant bit first, and a sequence of bits is packed into bytes
//! in that order with zero padding in the last byte.

use vstd::prelude::*;

verus! {

/// True iff bit `i` (0 = least significant) of byte `b` is set.
pub open spec fn bit_of_byte(b: u8, i: int) -> bool {
    (b >> (i as u8)) & 1u8 == 1u8
}

/// The bits of a byte sequence, eight per byte, least-significant first.
pub open spec fn bits_of_bytes(s: Seq<u8>) -> Seq<bool> {
    Seq::new(s.len() * 8, |k: int| bit_of_byte(s[k / 8], k % 8))
}

/// Bit `k` of `bits` as 0 or 1; 0 past either end.
pub open spec fn bitv(bits: Seq<bool>, k: int) -> u8 {
    if 0 <= k < bits.len() && bits[k] {
        1
    } else {
        0
    }
}

/// The byte whose bits, LSB first, are bits `k .. k + 8` of `bits`
/// (bits past the end of `bits` are 0).
pub open spec fn byte_at(bits: Seq<bool>, k: int) -> u8 {
    (bitv(bits, k) + 2 * bitv(bits, k + 1) + 4 * bitv(bits, k + 2) + 8 * bitv(bits, k + 3) + 16
        * bitv(bits, k + 4) + 32 * bitv(bits, k + 5) + 64 * bitv(bits, k + 6) + 128 * bitv(
        bits,
        k + 7,
    )) as u8
}

/// Bits packed into bytes LSB-first; the last byte is padded with 0 bits.
pub open spec fn pack_bits(bits: Seq<bool>) -> Seq<u8> {
    Seq::new((bits.len() + 7) / 8, |j: int| byte_at(bits, 8 * j))
}

proof fn lemma_bits_to_byte(b0: u8, b1: u8, b2: u8, b3: u8, b4: u8, b5: u8, b6: u8, b7: u8, i: u8)
    by (bit_vector)
    requires
        b0 <= 1,
        b1 <= 1,
        b2 <= 1,
        b3 <= 1,
        b4 <= 1,
        b5 <= 1,
        b6 <= 1,
        b7 <= 1,
        i < 8,
    ensures
        (((b0 + 2 * b1 + 4 * b2 + 8 * b3 + 16 * b4 + 32 * b5 + 64 * b6 + 128 * b7) as u8) >> i)
            & 1u8 == (if i == 0 {
            b0
        } else if i == 1 {
            b1
        } else if i == 2 {
            b2
        } else if i == 3 {
            b3
        } else if i == 4 {
            b4
        } else if i == 5 {
            b5
        } else if i == 6 {
            b6
        } else {
            b7
        }),
{
}

proof fn lemma_byte_to_bits(b: u8)
    by (bit_vector)
    ensures
        b == ((b >> 0u8) & 1u8) + 2 * ((b >> 1u8) & 1u8) + 4 * ((b >> 2u8) & 1u8) + 8 * ((b >> 3u8)
            & 1u8) + 16 * ((b >> 4u8) & 1u8) + 32 * ((b >> 5u8) & 1u8) + 64 * ((b >> 6u8) & 1u8)
            + 128 * ((b >> 7u8) & 1u8),
{
}

/// A single bit extracted from a byte is 0 or 1.
proof fn lemma_bit_le_one(b: u8, i: u8)
    by (bit_vector)
    ensures
        (b >> i) & 1u8 <= 1,
{
}

/// Each bit of a packed byte is the corresponding source bit.
proof fn lemma_byte_at_bits(bits: Seq<bool>, k: int, i: int)
    requires
        0 <= i < 8,
        k % 8 == 0,
    ensures
        bit_of_byte(byte_at(bits, k), i) == (k + i < bits.len() && 0 <= k + i && bits[k + i]),
{
    lemma_bits_to_byte(
        bitv(bits, k),
        bitv(bits, k + 1),
        bitv(bits, k + 2),
        bitv(bits, k + 3),
        bitv(bits, k + 4),
        bitv(bits, k + 5),
        bitv(bits, k + 6),
        bitv(bits, k + 7),
        i as u8,
    );
}

/// Unpacking packed bits returns the bits, followed by 0 padding in the
/// final byte.
pub proof fn lemma_unpack_pack(bits: Seq<bool>)
    ensures
        bits_of_bytes(pack_bits(bits)).len() == 8 * ((bits.len() + 7) / 8),
        forall|k: int|
            0 <= k < bits.len() ==> #[trigger] bits_of_bytes(pack_bits(bits))[k] == bits[k],
        forall|k: int|
            bits.len() <= k < 8 * ((bits.len() + 7) / 8) ==> !(#[trigger] bits_of_bytes(
                pack_bits(bits),
            )[k]),
{
    let p = pack_bits(bits);
    assert forall|k: int| 0 <= k < 8 * ((bits.len() + 7) / 8) implies #[trigger] bits_of_bytes(p)[k]
        == (k < bits.len() && bits[k]) by {
        assert(bits_of_bytes(p)[k] == bit_of_byte(p[k / 8], k % 8));
        assert(p[k / 8] == byte_at(bits, 8 * (k / 8)));
        lemma_byte_at_bits(bits, 8 * (k / 8), k % 8);
        assert(8 * (k / 8) + k % 8 == k);
    }
}

/// Packing the bits of a byte sequence returns the bytes themselves.
pub proof fn lemma_pack_unpack(s: Seq<u8>)
    ensures
        pack_bits(bits_of_bytes(s)) == s,
{
    let bits = bits_of_bytes(s);
    assert(pack_bits(bits).len() == s.len());
    assert forall|j: int| 0 <= j < s.len() implies #[trigger] pack_bits(bits)[j] == s[j] by {
        let b = s[j];
        assert forall|i: int| #![trigger bitv(bits, 8 * j + i)] 0 <= i < 8 implies bitv(
            bits,
            8 * j + i,
        ) == (b >> (i as u8)) & 1u8 by {
            assert(bits[8 * j + i] == bit_of_byte(s[(8 * j + i) / 8], (8 * j + i) % 8));
            assert((8 * j + i) / 8 == j && (8 * j + i) % 8 == i);
            lemma_bit_le_one(b, i as u8);
        }
        lemma_byte_to_bits(b);
        assert(bitv(bits, 8 * j + 0) == (b >> 0u8) & 1u8);
        assert(bitv(bits, 8 * j) == bitv(bits, 8 * j + 0));
        assert(bitv(bits, 8 * j + 1) == (b >> 1u8) & 1u8);
        assert(bitv(bits, 8 * j + 2) == (b >> 2u8) & 1u8);
        assert(bitv(bits, 8 * j + 3) == (b >> 3u8) & 1u8);
        assert(bitv(bits, 8 * j + 4) == (b >> 4u8) & 1u8);
        assert(bitv(bits, 8 * j + 5) == (b >> 5u8) & 1u8);
        assert(bitv(bits, 8 * j + 6) == (b >> 6u8) & 1u8);
        assert(bitv(bits, 8 * j + 7) == (b >> 7u8) & 1u8);
    }
    assert(pack_bits(bits) =~= s);
}

/// Two byte sequences with the same bits are the same bytes.
pub proof fn lemma_bits_inj(x: Seq<u8>, y: Seq<u8>)
    requires
        bits_of_bytes(x) == bits_of_bytes(y),
        x.len() == y.len(),
    ensures
        x == y,
{
    lemma_pack_unpack(x);
    lemma_pack_unpack(y);
}

/// The two bytes of a 16-bit value, little-endian.
pub open spec fn le16_bytes(v: u16) -> Seq<u8> {
    seq![(v % 256) as u8, (v / 256) as u8]
}

/// The 16-bit value read from two little-endian bytes.
pub open spec fn le16_val(b0: u8, b1: u8) -> u16 {
    (b0 + 256 * b1) as u16
}

/// The four bytes of a 32-bit value, little-endian.
pub open spec fn le32_bytes(v: u32) -> Seq<u8> {
    seq![
        (v % 256) as u8,
        ((v / 256) % 256) as u8,
        ((v / 0x10000) % 256) as u8,
        (v / 0x1000000) as u8,
    ]
}

/// The 32-bit value read from four little-endian bytes.
pub open spec fn le32_val(b0: u8, b1: u8, b2: u8, b3: u8) -> u32 {
    (b0 + 256 * b1 + 0x10000 * b2 + 0x1000000 * b3) as u32
}

proof fn lemma_le16_parts(v: u16)
    by (bit_vector)
    ensures
        v % 256 < 256,
        v / 256 < 256,
        (v % 256) + 256 * (v / 256) == v,
{
}

/// A 16-bit value survives the round trip through its little-endian bytes.
pub proof fn lemma_le16_round_trip(v: u16)
    ensures
        le16_val(le16_bytes(v)[0], le16_bytes(v)[1]) == v,
{
    lemma_le16_parts(v);
}

proof fn lemma_le32_parts(v: u32)
    by (bit_vector)
    ensures
        v % 256 < 256,
        (v / 256) % 256 < 256,
        (v / 0x10000) % 256 < 256,
        v / 0x1000000 < 256,
        (v % 256) + 256 * ((v / 256) % 256) + 0x10000 * ((v / 0x10000) % 256) + 0x1000000 * (v
            / 0x1000000) == v,
{
}

/// A 32-bit value survives the round trip through its little-endian bytes.
pub proof fn lemma_le32_round_trip(v: u32)
    ensures
        le32_val(le32_bytes(v)[0], le32_bytes(v)[1], le32_bytes(v)[2], le32_bytes(v)[3]) == v,
{
    lemma_le32_parts(v);
}

/// Law: bits written to a stream survive packing — every window of the
/// bit sequence a reader consumes from the packed bytes equals the same
/// window of the written bits.  Reading back a sequence of bit-lengths
/// `n_1, n_2, ...` therefore returns exactly the bits written, in order.
pub proof fn lemma_bitstream_involution(written: Seq<bool>, p: int, n: int)
    requires
        0 <= p,
        0 <= n,
        p + n <= written.len(),
    ensures
        bits_of_bytes(pack_bits(written)).subrange(p, p + n) == written.subrange(p, p + n),
{
    lemma_unpack_pack(written);
    assert(bits_of_bytes(pack_bits(written)).subrange(p, p + n) =~= written.subrange(p, p + n));
}

/// Bits of a concatenation are the concatenated bits.
pub proof fn lemma_bits_of_bytes_add(a: Seq<u8>, b: Seq<u8>)
    ensures
        bits_of_bytes(a + b) == bits_of_bytes(a) + bits_of_bytes(b),
{
    let lhs = bits_of_bytes(a + b);
    let rhs = bits_of_bytes(a) + bits_of_bytes(b);
    assert forall|k: int| 0 <= k < lhs.len() implies lhs[k] == rhs[k] by {
        if k < 8 * a.len() {
            assert((a + b)[k / 8] == a[k / 8]);
        } else {
            let k2 = k - 8 * a.len();
            assert(k / 8 == k2 / 8 + a.len() && k % 8 == k2 % 8);
            assert((a + b)[k / 8] == b[k2 / 8]);
            assert(rhs[k] == bit_of_byte(b[k2 / 8], k2 % 8));
        }
    }
    assert(lhs =~= rhs);
}


/// Aligned byte subranges carry exactly the corresponding bits.
pub proof fn lemma_bits_of_bytes_subrange(s: Seq<u8>, a: int, b: int)
    requires
        0 <= a <= b <= s.len(),
    ensures
        bits_of_bytes(s.subrange(a, b)) == bits_of_bytes(s).subrange(8 * a, 8 * b),
{
    let lhs = bits_of_bytes(s.subrange(a, b));
    let rhs = bits_of_bytes(s).subrange(8 * a, 8 * b);
    assert forall|k: int| 0 <= k < lhs.len() implies lhs[k] == rhs[k] by {
        assert(lhs[k] == bit_of_byte(s.subrange(a, b)[k / 8], k % 8));
        assert(s.subrange(a, b)[k / 8] == s[a + k / 8]);
        assert(rhs[k] == bits_of_bytes(s)[8 * a + k]);
        assert((8 * a + k) / 8 == a + k / 8 && (8 * a + k) % 8 == k % 8);
    }
    assert(lhs =~= rhs);
}

/// Packing bits appended after whole bytes yields those bytes followed
/// by the packed bits.
pub proof fn lemma_pack_bits_aligned(h: Seq<u8>, rest: Seq<bool>)
    ensures
        pack_bits(bits_of_bytes(h) + rest) == h + pack_bits(rest),
{
    let all = bits_of_bytes(h) + rest;
    let hn = h.len() as int;
    lemma_pack_unpack(h);
    assert(pack_bits(all).len() == h.len() + pack_bits(rest).len());
    assert forall|j: int| 0 <= j < pack_bits(all).len() implies #[trigger] pack_bits(all)[j] == (
    h + pack_bits(rest))[j] by {
        if j < hn {
            assert forall|i: int| #![trigger bitv(all, 8 * j + i)] 0 <= i < 8 implies bitv(
                all,
                8 * j + i,
            ) == bitv(bits_of_bytes(h), 8 * j + i) by {
                assert(8 * j + i < 8 * hn);
            }
            assert(bitv(all, 8 * j + 0) == bitv(bits_of_bytes(h), 8 * j + 0));
            assert(bitv(all, 8 * j) == bitv(all, 8 * j + 0));
            assert(bitv(bits_of_bytes(h), 8 * j) == bitv(bits_of_bytes(h), 8 * j + 0));
            assert(byte_at(all, 8 * j) == byte_at(bits_of_bytes(h), 8 * j));
            assert(pack_bits(bits_of_bytes(h))[j] == byte_at(bits_of_bytes(h), 8 * j));
        } else {
            let j2 = j - hn;
            assert forall|i: int| #![trigger bitv(all, 8 * j + i)] 0 <= i < 8 implies bitv(
                all,
                8 * j + i,
            ) == bitv(rest, 8 * j2 + i) by {
                if 8 * j + i < all.len() {
                    assert(all[8 * j + i] == rest[8 * j2 + i]);
                }
            }
            assert(bitv(all, 8 * j + 0) == bitv(rest, 8 * j2 + 0));
            assert(bitv(all, 8 * j) == bitv(all, 8 * j + 0));
            assert(bitv(rest, 8 * j2) == bitv(rest, 8 * j2 + 0));
            assert(byte_at(all, 8 * j) == byte_at(rest, 8 * j2));
            assert((h + pack_bits(rest))[j] == pack_bits(rest)[j2]);
        }
    }
    assert(pack_bits(all) =~= h + pack_bits(rest));
}

} // verus!
