//! A cursor over a byte buffer that reads or writes one bit at a time,
//! least-significant bit of each byte first.  A stream is fixed at
//! construction to one direction; using it the other way returns
//! `CodecError::WrongDirection`.

use vstd::prelude::*;

use crate::bits::bit_of_byte;
use crate::bits::bits_of_bytes;
use crate::bits::lemma_bits_inj;
use crate::bits::lemma_bits_of_bytes_add;
use crate::bits::lemma_unpack_pack;
use crate::bits::pack_bits;
use crate::CodecError;

verus! {

/// Number of bits held by a byte buffer whose last byte is only
/// partially used: `used` bits of it when `used != 0`.
spec fn partial_bits_len(s: Seq<u8>, used: u8) -> int {
    if used == 0 {
        8 * (s.len() as int)
    } else {
        8 * (s.len() as int - 1) + used
    }
}

/// The bits held by such a buffer.
spec fn partial_bits(s: Seq<u8>, used: u8) -> Seq<bool> {
    bits_of_bytes(s).take(partial_bits_len(s, used))
}

/// The unused high bits of the last byte are all 0.
spec fn partial_bits_padded(s: Seq<u8>, used: u8) -> bool {
    &&& used < 8
    &&& (used != 0 ==> s.len() > 0)
    &&& forall|k: int|
        partial_bits_len(s, used) <= k < 8 * s.len() ==> !(#[trigger] bits_of_bytes(s)[k])
}

proof fn lemma_bits_of_single(v: u8, i: u8)
    by (bit_vector)
    requires
        i < 8,
    ensures
        (0u8 >> i) & 1u8 == 0u8,
        i == 0 ==> (1u8 >> i) & 1u8 == 1u8,
        i != 0 ==> (1u8 >> i) & 1u8 == 0u8,
{
}

proof fn lemma_set_bit(v: u8, p: u8, i: u8)
    by (bit_vector)
    requires
        p < 8,
        i < 8,
    ensures
        i == p ==> ((v | (1u8 << p)) >> i) & 1u8 == 1u8,
        i != p ==> ((v | (1u8 << p)) >> i) & 1u8 == (v >> i) & 1u8,
{
}

/// Appends one bit to a byte buffer that holds a whole number of bits,
/// `used` of them in its final byte (0 meaning the buffer is byte-aligned).
fn push_partial_bit(v: &mut Vec<u8>, used: u8, b: bool)
    requires
        partial_bits_padded(old(v)@, used),
    ensures
        partial_bits_padded(final(v)@, if used == 7 {
            0
        } else {
            (used + 1) as u8
        }),
        partial_bits(final(v)@, if used == 7 {
            0
        } else {
            (used + 1) as u8
        }) == partial_bits(old(v)@, used).push(b),
{
    let ghost s0 = v@;
    let ghost n0 = partial_bits_len(s0, used);
    let used1: u8 = if used == 7 {
        0
    } else {
        used + 1
    };
    if used == 0 {
        let nb: u8 = if b {
            1
        } else {
            0
        };
        v.push(nb);
        proof {
            assert(v@ =~= s0 + seq![nb]);
            lemma_bits_of_bytes_add(s0, seq![nb]);
            assert forall|i: int| 0 <= i < 8 implies #[trigger] bits_of_bytes(seq![nb])[i] == (i
                == 0 && b) by {
                assert(bits_of_bytes(seq![nb])[i] == bit_of_byte(nb, i));
                lemma_bits_of_single(nb, i as u8);
            }
            assert(partial_bits(v@, used1) =~= partial_bits(s0, used).push(b));
        }
    } else {
        let last = v.len() - 1;
        let old_byte = v[last];
        let new_byte: u8 = if b {
            old_byte | (1u8 << used)
        } else {
            old_byte
        };
        v[last] = new_byte;
        proof {
            let s1 = v@;
            assert(s1 =~= s0.update(last as int, new_byte));
            assert forall|k: int| 0 <= k < 8 * s1.len() implies #[trigger] bits_of_bytes(s1)[k] == (
            if k == n0 {
                b
            } else {
                bits_of_bytes(s0)[k]
            }) by {
                let j = k / 8;
                let i = k % 8;
                assert(bits_of_bytes(s1)[k] == bit_of_byte(s1[j], i));
                assert(bits_of_bytes(s0)[k] == bit_of_byte(s0[j], i));
                if j == last {
                    if b {
                        lemma_set_bit(old_byte, used, i as u8);
                        assert(n0 == 8 * last + used);
                    } else {
                        assert(s1[j] == s0[j]);
                    }
                } else {
                    assert(s1[j] == s0[j]);
                }
            }
            if !b {
                assert(!bits_of_bytes(s0)[n0]);
            }
            assert(partial_bits(v@, used1) =~= partial_bits(s0, used).push(b));
            assert(partial_bits_padded(v@, used1));
        }
    }
}


/// Packs a bit vector into bytes, LSB-first with zero padding.
pub(crate) fn pack_bool_vec(bits: &Vec<bool>) -> (r: Vec<u8>)
    ensures
        r@ == pack_bits(bits@),
{
    let mut r: Vec<u8> = Vec::new();
    let n = bits.len();
    let mut j: usize = 0;
    while j < n
        invariant
            j <= n,
            n == bits@.len(),
            partial_bits_padded(r@, (j % 8) as u8),
            partial_bits_len(r@, (j % 8) as u8) == j,
            partial_bits(r@, (j % 8) as u8) == bits@.take(j as int),
        decreases n - j,
    {
        let used: u8 = (j % 8) as u8;
        let b = bits[j];
        proof {
            assert(partial_bits(r@, used).push(b) =~= bits@.take(j as int + 1));
        }
        push_partial_bit(&mut r, used, b);
        j = j + 1;
        proof {
            assert((j % 8) as u8 == if used == 7 {
                0u8
            } else {
                (used + 1) as u8
            });
        }
    }
    proof {
        assert(bits@.take(n as int) =~= bits@);
        lemma_unpack_pack(bits@);
        assert(pack_bits(bits@).len() == r@.len());
        assert forall|m: int| 0 <= m < 8 * r@.len() implies bits_of_bytes(r@)[m] == bits_of_bytes(
            pack_bits(bits@),
        )[m] by {
            if m < n {
                assert(bits_of_bytes(r@)[m] == partial_bits(r@, (n % 8) as u8)[m]);
            }
        }
        assert(bits_of_bytes(r@) =~= bits_of_bytes(pack_bits(bits@)));
        lemma_bits_inj(r@, pack_bits(bits@));
    }
    r
}


/// The character for one bit.
pub open spec fn bit_char(b: bool) -> char {
    if b {
        '1'
    } else {
        '0'
    }
}

/// The eight characters of a byte, least-significant bit first.
pub open spec fn byte_bin_chars(b: u8) -> Seq<char> {
    Seq::new(8, |i: int| bit_char(bit_of_byte(b, i)))
}

/// Every byte as eight bit characters LSB-first, bytes separated by one
/// space.
pub open spec fn bin_string_chars(s: Seq<u8>) -> Seq<char>
    decreases s.len(),
{
    if s.len() == 0 {
        Seq::empty()
    } else if s.len() == 1 {
        byte_bin_chars(s[0])
    } else {
        bin_string_chars(s.drop_last()) + seq![' '] + byte_bin_chars(s.last())
    }
}

/// Renders bytes as bit characters, least-significant bit of each byte
/// first, bytes separated by spaces.
pub fn bin_string_LSBF(bytes: &Vec<u8>) -> (r: String)
    ensures
        r@ == bin_string_chars(bytes@),
{
    proof {
        reveal_strlit("0");
        reveal_strlit("1");
        reveal_strlit(" ");
    }
    let mut r = String::new();
    let n = bytes.len();
    let mut k: usize = 0;
    proof {
        assert(bytes@.take(0) =~= Seq::<u8>::empty());
    }
    while k < n
        invariant
            k <= n,
            n == bytes@.len(),
            r@ == bin_string_chars(bytes@.take(k as int)),
        decreases n - k,
    {
        let ghost r0 = r@;
        if k > 0 {
            r.append(" ");
            proof {
                reveal_strlit(" ");
                assert(r@ =~= r0 + seq![' ']);
            }
        }
        let ghost rs = r@;
        let byte = bytes[k];
        let mut i: u8 = 0;
        while i < 8
            invariant
                i <= 8,
                byte == bytes@[k as int],
                r@ == rs + byte_bin_chars(byte).take(i as int),
            decreases 8 - i,
        {
            let ghost r1 = r@;
            let bit = ((byte >> i) & 1u8) == 1u8;
            if bit {
                r.append("1");
            } else {
                r.append("0");
            }
            proof {
                reveal_strlit("0");
                reveal_strlit("1");
                assert(byte_bin_chars(byte)[i as int] == bit_char(bit));
                assert(r@ =~= rs + byte_bin_chars(byte).take(i as int + 1));
            }
            i = i + 1;
        }
        proof {
            assert(byte_bin_chars(byte).take(8) =~= byte_bin_chars(byte));
            let pre = bytes@.take(k as int + 1);
            assert(pre.drop_last() =~= bytes@.take(k as int));
            assert(pre.last() == byte);
            if k == 0 {
                assert(r@ =~= byte_bin_chars(byte));
                assert(bin_string_chars(pre) == byte_bin_chars(pre[0]));
            } else {
                assert(r@ =~= bin_string_chars(bytes@.take(k as int)) + seq![' ']
                    + byte_bin_chars(byte));
            }
            assert(r@ =~= bin_string_chars(pre));
        }
        k = k + 1;
    }
    proof {
        assert(bytes@.take(n as int) =~= bytes@);
    }
    r
}

/// A bit cursor over a byte buffer, fixed at construction to read or
/// write.  In write mode, bits accumulate in an internal buffer until
/// `flush` appends them, zero-padded to a whole byte, to the output
/// bytes.  In read mode, bits are consumed from the wrapped bytes in
/// order, never re-reading a bit unless the stream is rewound.
pub struct BitStream {
    read_dir: bool,
    buff: Vec<u8>,
    byte_pos: usize,
    bit_pos: u8,
    out: Vec<u8>,
}

impl BitStream {
    /// Direction of this stream: true = read-only, false = write-only.
    pub closed spec fn is_read(self) -> bool {
        self.read_dir
    }

    /// Read mode: the bytes the stream was opened over.
    pub closed spec fn rdata(self) -> Seq<u8> {
        self.buff@
    }

    /// Read mode: how many bits have been consumed.
    pub closed spec fn rpos(self) -> int {
        8 * self.byte_pos + self.bit_pos
    }

    /// Write mode: the bits accumulated since the last flush.
    pub closed spec fn wbits(self) -> Seq<bool> {
        partial_bits(self.buff@, self.bit_pos)
    }

    /// Write mode: the bytes flushed so far.
    pub closed spec fn flushed(self) -> Seq<u8> {
        self.out@
    }

    /// Internal consistency; established by `new` and kept by every method.
    pub closed spec fn wf(self) -> bool {
        if self.read_dir {
            self.bit_pos < 8 && (self.byte_pos < self.buff@.len() || (self.byte_pos
                == self.buff@.len() && self.bit_pos == 0))
        } else {
            partial_bits_padded(self.buff@, self.bit_pos)
        }
    }

    /// A read cursor always sits between 0 and the total bit count.
    pub proof fn lemma_rpos_bounds(self)
        requires
            self.wf(),
            self.is_read(),
        ensures
            0 <= self.rpos() <= 8 * self.rdata().len(),
    {
    }

    /// Opens a stream over `init`: in read mode the bits of `init` are
    /// what will be read; in write mode `init` is the output written so
    /// far (an existing file is opened without truncation).
    pub fn new(init: Vec<u8>, read_dir: bool) -> (s: BitStream)
        ensures
            s.wf(),
            s.is_read() == read_dir,
            read_dir ==> s.rdata() == init@ && s.rpos() == 0,
            !read_dir ==> s.wbits() == Seq::<bool>::empty() && s.flushed() == init@,
    {
        if read_dir {
            BitStream { read_dir, buff: init, byte_pos: 0, bit_pos: 0, out: Vec::new() }
        } else {
            let s = BitStream { read_dir, buff: Vec::new(), byte_pos: 0, bit_pos: 0, out: init };
            proof {
                assert(s.wbits() =~= Seq::<bool>::empty());
            }
            s
        }
    }

    /// Write mode only: discards everything flushed so far, as truncating
    /// the underlying file to length zero would.
    pub fn clear_output_file(&mut self) -> (r: Result<(), CodecError>)
        requires
            old(self).wf(),
        ensures
            final(self).wf(),
            final(self).is_read() == old(self).is_read(),
            old(self).is_read() ==> r == Err::<(), CodecError>(CodecError::WrongDirection) && *final(self) == *old(self),
            !old(self).is_read() ==> r == Ok::<(), CodecError>(()) && final(self).flushed()
                == Seq::<u8>::empty() && final(self).wbits() == old(self).wbits(),
    {
        if self.read_dir {
            Err(CodecError::WrongDirection)
        } else {
            self.out.clear();
            Ok(())
        }
    }

    /// Write mode only: appends one bit to the accumulation buffer.
    fn write_bit(&mut self, b: bool)
        requires
            old(self).wf(),
            !old(self).is_read(),
        ensures
            final(self).wf(),
            !final(self).is_read(),
            final(self).wbits() == old(self).wbits().push(b),
            final(self).flushed() == old(self).flushed(),
    {
        let used = self.bit_pos;
        push_partial_bit(&mut self.buff, used, b);
        self.bit_pos = if used == 7 {
            0
        } else {
            used + 1
        };
    }

    /// Write mode only: appends the first `bit_len` bits of `in_buff`
    /// (LSB of byte 0 first) to the accumulation buffer.
    pub fn write_bit_sequence(&mut self, in_buff: &Vec<u8>, bit_len: usize) -> (r: Result<
        (),
        CodecError,
    >)
        requires
            old(self).wf(),
            bit_len <= 8 * in_buff@.len(),
        ensures
            final(self).wf(),
            final(self).is_read() == old(self).is_read(),
            old(self).is_read() ==> r == Err::<(), CodecError>(CodecError::WrongDirection) && *final(self) == *old(self),
            !old(self).is_read() ==> r == Ok::<(), CodecError>(()) && final(self).wbits() == old(self).wbits() + bits_of_bytes(in_buff@).take(bit_len as int) && final(self).flushed()
                == old(self).flushed(),
    {
        if self.read_dir {
            return Err(CodecError::WrongDirection);
        }
        let ghost w0 = self.wbits();
        let ghost src = bits_of_bytes(in_buff@);
        let mut k: usize = 0;
        while k < bit_len
            invariant
                self.wf(),
                !self.is_read(),
                k <= bit_len,
                bit_len <= 8 * in_buff@.len(),
                src == bits_of_bytes(in_buff@),
                self.wbits() == w0 + src.take(k as int),
                self.flushed() == old(self).flushed(),
            decreases bit_len - k,
        {
            let byte = in_buff[k / 8];
            let sh: u8 = (k % 8) as u8;
            let b = ((byte >> sh) & 1u8) == 1u8;
            proof {
                assert(b == src[k as int]);
                assert((w0 + src.take(k as int)).push(b) =~= w0 + src.take(k as int + 1));
            }
            self.write_bit(b);
            k = k + 1;
        }
        Ok(())
    }

    /// Write mode only: moves the accumulated bits, padded with 0 bits to
    /// a whole byte, onto the flushed output and resets the accumulator.
    pub fn flush(&mut self) -> (r: Result<(), CodecError>)
        requires
            old(self).wf(),
        ensures
            final(self).wf(),
            final(self).is_read() == old(self).is_read(),
            old(self).is_read() ==> r == Err::<(), CodecError>(CodecError::WrongDirection) && *final(self) == *old(self),
            !old(self).is_read() ==> r == Ok::<(), CodecError>(()) && final(self).flushed() == old(self).flushed() + pack_bits(old(self).wbits()) && final(self).wbits()
                == Seq::<bool>::empty(),
    {
        if self.read_dir {
            return Err(CodecError::WrongDirection);
        }
        proof {
            let s = self.buff@;
            let w = self.wbits();
            lemma_unpack_pack(w);
            assert(pack_bits(w).len() == s.len());
            assert forall|k: int| 0 <= k < 8 * s.len() implies bits_of_bytes(pack_bits(w))[k]
                == bits_of_bytes(s)[k] by {
                if k < w.len() {
                    assert(bits_of_bytes(pack_bits(w))[k] == w[k]);
                } else {
                    assert(!bits_of_bytes(pack_bits(w))[k]);
                    assert(!bits_of_bytes(s)[k]);
                }
            }
            assert(bits_of_bytes(pack_bits(w)) =~= bits_of_bytes(s));
            lemma_bits_inj(pack_bits(w), s);
        }
        self.out.append(&mut self.buff);
        self.bit_pos = 0;
        proof {
            assert(self.wbits() =~= Seq::<bool>::empty());
        }
        Ok(())
    }

    /// Consumes a write-mode stream and hands back its flushed bytes.
    pub fn into_output(self) -> (r: Vec<u8>)
        ensures
            r@ == self.flushed(),
    {
        self.out
    }

    /// Read mode only: consumes and returns the next bit.
    fn read_bit(&mut self) -> (b: bool)
        requires
            old(self).wf(),
            old(self).is_read(),
            old(self).rpos() < 8 * old(self).rdata().len(),
        ensures
            final(self).wf(),
            final(self).is_read(),
            final(self).rdata() == old(self).rdata(),
            final(self).rpos() == old(self).rpos() + 1,
            b == bits_of_bytes(old(self).rdata())[old(self).rpos()],
    {
        let n = self.buff.len();
        proof {
            assert(8 * self.byte_pos + self.bit_pos < 8 * self.buff@.len());
            assert(self.byte_pos < n);
        }
        let byte = self.buff[self.byte_pos];
        let b = ((byte >> self.bit_pos) & 1u8) == 1u8;
        proof {
            assert(old(self).rpos() / 8 == self.byte_pos && old(self).rpos() % 8 == self.bit_pos);
        }
        if self.bit_pos == 7 {
            self.bit_pos = 0;
            self.byte_pos = self.byte_pos + 1;
        } else {
            self.bit_pos = self.bit_pos + 1;
        }
        b
    }

    /// Read mode only: reads the next `size` bits — fewer if the stream
    /// ends first — and returns them packed LSB-first with zero padding.
    /// An empty result means no bits were left.
    pub fn read_bit_sequence(&mut self, size: usize) -> (r: Result<Vec<u8>, CodecError>)
        requires
            old(self).wf(),
        ensures
            final(self).wf(),
            final(self).is_read() == old(self).is_read(),
            !old(self).is_read() ==> r == Err::<Vec<u8>, CodecError>(CodecError::WrongDirection)
                && *final(self) == *old(self),
            old(self).is_read() ==> {
                let k = vstd::math::min(
                    size as int,
                    8 * old(self).rdata().len() - old(self).rpos(),
                );
                &&& r is Ok
                &&& r->Ok_0@ == pack_bits(
                    bits_of_bytes(old(self).rdata()).subrange(
                        old(self).rpos(),
                        old(self).rpos() + k,
                    ),
                )
                &&& final(self).rdata() == old(self).rdata()
                &&& final(self).rpos() == old(self).rpos() + k
            },
    {
        if !self.read_dir {
            return Err(CodecError::WrongDirection);
        }
        let ghost data = self.buff@;
        let ghost p0 = self.rpos();
        let mut result: Vec<u8> = Vec::new();
        let mut j: usize = 0;
        while j < size && self.byte_pos < self.buff.len()
            invariant
                self.wf(),
                self.is_read(),
                self.rdata() == data,
                j <= size,
                0 <= p0,
                p0 + j <= 8 * data.len(),
                self.rpos() == p0 + j,
                partial_bits_padded(result@, (j % 8) as u8),
                partial_bits_len(result@, (j % 8) as u8) == j,
                partial_bits(result@, (j % 8) as u8) == bits_of_bytes(data).subrange(
                    p0,
                    p0 + j as int,
                ),
            decreases size - j,
        {
            let b = self.read_bit();
            let used: u8 = (j % 8) as u8;
            proof {
                assert(self.rpos() <= 8 * self.rdata().len());
                assert(p0 + j as int + 1 <= 8 * data.len());
                let lhs = partial_bits(result@, used).push(b);
                let rhs = bits_of_bytes(data).subrange(p0, p0 + j as int + 1);
                assert(b == bits_of_bytes(data)[p0 + j as int]);
                assert forall|i: int| 0 <= i < j as int + 1 implies lhs[i] == rhs[i] by {
                    if i < j as int {
                        assert(lhs[i] == bits_of_bytes(data).subrange(p0, p0 + j as int)[i]);
                        assert(rhs[i] == bits_of_bytes(data)[p0 + i]);
                    }
                }
                assert(lhs =~= rhs);
            }
            push_partial_bit(&mut result, used, b);
            j = j + 1;
            proof {
                assert((j % 8) as u8 == if used == 7 {
                    0u8
                } else {
                    (used + 1) as u8
                });
            }
        }
        proof {
            let k = vstd::math::min(size as int, 8 * data.len() - p0);
            assert(self.rpos() <= 8 * data.len());
            if j < size {
                assert(self.byte_pos == self.buff@.len() && self.bit_pos == 0);
                assert(self.rpos() == 8 * data.len());
            }
            assert(j == k);
            let seg = bits_of_bytes(data).subrange(p0, p0 + k);
            lemma_unpack_pack(seg);
            assert(pack_bits(seg).len() == result@.len());
            assert forall|m: int| 0 <= m < 8 * result@.len() implies bits_of_bytes(result@)[m]
                == bits_of_bytes(pack_bits(seg))[m] by {
                if m < j {
                    assert(bits_of_bytes(result@)[m] == partial_bits(result@, (j % 8) as u8)[m]);
                }
            }
            assert(bits_of_bytes(result@) =~= bits_of_bytes(pack_bits(seg)));
            lemma_bits_inj(result@, pack_bits(seg));
        }
        Ok(result)
    }

    /// Read mode only: repositions the cursor at the first bit.
    pub fn rewind_read_stream(&mut self) -> (r: Result<(), CodecError>)
        requires
            old(self).wf(),
        ensures
            final(self).wf(),
            final(self).is_read() == old(self).is_read(),
            !old(self).is_read() ==> r == Err::<(), CodecError>(CodecError::WrongDirection)
                && *final(self) == *old(self),
            old(self).is_read() ==> r == Ok::<(), CodecError>(()) && final(self).rdata() == old(self).rdata() && final(self).rpos() == 0,
    {
        if !self.read_dir {
            return Err(CodecError::WrongDirection);
        }
        self.byte_pos = 0;
        self.bit_pos = 0;
        Ok(())
    }
}

} // verus!
