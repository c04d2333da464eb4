//! Enhanced LZW codec.  The dictionary is an append-only table of
//! (trailing byte, predecessor index) pairs whose first 256 entries are
//! the base alphabet; a hash index from pairs to their table position
//! gives the encoder constant-time membership checks.  Codes are 16-bit
//! little-endian; 0xFFFF is reserved as the dictionary-reset sentinel.

use std::collections::HashMap;

use vstd::prelude::*;

use crate::bits::le16_bytes;
use crate::bits::le16_val;
use crate::transform::inverse_blocks_spec;
use crate::transform::inverse_blocks_wf;
use crate::transform::inverse_transform_blocks;
use crate::transform::transform_blocks;
use crate::transform::transform_blocks_spec;
use crate::CodecError;

verus! {

/// Most dictionary entries an encoder will create; code 0xFFFF stays
/// reserved for the reset sentinel.
pub const MAX_DICT_SIZE: usize = 0xFFFF;

/// The reserved code that tells the decoder to reset its dictionary.
pub const CLEAR_SYMBOL: u16 = 0xFFFF;

/// The 256 base entries: byte `i` with no predecessor.
pub open spec fn base_dict() -> Seq<(u8, Option<u16>)> {
    Seq::new(256, |i: int| (i as u8, None::<u16>))
}

/// First position of `pair` in the dictionary; the length when absent.
pub open spec fn dict_pos(d: Seq<(u8, Option<u16>)>, pair: (u8, Option<u16>)) -> int
    decreases d.len(),
{
    if d.len() == 0 {
        0
    } else if d[0] == pair {
        0
    } else {
        1 + dict_pos(d.drop_first(), pair)
    }
}

/// The index of `pair` in the dictionary, if it is present.
pub open spec fn dict_find(d: Seq<(u8, Option<u16>)>, pair: (u8, Option<u16>)) -> Option<u16> {
    if dict_pos(d, pair) < d.len() {
        Some(dict_pos(d, pair) as u16)
    } else {
        None
    }
}

proof fn lemma_dict_pos(d: Seq<(u8, Option<u16>)>, pair: (u8, Option<u16>))
    ensures
        0 <= dict_pos(d, pair) <= d.len(),
        dict_pos(d, pair) < d.len() ==> d[dict_pos(d, pair)] == pair,
        forall|j: int| 0 <= j < dict_pos(d, pair) ==> d[j] != pair,
        dict_pos(d, pair) == d.len() ==> forall|j: int| 0 <= j < d.len() ==> d[j] != pair,
    decreases d.len(),
{
    if d.len() > 0 && d[0] != pair {
        lemma_dict_pos(d.drop_first(), pair);
        assert forall|j: int| 1 <= j < d.len() implies d[j] == d.drop_first()[j - 1] by {}
    }
}

/// The byte string entry `i` stands for: its predecessor's string, then
/// its trailing byte.  Entries below 256 stand for their own byte.  (A
/// predecessor that does not point strictly backwards is ignored; no
/// dictionary this library builds holds one.)
pub open spec fn recover_spec(d: Seq<(u8, Option<u16>)>, i: int) -> Seq<u8>
    decreases i,
{
    if !(0 <= i < d.len()) {
        Seq::empty()
    } else {
        match d[i].1 {
            None => seq![d[i].0],
            Some(p) => if p < i {
                recover_spec(d, p as int) + seq![d[i].0]
            } else {
                seq![d[i].0]
            },
        }
    }
}

proof fn lemma_recover_len(d: Seq<(u8, Option<u16>)>, i: int)
    requires
        0 <= i < d.len(),
    ensures
        recover_spec(d, i).len() >= 1,
    decreases i,
{
}

/// One LZW dictionary with its reverse index.
pub struct LZWCoderEnhanced {
    dict: Vec<(u8, Option<u16>)>,
    reverse_dict_map: HashMap<u32, u16>,
    max_dict_size: usize,
    clear_dict_on_overfill: bool,
}

/// The reverse-index key of a (trailing byte, predecessor) pair.
pub open spec fn pair_key(pair: (u8, Option<u16>)) -> u32 {
    (match pair.1 {
        None => 0,
        Some(p) => p + 1,
    } * 256 + pair.0) as u32
}

proof fn lemma_pair_key_inj(a: (u8, Option<u16>), b: (u8, Option<u16>))
    requires
        pair_key(a) == pair_key(b),
    ensures
        a == b,
{
    let ka = match a.1 {
        None => 0int,
        Some(p) => p + 1,
    };
    let kb = match b.1 {
        None => 0int,
        Some(p) => p + 1,
    };
    assert((ka * 256 + a.0) as u32 == (kb * 256 + b.0) as u32);
    assert(0 <= ka * 256 + a.0 < 0x1_0000_0000);
    assert(0 <= kb * 256 + b.0 < 0x1_0000_0000);
    assert(ka * 256 + a.0 == kb * 256 + b.0);
    assert((ka * 256 + a.0) % 256 == a.0 as int) by (nonlinear_arith)
        requires
            0 <= ka,
            0 <= a.0 < 256,
    ;
    assert((kb * 256 + b.0) % 256 == b.0 as int) by (nonlinear_arith)
        requires
            0 <= kb,
            0 <= b.0 < 256,
    ;
    assert(a.0 == b.0);
    assert(ka == kb) by (nonlinear_arith)
        requires
            ka * 256 + a.0 == kb * 256 + b.0,
            a.0 == b.0,
    ;
}

impl LZWCoderEnhanced {
    /// The dictionary as a sequence of entries.
    pub closed spec fn dict_view(self) -> Seq<(u8, Option<u16>)> {
        self.dict@
    }

    /// The configured capacity.
    pub closed spec fn max_view(self) -> int {
        self.max_dict_size as int
    }

    /// Whether the dictionary resets when it fills.
    pub closed spec fn clear_view(self) -> bool {
        self.clear_dict_on_overfill
    }

    /// The dictionary starts with the base alphabet, stays within its
    /// bounds, and every predecessor points strictly backwards.
    pub closed spec fn inv(self) -> bool {
        &&& 256 <= self.dict@.len() <= 65536
        &&& self.max_dict_size <= 65536
        &&& (forall|i: int| 0 <= i < 256 ==> self.dict@[i] == (i as u8, None::<u16>))
        &&& (forall|j: int|
            0 <= j < self.dict@.len() ==> (match (#[trigger] self.dict@[j]).1 {
                Some(p) => 0 <= p < j,
                None => true,
            }))
    }

    /// The reverse index lists exactly the dictionary's pairs, each at
    /// its unique position.
    pub closed spec fn rev_inv(self) -> bool {
        &&& (forall|i: int, j: int|
            0 <= i < j < self.dict@.len() ==> self.dict@[i] != self.dict@[j])
        &&& (forall|j: int|
            0 <= j < self.dict@.len() ==> {
                &&& self.reverse_dict_map@.contains_key(#[trigger] pair_key(self.dict@[j]))
                &&& self.reverse_dict_map@[pair_key(self.dict@[j])] == j as u16
            })
        &&& (forall|k: u32|
            self.reverse_dict_map@.dom().contains(k) ==> exists|j: int|
                0 <= j < self.dict@.len() && pair_key(#[trigger] self.dict@[j]) == k)
    }

    /// Creates a coder with an empty dictionary (filled by
    /// `set_init_dict`) and the given capacity and reset policy.
    pub fn new(max_dict_size: usize, clear_dict_on_overfill: bool) -> (r: LZWCoderEnhanced)
        requires
            max_dict_size <= 65536,
        ensures
            r.inv(),
            r.rev_inv(),
            r.dict_view() == base_dict(),
            r.max_view() == max_dict_size as int,
            r.clear_view() == clear_dict_on_overfill,
    {
        let mut coder = LZWCoderEnhanced {
            dict: Vec::new(),
            reverse_dict_map: HashMap::new(),
            max_dict_size,
            clear_dict_on_overfill,
        };
        coder.set_init_dict();
        coder
    }

    /// Resets the dictionary to the 256 base entries and rebuilds the
    /// reverse index to match.
    pub fn set_init_dict(&mut self)
        requires
            old(self).max_view() <= 65536,
        ensures
            final(self).inv(),
            final(self).rev_inv(),
            final(self).dict_view() == base_dict(),
            final(self).max_view() == old(self).max_view(),
            final(self).clear_view() == old(self).clear_view(),
    {
        broadcast use vstd::std_specs::hash::group_hash_axioms;

        self.dict.clear();
        self.reverse_dict_map.clear();
        let mut i: usize = 0;
        while i < 256
            invariant
                i <= 256,
                self.dict@.len() == i,
                forall|j: int| 0 <= j < i ==> self.dict@[j] == (j as u8, None::<u16>),
                forall|j: int|
                    0 <= j < i ==> {
                        &&& self.reverse_dict_map@.contains_key(#[trigger] pair_key(self.dict@[j]))
                        &&& self.reverse_dict_map@[pair_key(self.dict@[j])] == j as u16
                    },
                forall|k: u32|
                    self.reverse_dict_map@.dom().contains(k) ==> exists|j: int|
                        0 <= j < i && pair_key(#[trigger] self.dict@[j]) == k,
                self.max_dict_size == old(self).max_dict_size,
                self.clear_dict_on_overfill == old(self).clear_dict_on_overfill,
            decreases 256 - i,
        {
            let ghost d0 = self.dict@;
            let pair = (i as u8, None::<u16>);
            let key: u32 = i as u32;
            proof {
                assert(pair_key(pair) == i);
            }
            self.dict.push(pair);
            self.reverse_dict_map.insert(key, i as u16);
            proof {
                assert forall|j: int| 0 <= j < i + 1 implies self.dict@[j] == (
                    j as u8,
                    None::<u16>,
                ) by {
                    if j < i {
                        assert(self.dict@[j] == d0[j]);
                    }
                }
                assert forall|j: int|
                    0 <= j < i + 1 implies #[trigger] pair_key(self.dict@[j]) == j by {}
                assert forall|k: u32|
                    self.reverse_dict_map@.dom().contains(k) implies exists|j: int|
                    0 <= j < i + 1 && pair_key(#[trigger] self.dict@[j]) == k by {
                    if k == i {
                        assert(pair_key(self.dict@[i as int]) == k);
                    } else {
                        let j = choose|j: int| 0 <= j < i && pair_key(#[trigger] d0[j]) == k;
                        assert(self.dict@[j] == d0[j]);
                        assert(pair_key(self.dict@[j]) == k);
                    }
                }
            }
            i = i + 1;
        }
        proof {
            assert(self.dict@ =~= base_dict());
            assert forall|i2: int, j2: int|
                0 <= i2 < j2 < self.dict@.len() implies self.dict@[i2] != self.dict@[j2] by {
                assert(self.dict@[i2].0 == i2 as u8 && self.dict@[j2].0 == j2 as u8);
            }
        }
    }

    /// Looks a pair up in the reverse index.
    pub fn find_seq_in_dict(&self, pair: (u8, Option<u16>)) -> (r: Option<u16>)
        requires
            self.inv(),
            self.rev_inv(),
        ensures
            r == dict_find(self.dict_view(), pair),
    {
        broadcast use vstd::std_specs::hash::group_hash_axioms;

        let key: u32 = match pair.1 {
            None => 0u32,
            Some(p) => p as u32 + 1,
        } * 256 + pair.0 as u32;
        proof {
            assert(key == pair_key(pair));
            lemma_dict_pos(self.dict@, pair);
        }
        match self.reverse_dict_map.get(&key) {
            Some(idx) => {
                proof {
                    let j = choose|j: int|
                        0 <= j < self.dict@.len() && pair_key(#[trigger] self.dict@[j]) == key;
                    lemma_pair_key_inj(self.dict@[j], pair);
                    assert(self.dict@[j] == pair);
                    assert(*idx == j as u16);
                    // the pair occurs exactly once, so j is its first position
                    let p = dict_pos(self.dict@, pair);
                    assert(p < self.dict@.len());
                    if p != j {
                        assert(self.dict@[p] == pair && self.dict@[j] == pair);
                        assert(false);
                    }
                }
                Some(*idx)
            },
            None => {
                proof {
                    let p = dict_pos(self.dict@, pair);
                    if p < self.dict@.len() {
                        assert(self.dict@[p] == pair);
                        assert(self.reverse_dict_map@.contains_key(pair_key(self.dict@[p])));
                        assert(false);
                    }
                }
                None
            },
        }
    }

    /// Appends a pair when there is room; refused (false) once the
    /// dictionary holds `max_dict_size` entries.
    pub fn add_seq_to_dict(&mut self, pair: (u8, Option<u16>)) -> (added: bool)
        requires
            old(self).inv(),
            match pair.1 {
                Some(p) => 0 <= p < old(self).dict_view().len(),
                None => true,
            },
        ensures
            final(self).inv(),
            final(self).max_view() == old(self).max_view(),
            final(self).clear_view() == old(self).clear_view(),
            added == (old(self).dict_view().len() < old(self).max_view()),
            added ==> final(self).dict_view() == old(self).dict_view().push(pair),
            !added ==> final(self).dict_view() == old(self).dict_view(),
            old(self).rev_inv() && dict_find(old(self).dict_view(), pair) is None ==> final(self).rev_inv(),
    {
        broadcast use vstd::std_specs::hash::group_hash_axioms;

        if self.dict.len() < self.max_dict_size {
            let ghost d0 = self.dict@;
            let key: u32 = match pair.1 {
                None => 0u32,
                Some(p) => p as u32 + 1,
            } * 256 + pair.0 as u32;
            proof {
                assert(key == pair_key(pair));
            }
            let idx = self.get_last_dict_index();
            self.dict.push(pair);
            self.reverse_dict_map.insert(key, idx + 1);
            proof {
                assert(idx + 1 == d0.len());
                assert forall|i: int| 0 <= i < 256 implies self.dict@[i] == (
                    i as u8,
                    None::<u16>,
                ) by {
                    assert(self.dict@[i] == d0[i]);
                }
                if old(self).rev_inv() && dict_find(d0, pair) is None {
                    lemma_dict_pos(d0, pair);
                    assert forall|i: int, j: int|
                        0 <= i < j < self.dict@.len() implies self.dict@[i] != self.dict@[j] by {
                        if j < d0.len() {
                            assert(self.dict@[i] == d0[i] && self.dict@[j] == d0[j]);
                        } else {
                            assert(self.dict@[j] == pair && self.dict@[i] == d0[i]);
                        }
                    }
                    assert forall|j: int|
                        0 <= j < self.dict@.len() implies {
                        &&& self.reverse_dict_map@.contains_key(#[trigger] pair_key(self.dict@[j]))
                        &&& self.reverse_dict_map@[pair_key(self.dict@[j])] == j as u16
                    } by {
                        if j < d0.len() {
                            assert(self.dict@[j] == d0[j]);
                            assert(pair_key(d0[j]) != key) by {
                                if pair_key(d0[j]) == key {
                                    lemma_pair_key_inj(d0[j], pair);
                                }
                            }
                        }
                    }
                    assert forall|k: u32|
                        self.reverse_dict_map@.dom().contains(k) implies exists|j: int|
                        0 <= j < self.dict@.len() && pair_key(#[trigger] self.dict@[j]) == k by {
                        if k == key {
                            assert(pair_key(self.dict@[d0.len() as int]) == k);
                        } else {
                            assert(old(self).reverse_dict_map@.dom().contains(k));
                            let j = choose|j: int|
                                0 <= j < d0.len() && pair_key(#[trigger] d0[j]) == k;
                            assert(pair_key(self.dict@[j]) == k);
                        }
                    }
                }
            }
            true
        } else {
            false
        }
    }

    /// Recovers the byte string of entry `idx` by walking predecessor
    /// links and reversing; `None` when `idx` is outside the dictionary.
    pub fn recover_seq_from_dict(&self, idx: u16) -> (r: Option<Vec<u8>>)
        requires
            self.inv(),
        ensures
            idx < self.dict_view().len() ==> r is Some && r->Some_0@ == recover_spec(
                self.dict_view(),
                idx as int,
            ) && r->Some_0@.len() >= 1,
            idx >= self.dict_view().len() ==> r is None,
    {
        let n = self.dict.len();
        if idx as usize >= n {
            return None;
        }
        let ghost d = self.dict@;
        let mut collected: Vec<u8> = Vec::new();
        let mut cur: usize = idx as usize;
        proof {
            assert(recover_spec(d, idx as int) =~= recover_spec(d, cur as int)
                + collected@.reverse());
        }
        loop
            invariant_except_break
                cur < n,
                n == d.len(),
                d == self.dict@,
                self.inv(),
                recover_spec(d, idx as int) == recover_spec(d, cur as int) + collected@.reverse(),
            ensures
                recover_spec(d, idx as int) == collected@.reverse(),
            decreases cur,
        {
            let (byte, pred) = self.dict[cur];
            let ghost c0 = collected@;
            collected.push(byte);
            proof {
                assert(collected@.reverse() =~= seq![byte] + c0.reverse());
            }
            match pred {
                Some(p) => {
                    proof {
                        assert(d[cur as int].1 == Some(p));
                        assert(0 <= p < cur);
                        assert(recover_spec(d, cur as int) == recover_spec(d, p as int) + seq![
                            d[cur as int].0,
                        ]);
                        assert(recover_spec(d, p as int) + (seq![byte] + c0.reverse())
                            =~= recover_spec(d, cur as int) + c0.reverse());
                    }
                    cur = p as usize;
                },
                None => {
                    proof {
                        assert(recover_spec(d, cur as int) == seq![d[cur as int].0]);
                        assert(recover_spec(d, idx as int) =~= collected@.reverse());
                    }
                    break ;
                },
            }
        }
        let m = collected.len();
        let mut seq: Vec<u8> = Vec::new();
        let mut j: usize = 0;
        while j < m
            invariant
                j <= m,
                m == collected@.len(),
                seq@ == collected@.reverse().take(j as int),
            decreases m - j,
        {
            seq.push(collected[m - 1 - j]);
            proof {
                assert(collected@.reverse()[j as int] == collected@[m - 1 - j]);
                assert(seq@ =~= collected@.reverse().take(j as int + 1));
            }
            j = j + 1;
        }
        proof {
            assert(seq@ =~= collected@.reverse());
            lemma_recover_len(self.dict@, idx as int);
        }
        Some(seq)
    }

    /// The index of the most recently added entry.
    pub fn get_last_dict_index(&self) -> (r: u16)
        requires
            self.inv(),
        ensures
            r as int == self.dict_view().len() - 1,
    {
        (self.dict.len() - 1) as u16
    }
}


/// The code stream the encoder emits for `input`, starting from
/// dictionary `d` with current prefix `cur`: a matched (byte, prefix)
/// pair extends the prefix; a miss emits the prefix's code, records the
/// new pair (dictionary space permitting — on overflow with `clear` set,
/// the reset sentinel follows and the dictionary restarts), and begins a
/// new prefix at the byte; the final prefix's code ends the stream.
pub open spec fn lzw_encode_codes(
    input: Seq<u8>,
    d: Seq<(u8, Option<u16>)>,
    cur: Option<u16>,
    clear: bool,
) -> Seq<u16>
    decreases input.len(),
{
    if input.len() == 0 {
        match cur {
            None => Seq::empty(),
            Some(i) => seq![i],
        }
    } else {
        let c = input[0];
        match dict_find(d, (c, cur)) {
            Some(j) => lzw_encode_codes(input.drop_first(), d, Some(j), clear),
            None => {
                let emit = cur->Some_0;
                if d.len() < MAX_DICT_SIZE {
                    seq![emit] + lzw_encode_codes(
                        input.drop_first(),
                        d.push((c, cur)),
                        Some(c as u16),
                        clear,
                    )
                } else if clear {
                    seq![emit, CLEAR_SYMBOL] + lzw_encode_codes(
                        input.drop_first(),
                        base_dict(),
                        Some(c as u16),
                        clear,
                    )
                } else {
                    seq![emit] + lzw_encode_codes(input.drop_first(), d, Some(c as u16), clear)
                }
            },
        }
    }
}

/// A code stream as bytes, each code 16-bit little-endian.
pub open spec fn codes_to_bytes(codes: Seq<u16>) -> Seq<u8>
    decreases codes.len(),
{
    if codes.len() == 0 {
        Seq::empty()
    } else {
        le16_bytes(codes[0]) + codes_to_bytes(codes.drop_first())
    }
}

proof fn lemma_codes_to_bytes_one(c: u16)
    ensures
        codes_to_bytes(seq![c]) == le16_bytes(c),
{
    assert(seq![c].drop_first() =~= Seq::<u16>::empty());
    assert(codes_to_bytes(Seq::<u16>::empty()) =~= Seq::<u8>::empty());
    assert(codes_to_bytes(seq![c]) =~= le16_bytes(c));
}

proof fn lemma_codes_to_bytes_add(a: Seq<u16>, b: Seq<u16>)
    ensures
        codes_to_bytes(a + b) == codes_to_bytes(a) + codes_to_bytes(b),
    decreases a.len(),
{
    if a.len() == 0 {
        assert(a + b =~= b);
        assert(codes_to_bytes(a) + codes_to_bytes(b) =~= codes_to_bytes(b));
    } else {
        assert((a + b).drop_first() =~= a.drop_first() + b);
        assert((a + b)[0] == a[0]);
        lemma_codes_to_bytes_add(a.drop_first(), b);
        assert(le16_bytes(a[0]) + (codes_to_bytes(a.drop_first()) + codes_to_bytes(b))
            =~= (le16_bytes(a[0]) + codes_to_bytes(a.drop_first())) + codes_to_bytes(b));
    }
}

/// The LZW encoding of `input`: a flag byte, the largest valid code as
/// 16-bit little-endian, then the 16-bit little-endian code stream.
pub open spec fn lzw_encode_spec(input: Seq<u8>, clear_dict_on_overfill: bool) -> Seq<u8> {
    seq![
        if clear_dict_on_overfill {
            1u8
        } else {
            0u8
        },
        0xFEu8,
        0xFFu8,
    ] + codes_to_bytes(lzw_encode_codes(input, base_dict(), None::<u16>, clear_dict_on_overfill))
}

/// Encodes `input` with a dictionary capacity of `MAX_DICT_SIZE`
/// entries; with `clear_dict_on_overfill` the dictionary restarts, with
/// a sentinel in the stream, whenever an entry cannot be added.
pub fn encode(input: &Vec<u8>, clear_dict_on_overfill: bool) -> (r: Vec<u8>)
    ensures
        r@ == lzw_encode_spec(input@, clear_dict_on_overfill),
{
    let mut output: Vec<u8> = Vec::new();
    output.push(if clear_dict_on_overfill {
        1
    } else {
        0
    });
    output.push(0xFE);
    output.push(0xFF);
    let ghost header = output@;
    let mut coder = LZWCoderEnhanced::new(MAX_DICT_SIZE, clear_dict_on_overfill);
    let mut cur: Option<u16> = None;
    let n = input.len();
    let mut k: usize = 0;
    let ghost target = lzw_encode_codes(input@, base_dict(), None::<u16>, clear_dict_on_overfill);
    proof {
        assert(input@.skip(0) =~= input@);
        assert(codes_to_bytes(Seq::<u16>::empty()) =~= Seq::<u8>::empty());
        assert(output@ =~= header + codes_to_bytes(Seq::<u16>::empty()));
        assert(Seq::<u16>::empty() + target =~= target);
    }
    let ghost emitted = Seq::<u16>::empty();
    while k < n
        invariant
            k <= n,
            n == input@.len(),
            coder.inv(),
            coder.rev_inv(),
            coder.max_view() == MAX_DICT_SIZE as int,
            coder.clear_view() == clear_dict_on_overfill,
            match cur {
                Some(i) => 0 <= i < coder.dict_view().len(),
                None => k == 0,
            },
            target == emitted + lzw_encode_codes(
                input@.skip(k as int),
                coder.dict_view(),
                cur,
                clear_dict_on_overfill,
            ),
            output@ == header + codes_to_bytes(emitted),
        decreases n - k,
    {
        let ghost d = coder.dict_view();
        let ghost rest = input@.skip(k as int);
        let ghost em0 = emitted;
        let c = input[k];
        proof {
            assert(rest[0] == c);
            assert(rest.drop_first() =~= input@.skip(k as int + 1));
        }
        match coder.find_seq_in_dict((c, cur)) {
            Some(idx) => {
                proof {
                    lemma_dict_pos(d, (c, cur));
                }
                cur = Some(idx);
            },
            None => {
                proof {
                    // the base alphabet guarantees a hit while no prefix is set
                    if cur is None {
                        lemma_dict_pos(d, (c, None::<u16>));
                        assert(d[c as int] == (c as u8, None::<u16>));
                        assert(dict_pos(d, (c, None::<u16>)) <= c as int);
                        assert(false);
                    }
                }
                let emit = match cur {
                    Some(i) => i,
                    None => {
                        proof {
                            assert(false);
                        }
                        0
                    },
                };
                output.push((emit % 256) as u8);
                output.push((emit / 256) as u8);
                proof {
                    assert(output@ =~= header + codes_to_bytes(em0) + le16_bytes(emit));
                    lemma_codes_to_bytes_add(em0, seq![emit]);
                    lemma_codes_to_bytes_one(emit);
                    assert(em0.push(emit) =~= em0 + seq![emit]);
                    assert(codes_to_bytes(em0.push(emit)) == codes_to_bytes(em0) + le16_bytes(
                        emit,
                    ));
                    assert(header + codes_to_bytes(em0) + le16_bytes(emit) =~= header
                        + codes_to_bytes(em0.push(emit)));
                }
                let added = coder.add_seq_to_dict((c, cur));
                if !added && clear_dict_on_overfill {
                    coder.set_init_dict();
                    output.push(0xFF);
                    output.push(0xFF);
                    proof {
                        let em1 = em0 + seq![emit, CLEAR_SYMBOL];
                        lemma_codes_to_bytes_add(em0, seq![emit, CLEAR_SYMBOL]);
                        assert(seq![emit, CLEAR_SYMBOL] =~= seq![emit] + seq![CLEAR_SYMBOL]);
                        lemma_codes_to_bytes_add(seq![emit], seq![CLEAR_SYMBOL]);
                        lemma_codes_to_bytes_one(emit);
                        lemma_codes_to_bytes_one(CLEAR_SYMBOL);
                        assert(le16_bytes(CLEAR_SYMBOL) =~= seq![0xFFu8, 0xFFu8]);
                        assert(output@ =~= header + codes_to_bytes(em1));
                        assert(emitted + (seq![emit, CLEAR_SYMBOL] + lzw_encode_codes(
                            input@.skip(k as int + 1),
                            base_dict(),
                            Some(c as u16),
                            clear_dict_on_overfill,
                        )) =~= em1 + lzw_encode_codes(
                            input@.skip(k as int + 1),
                            base_dict(),
                            Some(c as u16),
                            clear_dict_on_overfill,
                        ));
                    }
                    proof {
                        emitted = em0 + seq![emit, CLEAR_SYMBOL];
                    }
                } else {
                    proof {
                        let em1 = em0 + seq![emit];
                        assert(em0.push(emit) =~= em1);
                        assert(emitted + (seq![emit] + lzw_encode_codes(
                            input@.skip(k as int + 1),
                            if added {
                                d.push((c, cur))
                            } else {
                                d
                            },
                            Some(c as u16),
                            clear_dict_on_overfill,
                        )) =~= em1 + lzw_encode_codes(
                            input@.skip(k as int + 1),
                            if added {
                                d.push((c, cur))
                            } else {
                                d
                            },
                            Some(c as u16),
                            clear_dict_on_overfill,
                        ));
                        emitted = em1;
                    }
                }
                cur = Some(c as u16);
            },
        }
        k = k + 1;
    }
    proof {
        assert(input@.skip(n as int) =~= Seq::<u8>::empty());
    }
    match cur {
        Some(i) => {
            let ghost em0 = emitted;
            output.push((i % 256) as u8);
            output.push((i / 256) as u8);
            proof {
                lemma_codes_to_bytes_add(em0, seq![i]);
                lemma_codes_to_bytes_one(i);
                assert(output@ =~= header + codes_to_bytes(em0 + seq![i]));
                assert(em0 + seq![i] =~= target);
                assert(output@ =~= lzw_encode_spec(input@, clear_dict_on_overfill));
            }
        },
        None => {
            proof {
                assert(emitted =~= target);
                assert(output@ =~= lzw_encode_spec(input@, clear_dict_on_overfill));
            }
        },
    }
    output
}


/// The decoder's run over the remaining code bytes: `d` is its
/// dictionary, `old_i` the previous code, `first` whether the next code
/// opens a stream or follows a reset.  `None` marks input no encoder of
/// this library produces: a dangling half code, or an opening code
/// outside the dictionary.
pub open spec fn lzw_decode_codes(
    bytes: Seq<u8>,
    d: Seq<(u8, Option<u16>)>,
    old_i: u16,
    first: bool,
    maxd: int,
) -> Option<Seq<u8>>
    decreases bytes.len(),
{
    if bytes.len() == 0 {
        Some(Seq::empty())
    } else if bytes.len() == 1 {
        None
    } else {
        let code = le16_val(bytes[0], bytes[1]);
        let rest = bytes.skip(2);
        if first {
            if code < d.len() {
                match lzw_decode_codes(rest, d, code, false, maxd) {
                    Some(s) => Some(seq![d[code as int].0] + s),
                    None => None,
                }
            } else {
                None
            }
        } else if code == CLEAR_SYMBOL {
            lzw_decode_codes(rest, base_dict(), old_i, true, maxd)
        } else if code < d.len() {
            let s = recover_spec(d, code as int);
            let d2 = if d.len() < maxd {
                d.push((s[0], Some(old_i)))
            } else {
                d
            };
            match lzw_decode_codes(rest, d2, code, false, maxd) {
                Some(t) => Some(s + t),
                None => None,
            }
        } else {
            let olds = recover_spec(d, old_i as int);
            if olds.len() == 0 {
                lzw_decode_codes(rest, d, old_i, false, maxd)
            } else {
                let d2 = if d.len() < maxd {
                    d.push((olds[0], Some(old_i)))
                } else {
                    d
                };
                let new_old = (d2.len() - 1) as u16;
                match lzw_decode_codes(rest, d2, new_old, false, maxd) {
                    Some(t) => Some(olds + seq![olds[0]] + t),
                    None => None,
                }
            }
        }
    }
}

/// The LZW decoding of a compressed byte sequence: the flag byte and
/// capacity from the header, then the code stream; `None` marks corrupt
/// input (a missing header among it).
pub open spec fn lzw_decode_spec(input: Seq<u8>) -> Option<Seq<u8>> {
    if input.len() < 3 {
        None
    } else {
        lzw_decode_codes(input.skip(3), base_dict(), 0, true, le16_val(input[1], input[2]) + 1)
    }
}

/// Decodes an LZW byte stream; the header's stated capacity bounds the
/// dictionary this run rebuilds.
pub fn decode(input: &Vec<u8>) -> (r: Result<Vec<u8>, CodecError>)
    ensures
        match lzw_decode_spec(input@) {
            Some(s) => r is Ok && r->Ok_0@ == s,
            None => r == Err::<Vec<u8>, CodecError>(CodecError::CorruptedInput),
        },
{
    let total = input.len();
    if total < 3 {
        return Err(CodecError::CorruptedInput);
    }
    let maxd_minus = (input[1] as u32) + 256 * (input[2] as u32);
    let maxd: usize = maxd_minus as usize + 1;
    proof {
        assert(maxd == le16_val(input@[1], input@[2]) + 1);
    }
    let ghost maxi = maxd as int;
    let mut coder = LZWCoderEnhanced::new(maxd, input[0] != 0);
    let mut out: Vec<u8> = Vec::new();
    let mut old_i: u16 = 0;
    let mut first: bool = true;
    let mut k: usize = 3;
    let ghost target = lzw_decode_spec(input@);
    proof {
        assert(input@.skip(3).len() == total - 3);
        assert(out@ + lzw_decode_codes(input@.skip(3), base_dict(), 0, true, maxi)->Some_0
            =~= lzw_decode_codes(input@.skip(3), base_dict(), 0, true, maxi)->Some_0);
    }
    while k < total
        invariant
            3 <= k <= total,
            total == input@.len(),
            coder.inv(),
            coder.max_view() == maxi,
            0 <= maxi <= 65536,
            first ==> coder.dict_view() == base_dict(),
            first || old_i < coder.dict_view().len(),
            target == lzw_decode_spec(input@),
            match lzw_decode_codes(input@.skip(k as int), coder.dict_view(), old_i, first, maxi) {
                Some(s) => target == Some(out@ + s),
                None => target is None,
            },
        decreases total - k,
    {
        let ghost d = coder.dict_view();
        let ghost rest = input@.skip(k as int);
        let ghost out0 = out@;
        let ghost oldi0 = old_i;
        if k + 1 >= total {
            proof {
                assert(rest.len() == 1);
            }
            return Err(CodecError::CorruptedInput);
        }
        let code: u16 = (input[k] as u16) + 256 * (input[k + 1] as u16);
        proof {
            assert(rest[0] == input@[k as int] && rest[1] == input@[k as int + 1]);
            assert(code == le16_val(rest[0], rest[1]));
            assert(rest.skip(2) =~= input@.skip(k as int + 2));
        }
        if first {
            let fb = match coder.recover_seq_from_dict(code) {
                Some(s) => s,
                None => {
                    return Err(CodecError::CorruptedInput);
                },
            };
            // an opening code names one base entry; emit its byte
            let b0 = fb[0];
            proof {
                assert(code < d.len());
                assert(d == base_dict());
                assert(d[code as int].1 is None);
                assert(recover_spec(d, code as int) =~= seq![d[code as int].0]);
                assert(b0 == d[code as int].0);
            }
            out.push(b0);
            proof {
                assert(out@ =~= out0 + seq![d[code as int].0]);
            }
            old_i = code;
            first = false;
            proof {
                let inner = lzw_decode_codes(input@.skip(k as int + 2), d, code, false, maxi);
                match inner {
                    Some(s) => {
                        assert(lzw_decode_codes(rest, d, old_i, true, maxi) == Some(
                            seq![d[code as int].0] + s,
                        ));
                        assert(out@ + s =~= out0 + (seq![d[code as int].0] + s));
                    },
                    None => {},
                }
            }
        } else if code == CLEAR_SYMBOL {
            coder.set_init_dict();
            first = true;
        } else {
            match coder.recover_seq_from_dict(code) {
                Some(s) => {
                    let ghost sspec = recover_spec(d, code as int);
                    let s0 = s[0];
                    let mut scopy = s;
                    out.append(&mut scopy);
                    let added = coder.add_seq_to_dict((s0, Some(old_i)));
                    proof {
                        assert(out@ =~= out0 + sspec);
                        assert(added == (d.len() < maxi));
                        if added {
                            assert(coder.dict_view() =~= d.push((s0, Some(oldi0))));
                        }
                    }
                    old_i = code;
                    proof {
                        let d2 = if d.len() < maxi {
                            d.push((sspec[0], Some(oldi0)))
                        } else {
                            d
                        };
                        assert(coder.dict_view() == d2);
                        let inner = lzw_decode_codes(input@.skip(k as int + 2), d2, code, false, maxi);
                        match inner {
                            Some(t) => {
                                assert(lzw_decode_codes(rest, d, oldi0, false, maxi) is Some);
                                assert(out@ + t =~= out0 + (sspec + t));
                            },
                            None => {},
                        }
                    }
                },
                None => {
                    let olds = match coder.recover_seq_from_dict(old_i) {
                        Some(s) => s,
                        None => {
                            proof {
                                assert(false);
                            }
                            return Err(CodecError::CorruptedInput);
                        },
                    };
                    let ghost oldspec = recover_spec(d, old_i as int);
                    let o0 = olds[0];
                    let mut ocopy = olds;
                    out.append(&mut ocopy);
                    out.push(o0);
                    let added = coder.add_seq_to_dict((o0, Some(old_i)));
                    old_i = coder.get_last_dict_index();
                    proof {
                        assert(out@ =~= out0 + (oldspec + seq![oldspec[0]]));
                        let d2 = if d.len() < maxi {
                            d.push((oldspec[0], Some(oldi0)))
                        } else {
                            d
                        };
                        assert(oldspec.len() > 0);
                        assert(code >= d.len());
                        if added {
                            assert(coder.dict_view() =~= d.push((o0, Some(oldi0))));
                        }
                        assert(coder.dict_view() == d2);
                        assert(old_i as int == d2.len() - 1);
                        let inner = lzw_decode_codes(
                            input@.skip(k as int + 2),
                            d2,
                            old_i,
                            false,
                            maxi,
                        );
                        match inner {
                            Some(t) => {
                                assert(out@ + t =~= out0 + (oldspec + seq![oldspec[0]] + t));
                            },
                            None => {},
                        }
                    }
                },
            }
        }
        k = k + 2;
    }
    proof {
        assert(input@.skip(total as int) =~= Seq::<u8>::empty());
        assert(lzw_decode_codes(Seq::<u8>::empty(), coder.dict_view(), old_i, first, maxi) == Some(
            Seq::<u8>::empty(),
        ));
        assert(out@ + Seq::<u8>::empty() =~= out@);
    }
    Ok(out)
}


/// Law: LZW compression is deterministic — two encodings of equal
/// inputs under the same reset policy are byte-identical, since the
/// encoder's contract pins its output to a function of the input alone.
pub proof fn lemma_lzw_encode_deterministic(a: Seq<u8>, b: Seq<u8>, clear_dict_on_overfill: bool)
    requires
        a == b,
    ensures
        lzw_encode_spec(a, clear_dict_on_overfill) == lzw_encode_spec(b, clear_dict_on_overfill),
{
}

/// Transforms the input block by block with the selected transform,
/// then LZW-encodes the transformed bytes.
pub fn encode_file_bytes(input: &Vec<u8>, transform_id: u8, clear_dict_on_overfill: bool) -> (r:
    Vec<u8>)
    requires
        transform_id <= 3,
    ensures
        r@ == lzw_encode_spec(
            transform_blocks_spec(input@, transform_id),
            clear_dict_on_overfill,
        ),
{
    let transformed = transform_blocks(input, transform_id);
    encode(&transformed, clear_dict_on_overfill)
}

/// LZW-decodes the input, then inverts the selected transform frame by
/// frame; corrupt codes or frames yield `CodecError::CorruptedInput`.
pub fn decode_file_bytes(input: &Vec<u8>, transform_id: u8) -> (r: Result<Vec<u8>, CodecError>)
    requires
        transform_id <= 3,
    ensures
        match lzw_decode_spec(input@) {
            Some(s) => {
                if inverse_blocks_wf(s, transform_id) {
                    r is Ok && r->Ok_0@ == inverse_blocks_spec(s, transform_id)
                } else {
                    r == Err::<Vec<u8>, CodecError>(CodecError::CorruptedInput)
                }
            },
            None => r == Err::<Vec<u8>, CodecError>(CodecError::CorruptedInput),
        },
{
    let plain = match decode(input) {
        Ok(v) => v,
        Err(e) => {
            return Err(e);
        },
    };
    inverse_transform_blocks(&plain, transform_id)
}


/// A well-formed dictionary sequence: the base alphabet first, at most
/// `MAX_DICT_SIZE` entries, every predecessor pointing strictly back.
pub open spec fn dict_wf(d: Seq<(u8, Option<u16>)>) -> bool {
    &&& 256 <= d.len() <= 65535
    &&& (forall|i: int| 0 <= i < 256 ==> d[i] == (i as u8, None::<u16>))
    &&& (forall|j: int|
        0 <= j < d.len() ==> (match (#[trigger] d[j]).1 {
            Some(p) => 0 <= p < j,
            None => true,
        }))
}

proof fn lemma_recover_push(d: Seq<(u8, Option<u16>)>, e: (u8, Option<u16>), i: int)
    requires
        0 <= i < d.len(),
    ensures
        recover_spec(d.push(e), i) == recover_spec(d, i),
    decreases i,
{
    assert(d.push(e)[i] == d[i]);
    match d[i].1 {
        Some(p) => {
            if p < i {
                lemma_recover_push(d, e, p as int);
            }
        },
        None => {},
    }
}

proof fn lemma_recover_base(d: Seq<(u8, Option<u16>)>, i: int)
    requires
        dict_wf(d),
        0 <= i < 256,
    ensures
        recover_spec(d, i) == seq![i as u8],
{
    assert(d[i] == (i as u8, None::<u16>));
}

proof fn lemma_base_dict_wf()
    ensures
        dict_wf(base_dict()),
{
}

proof fn lemma_base_find_none_pred(d: Seq<(u8, Option<u16>)>, c: u8, j: u16)
    requires
        dict_wf(d),
        d == base_dict(),
    ensures
        dict_find(d, (c, Some(j))) is None,
{
    lemma_dict_pos(d, (c, Some(j)));
    let p = dict_pos(d, (c, Some(j)));
    if p < d.len() {
        assert(d[p] == (c, Some(j)));
        assert(base_dict()[p].1 is None);
        assert(false);
    }
}

proof fn lemma_base_find(c: u8)
    ensures
        dict_find(base_dict(), (c, None::<u16>)) == Some(c as u16),
{
    let d = base_dict();
    lemma_dict_pos(d, (c, None::<u16>));
    let p = dict_pos(d, (c, None::<u16>));
    assert(d[c as int] == (c, None::<u16>));
    if p < d.len() {
        assert(d[p] == (c, None::<u16>));
        assert(d[p].0 == p as u8);
        assert(p == c as int);
    } else {
        assert(d[c as int] != (c, None::<u16>));
        assert(false);
    }
}

/// The coupling between the encoder's and the decoder's dictionaries
/// while a stream is mid-flight: either the decoder is one entry behind
/// (the pending entry begins with the current prefix's first byte), or
/// both dictionaries are full and identical, or a reset has just put
/// both back at the base alphabet.
spec fn sim_inv(
    d_e: Seq<(u8, Option<u16>)>,
    j: u16,
    d_d: Seq<(u8, Option<u16>)>,
    oi: u16,
    first: bool,
) -> bool {
    if first {
        d_e == base_dict() && d_d == base_dict() && j < 256
    } else {
        &&& j < d_e.len()
        &&& oi < d_d.len()
        &&& if d_e.len() == d_d.len() {
            d_e == d_d && d_e.len() == MAX_DICT_SIZE
        } else {
            d_e == d_d.push((recover_spec(d_e, j as int)[0], Some(oi)))
        }
    }
}

proof fn lemma_sim_receive(
    d_e: Seq<(u8, Option<u16>)>,
    j: u16,
    d_d: Seq<(u8, Option<u16>)>,
    oi: u16,
)
    requires
        dict_wf(d_e),
        dict_wf(d_d),
        sim_inv(d_e, j, d_d, oi, false),
    ensures
        j < d_d.len() ==> recover_spec(d_d, j as int) == recover_spec(d_e, j as int),
        j >= d_d.len() ==> {
            &&& j == d_d.len()
            &&& recover_spec(d_e, j as int) == recover_spec(d_d, oi as int) + seq![
                recover_spec(d_d, oi as int)[0],
            ]
        },
{
    if j < d_d.len() {
        if d_e.len() == d_d.len() {
        } else {
            lemma_recover_push(d_d, (recover_spec(d_e, j as int)[0], Some(oi)), j as int);
        }
    } else {
        assert(d_e.len() != d_d.len());
        let x = recover_spec(d_e, j as int)[0];
        assert(d_e == d_d.push((x, Some(oi))));
        assert(j == d_d.len());
        assert(d_e[j as int] == (x, Some(oi)));
        assert(oi < j);
        assert(recover_spec(d_e, j as int) == recover_spec(d_e, oi as int) + seq![x]);
        lemma_recover_push(d_d, (x, Some(oi)), oi as int);
        assert(recover_spec(d_e, oi as int) == recover_spec(d_d, oi as int));
        lemma_recover_len(d_d, oi as int);
        assert(recover_spec(d_e, j as int)[0] == recover_spec(d_d, oi as int)[0]);
        assert(x == recover_spec(d_d, oi as int)[0]);
    }
}

#[verifier::rlimit(60)]
#[verifier::spinoff_prover]
proof fn lemma_sim(
    inp: Seq<u8>,
    d_e: Seq<(u8, Option<u16>)>,
    j: u16,
    d_d: Seq<(u8, Option<u16>)>,
    oi: u16,
    first: bool,
    clear: bool,
)
    requires
        dict_wf(d_e),
        dict_wf(d_d),
        sim_inv(d_e, j, d_d, oi, first),
    ensures
        lzw_decode_codes(
            codes_to_bytes(lzw_encode_codes(inp, d_e, Some(j), clear)),
            d_d,
            oi,
            first,
            MAX_DICT_SIZE as int,
        ) == Some(recover_spec(d_e, j as int) + inp),
    decreases inp.len(), 1int,
{
    let m = MAX_DICT_SIZE as int;
    let codes = lzw_encode_codes(inp, d_e, Some(j), clear);
    if inp.len() == 0 {
        assert(codes == seq![j]);
        lemma_codes_to_bytes_one(j);
        let bytes = le16_bytes(j);
        assert(bytes.len() == 2);
        crate::bits::lemma_le16_round_trip(j);
        assert(le16_val(bytes[0], bytes[1]) == j);
        let rest = bytes.skip(2);
        assert(rest =~= Seq::<u8>::empty());
        assert(lzw_decode_codes(rest, d_d, j, false, m) == Some(Seq::<u8>::empty()));
        if first {
            assert(j < d_d.len());
            lemma_recover_base(d_e, j as int);
            assert(d_d[j as int].0 == j as u8);
            assert(seq![d_d[j as int].0] + Seq::<u8>::empty() =~= recover_spec(d_e, j as int)
                + inp);
        } else {
            assert(j != CLEAR_SYMBOL);
            lemma_sim_receive(d_e, j, d_d, oi);
            if j < d_d.len() {
                let s = recover_spec(d_d, j as int);
                let d2 = if d_d.len() < m {
                    d_d.push((s[0], Some(oi)))
                } else {
                    d_d
                };
                assert(lzw_decode_codes(rest, d2, j, false, m) == Some(Seq::<u8>::empty()));
                assert(s + Seq::<u8>::empty() =~= recover_spec(d_e, j as int) + inp);
            } else {
                let olds = recover_spec(d_d, oi as int);
                lemma_recover_len(d_d, oi as int);
                assert(olds.len() > 0);
                let d2 = if d_d.len() < m {
                    d_d.push((olds[0], Some(oi)))
                } else {
                    d_d
                };
                let new_old = (d2.len() - 1) as u16;
                assert(lzw_decode_codes(rest, d2, new_old, false, m) == Some(Seq::<u8>::empty()));
                assert(olds + seq![olds[0]] + Seq::<u8>::empty() =~= recover_spec(d_e, j as int)
                    + inp);
            }
        }
    } else {
        let c = inp[0];
        let rest_inp = inp.drop_first();
        match dict_find(d_e, (c, Some(j))) {
            Some(j2) => {
                // the prefix extends: no code leaves the encoder
                lemma_dict_pos(d_e, (c, Some(j)));
                assert(d_e[j2 as int] == (c, Some(j)));
                assert(j < j2);
                if first {
                    lemma_base_find_none_pred(d_e, c, j);
                    assert(false);
                }
                assert(recover_spec(d_e, j2 as int) == recover_spec(d_e, j as int) + seq![c]);
                lemma_recover_len(d_e, j as int);
                assert(sim_inv(d_e, j2, d_d, oi, false)) by {
                    if d_e.len() != d_d.len() {
                        assert(recover_spec(d_e, j2 as int)[0] == recover_spec(d_e, j as int)[0]);
                    }
                }
                lemma_sim(rest_inp, d_e, j2, d_d, oi, false, clear);
                assert(recover_spec(d_e, j2 as int) + rest_inp =~= recover_spec(d_e, j as int)
                    + inp);
            },
            None => {
                if first {
                    lemma_base_find(c);
                }
                if d_e.len() < m {
                    lemma_sim_miss_room(inp, d_e, j, d_d, oi, first, clear);
                } else if clear {
                    lemma_sim_miss_clear(inp, d_e, j, d_d, oi, clear);
                } else {
                    lemma_sim_miss_frozen(inp, d_e, j, d_d, oi, clear);
                }
            },
        }
    }
}

#[verifier::rlimit(100)]
#[verifier::spinoff_prover]
proof fn lemma_sim_miss_room(
    inp: Seq<u8>,
    d_e: Seq<(u8, Option<u16>)>,
    j: u16,
    d_d: Seq<(u8, Option<u16>)>,
    oi: u16,
    first: bool,
    clear: bool,
)
    requires
        dict_wf(d_e),
        dict_wf(d_d),
        sim_inv(d_e, j, d_d, oi, first),
        inp.len() > 0,
        dict_find(d_e, (inp[0], Some(j))) is None,
        d_e.len() < MAX_DICT_SIZE as int,
    ensures
        lzw_decode_codes(
            codes_to_bytes(lzw_encode_codes(inp, d_e, Some(j), clear)),
            d_d,
            oi,
            first,
            MAX_DICT_SIZE as int,
        ) == Some(recover_spec(d_e, j as int) + inp),
    decreases inp.len(), 0int,
{
    let m = MAX_DICT_SIZE as int;
    let codes = lzw_encode_codes(inp, d_e, Some(j), clear);
    let c = inp[0];
    let rest_inp = inp.drop_first();
    let emitted_str = recover_spec(d_e, j as int);
    // room: the encoder records (c, j) and starts a new prefix at c
    let d_e2 = d_e.push((c, Some(j)));
    let codes2 = lzw_encode_codes(rest_inp, d_e2, Some(c as u16), clear);
    assert(codes == seq![j] + codes2);
    lemma_codes_to_bytes_add(seq![j], codes2);
    lemma_codes_to_bytes_one(j);
    let bytes = codes_to_bytes(codes);
    assert(bytes =~= le16_bytes(j) + codes_to_bytes(codes2));
    crate::bits::lemma_le16_round_trip(j);
    assert(bytes[0] == le16_bytes(j)[0] && bytes[1] == le16_bytes(j)[1]);
    assert(le16_val(bytes[0], bytes[1]) == j);
    assert(bytes.skip(2) =~= codes_to_bytes(codes2));
    assert(dict_wf(d_e2));
    lemma_recover_push(d_e, (c, Some(j)), c as int);
    lemma_recover_base(d_e, c as int);
    assert(recover_spec(d_e2, c as int) == seq![c]);
    if first {
        lemma_base_find(c);
        // the decoder treats j as an opening code
        assert(j < d_d.len());
        assert(sim_inv(d_e2, c as u16, d_d, j, false));
        lemma_sim(rest_inp, d_e2, c as u16, d_d, j, false, clear);
        lemma_recover_base(d_e, j as int);
        assert(d_d[j as int].0 == j as u8);
        assert(seq![d_d[j as int].0] + (recover_spec(d_e2, c as int) + rest_inp) =~= emitted_str
            + inp);
    } else {
        assert(j != CLEAR_SYMBOL);
        lemma_sim_receive(d_e, j, d_d, oi);
        assert(d_e.len() != d_d.len() || d_e.len() == m);
        assert(d_e.len() == d_d.len() + 1);
        if j < d_d.len() {
            let s = recover_spec(d_d, j as int);
            assert(s == emitted_str);
            let d2 = d_d.push((s[0], Some(oi)));
            assert(d_d.len() < m);
            assert(d2 == d_e) by {
                lemma_recover_len(d_e, j as int);
            }
            assert(sim_inv(d_e2, c as u16, d2, j, false));
            lemma_sim(rest_inp, d_e2, c as u16, d2, j, false, clear);
            assert(s + (recover_spec(d_e2, c as int) + rest_inp) =~= emitted_str + inp);
        } else {
            let olds = recover_spec(d_d, oi as int);
            lemma_recover_len(d_d, oi as int);
            assert(olds.len() > 0);
            let d2 = d_d.push((olds[0], Some(oi)));
            assert(d_d.len() < m);
            assert(d2 == d_e);
            let new_old = (d2.len() - 1) as u16;
            assert(new_old == j);
            assert(olds + seq![olds[0]] == emitted_str);
            assert(sim_inv(d_e2, c as u16, d2, j, false));
            lemma_sim(rest_inp, d_e2, c as u16, d2, j, false, clear);
            assert(olds + seq![olds[0]] + (recover_spec(d_e2, c as int) + rest_inp) =~= emitted_str
                + inp);
        }
    }
}

#[verifier::rlimit(100)]
#[verifier::spinoff_prover]
proof fn lemma_sim_miss_clear(
    inp: Seq<u8>,
    d_e: Seq<(u8, Option<u16>)>,
    j: u16,
    d_d: Seq<(u8, Option<u16>)>,
    oi: u16,
    clear: bool,
)
    requires
        dict_wf(d_e),
        dict_wf(d_d),
        sim_inv(d_e, j, d_d, oi, false),
        inp.len() > 0,
        dict_find(d_e, (inp[0], Some(j))) is None,
        d_e.len() == MAX_DICT_SIZE as int,
        clear,
    ensures
        lzw_decode_codes(
            codes_to_bytes(lzw_encode_codes(inp, d_e, Some(j), clear)),
            d_d,
            oi,
            false,
            MAX_DICT_SIZE as int,
        ) == Some(recover_spec(d_e, j as int) + inp),
    decreases inp.len(), 0int,
{
    let m = MAX_DICT_SIZE as int;
    let codes = lzw_encode_codes(inp, d_e, Some(j), clear);
    let c = inp[0];
    let rest_inp = inp.drop_first();
    let emitted_str = recover_spec(d_e, j as int);
    // full: the sentinel follows the code and both sides reset
    let codes2 = lzw_encode_codes(rest_inp, base_dict(), Some(c as u16), clear);
    assert(codes == seq![j, CLEAR_SYMBOL] + codes2);
    assert(seq![j, CLEAR_SYMBOL] =~= seq![j] + seq![CLEAR_SYMBOL]);
    lemma_codes_to_bytes_add(seq![j] + seq![CLEAR_SYMBOL], codes2);
    lemma_codes_to_bytes_add(seq![j], seq![CLEAR_SYMBOL]);
    lemma_codes_to_bytes_one(j);
    lemma_codes_to_bytes_one(CLEAR_SYMBOL);
    let bytes = codes_to_bytes(codes);
    assert(bytes =~= le16_bytes(j) + le16_bytes(CLEAR_SYMBOL) + codes_to_bytes(codes2));
    crate::bits::lemma_le16_round_trip(j);
    crate::bits::lemma_le16_round_trip(CLEAR_SYMBOL);
    assert(le16_val(bytes[0], bytes[1]) == j);
    assert(j != CLEAR_SYMBOL);
    let bytes1 = bytes.skip(2);
    assert(bytes1 =~= le16_bytes(CLEAR_SYMBOL) + codes_to_bytes(codes2));
    assert(le16_val(bytes1[0], bytes1[1]) == CLEAR_SYMBOL);
    let bytes2 = bytes1.skip(2);
    assert(bytes2 =~= codes_to_bytes(codes2));
    lemma_base_dict_wf();
    lemma_recover_base(base_dict(), c as int);
    assert(sim_inv(base_dict(), c as u16, base_dict(), oi, true));
    lemma_sim(rest_inp, base_dict(), c as u16, base_dict(), oi, true, clear);
    lemma_sim_receive(d_e, j, d_d, oi);
    if j < d_d.len() {
        let s = recover_spec(d_d, j as int);
        assert(s == emitted_str);
        let d2 = if d_d.len() < m {
            d_d.push((s[0], Some(oi)))
        } else {
            d_d
        };
        assert(lzw_decode_codes(bytes1, d2, j, false, m) == lzw_decode_codes(
            bytes2,
            base_dict(),
            j,
            true,
            m,
        ));
        assert(s + (recover_spec(base_dict(), c as int) + rest_inp) =~= emitted_str + inp);
    } else {
        let olds = recover_spec(d_d, oi as int);
        lemma_recover_len(d_d, oi as int);
        assert(olds.len() > 0);
        let d2 = if d_d.len() < m {
            d_d.push((olds[0], Some(oi)))
        } else {
            d_d
        };
        let new_old = (d2.len() - 1) as u16;
        assert(lzw_decode_codes(bytes1, d2, new_old, false, m) == lzw_decode_codes(
            bytes2,
            base_dict(),
            new_old,
            true,
            m,
        ));
        assert(olds + seq![olds[0]] == emitted_str);
        assert(olds + seq![olds[0]] + (recover_spec(base_dict(), c as int) + rest_inp)
            =~= emitted_str + inp);
    }
}

#[verifier::rlimit(100)]
#[verifier::spinoff_prover]
proof fn lemma_sim_miss_frozen(
    inp: Seq<u8>,
    d_e: Seq<(u8, Option<u16>)>,
    j: u16,
    d_d: Seq<(u8, Option<u16>)>,
    oi: u16,
    clear: bool,
)
    requires
        dict_wf(d_e),
        dict_wf(d_d),
        sim_inv(d_e, j, d_d, oi, false),
        inp.len() > 0,
        dict_find(d_e, (inp[0], Some(j))) is None,
        d_e.len() == MAX_DICT_SIZE as int,
        !clear,
    ensures
        lzw_decode_codes(
            codes_to_bytes(lzw_encode_codes(inp, d_e, Some(j), clear)),
            d_d,
            oi,
            false,
            MAX_DICT_SIZE as int,
        ) == Some(recover_spec(d_e, j as int) + inp),
    decreases inp.len(), 0int,
{
    let m = MAX_DICT_SIZE as int;
    let codes = lzw_encode_codes(inp, d_e, Some(j), clear);
    let c = inp[0];
    let rest_inp = inp.drop_first();
    let emitted_str = recover_spec(d_e, j as int);
    // full and frozen: the dictionaries stay as they are
    let codes2 = lzw_encode_codes(rest_inp, d_e, Some(c as u16), clear);
    assert(codes == seq![j] + codes2);
    lemma_codes_to_bytes_add(seq![j], codes2);
    lemma_codes_to_bytes_one(j);
    let bytes = codes_to_bytes(codes);
    assert(bytes =~= le16_bytes(j) + codes_to_bytes(codes2));
    crate::bits::lemma_le16_round_trip(j);
    assert(le16_val(bytes[0], bytes[1]) == j);
    assert(bytes.skip(2) =~= codes_to_bytes(codes2));
    assert(j != CLEAR_SYMBOL);
    lemma_sim_receive(d_e, j, d_d, oi);
    lemma_recover_base(d_e, c as int);
    if j < d_d.len() {
        let s = recover_spec(d_d, j as int);
        assert(s == emitted_str);
        let d2 = if d_d.len() < m {
            d_d.push((s[0], Some(oi)))
        } else {
            d_d
        };
        assert(d2 == d_e) by {
            if d_d.len() < m {
                lemma_recover_len(d_e, j as int);
            }
        }
        assert(sim_inv(d_e, c as u16, d2, j, false));
        lemma_sim(rest_inp, d_e, c as u16, d2, j, false, clear);
        assert(s + (recover_spec(d_e, c as int) + rest_inp) =~= emitted_str + inp);
    } else {
        let olds = recover_spec(d_d, oi as int);
        lemma_recover_len(d_d, oi as int);
        assert(olds.len() > 0);
        let d2 = d_d.push((olds[0], Some(oi)));
        assert(d_d.len() < m);
        assert(d2 == d_e);
        let new_old = (d2.len() - 1) as u16;
        assert(new_old == j);
        assert(olds + seq![olds[0]] == emitted_str);
        assert(sim_inv(d_e, c as u16, d2, j, false));
        lemma_sim(rest_inp, d_e, c as u16, d2, j, false, clear);
        assert(olds + seq![olds[0]] + (recover_spec(d_e, c as int) + rest_inp) =~= emitted_str
            + inp);
    }
}

/// Law: an LZW-compressed byte sequence decodes to the bytes that were
/// encoded, with or without reset-on-full.
pub proof fn lemma_lzw_round_trip(s: Seq<u8>, clear_dict_on_overfill: bool)
    ensures
        lzw_decode_spec(lzw_encode_spec(s, clear_dict_on_overfill)) == Some(s),
{
    let enc = lzw_encode_spec(s, clear_dict_on_overfill);
    let header = seq![
        if clear_dict_on_overfill {
            1u8
        } else {
            0u8
        },
        0xFEu8,
        0xFFu8,
    ];
    let codes = lzw_encode_codes(s, base_dict(), None::<u16>, clear_dict_on_overfill);
    assert(enc.len() >= 3);
    assert(enc[1] == 0xFEu8 && enc[2] == 0xFFu8);
    assert(le16_val(0xFEu8, 0xFFu8) == 65534);
    assert(enc.skip(3) =~= codes_to_bytes(codes));
    lemma_base_dict_wf();
    if s.len() == 0 {
        assert(codes == Seq::<u16>::empty());
        assert(codes_to_bytes(codes) =~= Seq::<u8>::empty());
        assert(lzw_decode_spec(enc) == Some(Seq::<u8>::empty()));
        assert(Seq::<u8>::empty() =~= s);
    } else {
        let c0 = s[0];
        lemma_base_find(c0);
        assert(codes == lzw_encode_codes(
            s.drop_first(),
            base_dict(),
            Some(c0 as u16),
            clear_dict_on_overfill,
        ));
        lemma_recover_base(base_dict(), c0 as int);
        assert(sim_inv(base_dict(), c0 as u16, base_dict(), 0, true));
        lemma_sim(
            s.drop_first(),
            base_dict(),
            c0 as u16,
            base_dict(),
            0,
            true,
            clear_dict_on_overfill,
        );
        assert(recover_spec(base_dict(), c0 as int) + s.drop_first() =~= s);
    }
}


/// Law: the whole LZW pipeline with a block transform round-trips — the
/// compressed stream decodes to the transformed bytes, and every frame
/// of those inverts back to the original input.  With transform
/// selector 1 this is the LZW+BWT+MTF round trip.
pub proof fn lemma_lzw_transform_round_trip(s: Seq<u8>, transform_id: u8, clear: bool)
    requires
        transform_id <= 3,
    ensures
        lzw_decode_spec(lzw_encode_spec(transform_blocks_spec(s, transform_id), clear)) == Some(
            transform_blocks_spec(s, transform_id),
        ),
        inverse_blocks_wf(transform_blocks_spec(s, transform_id), transform_id),
        inverse_blocks_spec(transform_blocks_spec(s, transform_id), transform_id) == s,
{
    lemma_lzw_round_trip(transform_blocks_spec(s, transform_id), clear);
    crate::transform::lemma_transform_blocks_round_trip(s, transform_id);
}

} // verus!
