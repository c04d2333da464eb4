//! Static Huffman codec.  The encoder tallies byte frequencies, builds a
//! prefix tree bottom-up from a queue ordered by weight (ties broken by
//! queue position, so both sides derive the same tree from the same
//! table), writes the full 256-entry frequency table as a header, and
//! emits one prefix code per input byte.  The decoder rebuilds the tree
//! from the header and walks it bit by bit.

use vstd::prelude::*;

use crate::bits::bits_of_bytes;
use crate::bits::le32_bytes;
use crate::bits::le32_val;
use crate::bits::pack_bits;
use crate::bitstream::pack_bool_vec;
use crate::bitstream::BitStream;
use crate::bits::lemma_unpack_pack;
use crate::bits::lemma_pack_unpack;
use crate::bits::lemma_pack_bits_aligned;
use crate::bits::lemma_bits_of_bytes_add;
use crate::bits::lemma_bits_of_bytes_subrange;
use crate::CodecError;

verus! {

/// A Huffman coding tree: a leaf holds a byte value; an inner node
/// always has both children.
pub enum HuffTree {
    Leaf(u8),
    Node(Box<HuffTree>, Box<HuffTree>),
}

/// Occurrences of `b` in `s`.
pub open spec fn count_freq(s: Seq<u8>, b: u8) -> int
    decreases s.len(),
{
    if s.len() == 0 {
        0
    } else {
        count_freq(s.drop_first(), b) + if s[0] == b {
            1int
        } else {
            0int
        }
    }
}

proof fn lemma_count_push(s: Seq<u8>, x: u8, b: u8)
    ensures
        count_freq(s.push(x), b) == count_freq(s, b) + if x == b {
            1int
        } else {
            0int
        },
    decreases s.len(),
{
    if s.len() == 0 {
        assert(s.push(x).drop_first() =~= Seq::<u8>::empty());
        assert(count_freq(Seq::<u8>::empty(), b) == 0);
        assert(s.push(x)[0] == x);
    } else {
        assert(s.push(x).drop_first() =~= s.drop_first().push(x));
        assert(s.push(x)[0] == s[0]);
        lemma_count_push(s.drop_first(), x, b);
    }
}

proof fn lemma_count_le_len(s: Seq<u8>, b: u8)
    ensures
        0 <= count_freq(s, b) <= s.len(),
    decreases s.len(),
{
    if s.len() > 0 {
        lemma_count_le_len(s.drop_first(), b);
    }
}

/// The frequency table of a byte sequence.
pub open spec fn freq_table(s: Seq<u8>) -> Seq<u32> {
    Seq::new(256, |i: int| count_freq(s, i as u8) as u32)
}

/// Whether byte `b` labels some leaf of `t`.
pub open spec fn tree_contains(t: HuffTree, b: u8) -> bool
    decreases t,
{
    match t {
        HuffTree::Leaf(v) => v == b,
        HuffTree::Node(l, r) => tree_contains(*l, b) || tree_contains(*r, b),
    }
}

/// The path from the root of `t` to the leftmost leaf labelled `b`:
/// a 0 bit steps left, a 1 bit steps right.
pub open spec fn code_of(t: HuffTree, b: u8) -> Seq<bool>
    decreases t,
{
    match t {
        HuffTree::Leaf(v) => Seq::empty(),
        HuffTree::Node(l, r) => if tree_contains(*l, b) {
            seq![false] + code_of(*l, b)
        } else {
            seq![true] + code_of(*r, b)
        },
    }
}

/// The bits the encoder emits for byte `b`: the path to its leaf, except
/// that a tree of a single leaf gives every byte the one-bit code 0.
pub open spec fn emit_code(t: HuffTree, b: u8) -> Seq<bool> {
    if t is Leaf {
        seq![false]
    } else {
        code_of(t, b)
    }
}

/// Index of the first minimal weight in a queue of weighted trees.
pub open spec fn argmin(q: Seq<(u64, HuffTree)>) -> int
    decreases q.len(),
{
    if q.len() <= 1 {
        0
    } else {
        let m = 1 + argmin(q.drop_first());
        if q[0].0 <= q[m].0 {
            0
        } else {
            m
        }
    }
}

proof fn lemma_argmin(q: Seq<(u64, HuffTree)>)
    requires
        q.len() > 0,
    ensures
        0 <= argmin(q) < q.len(),
        forall|j: int| 0 <= j < q.len() ==> q[argmin(q)].0 <= #[trigger] q[j].0,
        forall|j: int| 0 <= j < argmin(q) ==> q[argmin(q)].0 < #[trigger] q[j].0,
    decreases q.len(),
{
    if q.len() > 1 {
        lemma_argmin(q.drop_first());
        let m = 1 + argmin(q.drop_first());
        assert forall|j: int| 1 <= j < q.len() implies q[m].0 <= #[trigger] q[j].0 by {
            assert(q.drop_first()[j - 1] == q[j]);
            assert(q.drop_first()[m - 1] == q[m]);
        }
        assert forall|j: int| 1 <= j < m implies q[m].0 < #[trigger] q[j].0 by {
            assert(q.drop_first()[j - 1] == q[j]);
            assert(q.drop_first()[m - 1] == q[m]);
        }
    }
}

/// Sum of the weights in a queue.
pub open spec fn sum_weights(q: Seq<(u64, HuffTree)>) -> int
    decreases q.len(),
{
    if q.len() == 0 {
        0
    } else {
        q[0].0 + sum_weights(q.drop_first())
    }
}

proof fn lemma_sum_weights_remove(q: Seq<(u64, HuffTree)>, i: int)
    requires
        0 <= i < q.len(),
    ensures
        sum_weights(q.remove(i)) == sum_weights(q) - q[i].0,
    decreases q.len(),
{
    if i == 0 {
        assert(q.remove(0) =~= q.drop_first());
    } else {
        assert(q.remove(i).drop_first() =~= q.drop_first().remove(i - 1));
        assert(q.remove(i)[0] == q[0]);
        lemma_sum_weights_remove(q.drop_first(), i - 1);
    }
}

proof fn lemma_sum_weights_push(q: Seq<(u64, HuffTree)>, x: (u64, HuffTree))
    ensures
        sum_weights(q.push(x)) == sum_weights(q) + x.0,
    decreases q.len(),
{
    if q.len() == 0 {
        assert(q.push(x).drop_first() =~= Seq::<(u64, HuffTree)>::empty());
        assert(q.push(x)[0] == x);
        assert(sum_weights(Seq::<(u64, HuffTree)>::empty()) == 0);
    } else {
        assert(q.push(x).drop_first() =~= q.drop_first().push(x));
        assert(q.push(x)[0] == q[0]);
        lemma_sum_weights_push(q.drop_first(), x);
    }
}

proof fn lemma_weight_le_sum(q: Seq<(u64, HuffTree)>, i: int)
    requires
        0 <= i < q.len(),
    ensures
        q[i].0 <= sum_weights(q),
        sum_weights(q) >= 0,
    decreases q.len(),
{
    if q.len() > 0 {
        if i == 0 {
            lemma_sum_weights_nonneg(q.drop_first());
        } else {
            assert(q.drop_first()[i - 1] == q[i]);
            lemma_weight_le_sum(q.drop_first(), i - 1);
        }
    }
}

proof fn lemma_sum_weights_nonneg(q: Seq<(u64, HuffTree)>)
    ensures
        sum_weights(q) >= 0,
    decreases q.len(),
{
    if q.len() > 0 {
        lemma_sum_weights_nonneg(q.drop_first());
    }
}

/// The tree built from a queue of weighted trees: repeatedly merge the
/// two smallest weights (leftmost first on ties) into one node, the
/// first extracted becoming the left child, until one tree remains.
pub open spec fn build_queue(q: Seq<(u64, HuffTree)>) -> HuffTree
    decreases q.len(),
    via build_queue_decreases
{
    if q.len() <= 1 {
        q[0].1
    } else {
        let i1 = argmin(q);
        let e1 = q[i1];
        let q1 = q.remove(i1);
        let i2 = argmin(q1);
        let e2 = q1[i2];
        let q2 = q1.remove(i2);
        build_queue(
            q2.push(
                (
                    (e1.0 + e2.0) as u64,
                    HuffTree::Node(Box::new(e1.1), Box::new(e2.1)),
                ),
            ),
        )
    }
}

#[via_fn]
proof fn build_queue_decreases(q: Seq<(u64, HuffTree)>) {
    if q.len() > 1 {
        lemma_argmin(q);
        lemma_argmin(q.remove(argmin(q)));
    }
}

/// The queue seeding the build: one leaf per nonzero-frequency byte
/// below `upto`, in byte order.
pub open spec fn init_queue(freq: Seq<u32>, upto: int) -> Seq<(u64, HuffTree)>
    decreases upto,
{
    if upto <= 0 {
        Seq::empty()
    } else {
        init_queue(freq, upto - 1) + if freq[upto - 1] != 0 {
            seq![((freq[upto - 1] as u64, HuffTree::Leaf((upto - 1) as u8)))]
        } else {
            Seq::empty()
        }
    }
}

/// The Huffman tree of a frequency table; `None` when every count is 0.
pub open spec fn huff_tree_opt(freq: Seq<u32>) -> Option<HuffTree> {
    let q = init_queue(freq, 256);
    if q.len() == 0 {
        None
    } else {
        Some(build_queue(q))
    }
}


/// Whether some tree in the queue has a leaf labelled `b`.
pub open spec fn queue_contains(q: Seq<(u64, HuffTree)>, b: u8) -> bool {
    exists|i: int| 0 <= i < q.len() && tree_contains(q[i].1, b)
}

proof fn lemma_build_contains(q: Seq<(u64, HuffTree)>, b: u8)
    requires
        q.len() > 0,
    ensures
        tree_contains(build_queue(q), b) == queue_contains(q, b),
    decreases q.len(),
{
    if q.len() == 1 {
        if tree_contains(q[0].1, b) {
            assert(queue_contains(q, b));
        }
        if queue_contains(q, b) {
            let i = choose|i: int| 0 <= i < q.len() && tree_contains(q[i].1, b);
            assert(i == 0);
        }
    } else {
        lemma_argmin(q);
        let i1 = argmin(q);
        let e1 = q[i1];
        let q1 = q.remove(i1);
        lemma_argmin(q1);
        let i2 = argmin(q1);
        let e2 = q1[i2];
        let q2 = q1.remove(i2);
        let node = ((e1.0 + e2.0) as u64, HuffTree::Node(Box::new(e1.1), Box::new(e2.1)));
        let q3 = q2.push(node);
        lemma_build_contains(q3, b);
        q.remove_ensures(i1);
        q1.remove_ensures(i2);
        // every tree of q appears in q3, and both halves of the new node come from q
        if queue_contains(q, b) {
            let i = choose|i: int| 0 <= i < q.len() && tree_contains(q[i].1, b);
            if i == i1 {
                assert(tree_contains(q3[q3.len() - 1].1, b));
            } else {
                let j1 = if i < i1 {
                    i
                } else {
                    i - 1
                };
                assert(q1[j1] == q[i]);
                if j1 == i2 {
                    assert(tree_contains(q3[q3.len() - 1].1, b));
                } else {
                    let j2 = if j1 < i2 {
                        j1
                    } else {
                        j1 - 1
                    };
                    assert(q2[j2] == q1[j1]);
                    assert(q3[j2] == q2[j2]);
                    assert(tree_contains(q3[j2].1, b));
                }
            }
            assert(queue_contains(q3, b));
        }
        if queue_contains(q3, b) {
            let i = choose|i: int| 0 <= i < q3.len() && tree_contains(q3[i].1, b);
            if i == q3.len() - 1 {
                assert(q3[i] == node);
                if tree_contains(e1.1, b) {
                    assert(tree_contains(q[i1].1, b));
                } else {
                    assert(tree_contains(e2.1, b));
                    let j = if i2 < i1 {
                        i2
                    } else {
                        i2 + 1
                    };
                    assert(q1[i2] == q[j]);
                    assert(tree_contains(q[j].1, b));
                }
            } else {
                assert(q3[i] == q2[i]);
                let j1 = if i < i2 {
                    i
                } else {
                    i + 1
                };
                assert(q2[i] == q1[j1]);
                let j = if j1 < i1 {
                    j1
                } else {
                    j1 + 1
                };
                assert(q1[j1] == q[j]);
                assert(tree_contains(q[j].1, b));
            }
            assert(queue_contains(q, b));
        }
    }
}

proof fn lemma_init_contains(freq: Seq<u32>, upto: int, b: u8)
    requires
        0 <= upto <= 256,
    ensures
        queue_contains(init_queue(freq, upto), b) == (b < upto && freq[b as int] != 0),
    decreases upto,
{
    if upto > 0 {
        lemma_init_contains(freq, upto - 1, b);
        let prev = init_queue(freq, upto - 1);
        let q = init_queue(freq, upto);
        lemma_init_len(freq, upto - 1);
        if freq[upto - 1] != 0 {
            assert(q[q.len() - 1] == (freq[upto - 1] as u64, HuffTree::Leaf((upto - 1) as u8)));
        }
        if queue_contains(prev, b) {
            let i = choose|i: int| 0 <= i < prev.len() && tree_contains(prev[i].1, b);
            assert(q[i] == prev[i]);
            assert(queue_contains(q, b));
        }
        if b < upto && freq[b as int] != 0 {
            if b < upto - 1 {
                assert(queue_contains(q, b));
            } else {
                assert(b == upto - 1);
                assert(tree_contains(q[q.len() - 1].1, b));
                assert(queue_contains(q, b));
            }
        }
        if queue_contains(q, b) {
            let i = choose|i: int| 0 <= i < q.len() && tree_contains(q[i].1, b);
            if i < prev.len() {
                assert(prev[i] == q[i]);
                assert(queue_contains(prev, b));
            } else {
                assert(freq[upto - 1] != 0 && q[i].1 == HuffTree::Leaf((upto - 1) as u8));
            }
        }
    }
}

proof fn lemma_init_len(freq: Seq<u32>, upto: int)
    requires
        0 <= upto,
    ensures
        init_queue(freq, upto).len() <= upto,
    decreases upto,
{
    if upto > 0 {
        lemma_init_len(freq, upto - 1);
    }
}

proof fn lemma_init_sum(freq: Seq<u32>, upto: int)
    requires
        0 <= upto,
    ensures
        sum_weights(init_queue(freq, upto)) <= upto * 0xFFFF_FFFF,
    decreases upto,
{
    if upto > 0 {
        lemma_init_sum(freq, upto - 1);
        let prev = init_queue(freq, upto - 1);
        if freq[upto - 1] != 0 {
            let x = (freq[upto - 1] as u64, HuffTree::Leaf((upto - 1) as u8));
            assert(init_queue(freq, upto) =~= prev.push(x));
            lemma_sum_weights_push(prev, x);
        } else {
            assert(init_queue(freq, upto) =~= prev);
        }
    }
}

/// A tree built from a table has a leaf for exactly the bytes the table
/// counts.
pub proof fn lemma_tree_contains_freq(freq: Seq<u32>, b: u8)
    requires
        freq.len() == 256,
        huff_tree_opt(freq) is Some,
    ensures
        tree_contains(huff_tree_opt(freq)->Some_0, b) == (freq[b as int] != 0),
{
    lemma_build_contains(init_queue(freq, 256), b);
    lemma_init_contains(freq, 256, b);
}

/// Finds the position of the first minimal weight in the queue.
fn find_min(queue: &Vec<(u64, HuffTree)>) -> (m: usize)
    requires
        queue@.len() > 0,
    ensures
        m as int == argmin(queue@),
{
    let ghost q = queue@;
    let mut m: usize = 0;
    let mut i: usize = 1;
    let n = queue.len();
    while i < n
        invariant
            m < i <= n,
            n == q.len(),
            q == queue@,
            forall|j: int| 0 <= j < i ==> q[m as int].0 <= #[trigger] q[j].0,
            forall|j: int| 0 <= j < m ==> q[m as int].0 < #[trigger] q[j].0,
        decreases n - i,
    {
        if queue[i].0 < queue[m].0 {
            m = i;
        }
        i = i + 1;
    }
    proof {
        lemma_argmin(q);
        let a = argmin(q);
        if m < a {
            assert(q[a].0 < q[m as int].0);
            assert(q[m as int].0 <= q[a].0);
            assert(false);
        }
        if a < m as int {
            assert(q[m as int].0 < q[a].0);
            assert(q[a].0 <= q[m as int].0);
            assert(false);
        }
    }
    m
}

/// Builds the Huffman tree of a 256-entry frequency table; `None` when
/// every count is zero.
fn build_tree(freq: &Vec<u32>) -> (r: Option<HuffTree>)
    requires
        freq@.len() == 256,
    ensures
        r == huff_tree_opt(freq@),
{
    let mut queue: Vec<(u64, HuffTree)> = Vec::new();
    let mut i: usize = 0;
    while i < 256
        invariant
            i <= 256,
            freq@.len() == 256,
            queue@ == init_queue(freq@, i as int),
        decreases 256 - i,
    {
        let ghost q0 = queue@;
        if freq[i] != 0 {
            queue.push((freq[i] as u64, HuffTree::Leaf(i as u8)));
            proof {
                assert(queue@ =~= init_queue(freq@, i as int + 1));
            }
        } else {
            proof {
                assert(queue@ =~= init_queue(freq@, i as int + 1));
            }
        }
        i = i + 1;
    }
    if queue.len() == 0 {
        return None;
    }
    let ghost qinit = queue@;
    proof {
        lemma_init_sum(freq@, 256);
    }
    while queue.len() > 1
        invariant
            queue@.len() >= 1,
            build_queue(queue@) == build_queue(qinit),
            sum_weights(queue@) <= 256 * 0xFFFF_FFFF,
        decreases queue@.len(),
    {
        let ghost q = queue@;
        let m1 = find_min(&queue);
        proof {
            lemma_argmin(q);
        }
        let e1 = queue.remove(m1);
        let ghost q1 = queue@;
        let m2 = find_min(&queue);
        proof {
            lemma_argmin(q1);
        }
        let e2 = queue.remove(m2);
        proof {
            lemma_weight_le_sum(q, m1 as int);
            lemma_sum_weights_remove(q, m1 as int);
            lemma_weight_le_sum(q1, m2 as int);
            lemma_sum_weights_remove(q1, m2 as int);
            lemma_sum_weights_nonneg(queue@);
        }
        let w = e1.0 + e2.0;
        queue.push((w, HuffTree::Node(Box::new(e1.1), Box::new(e2.1))));
        proof {
            lemma_sum_weights_push(q1.remove(m2 as int), (w, HuffTree::Node(Box::new(e1.1), Box::new(e2.1))));
            assert(queue@ == q1.remove(m2 as int).push(
                (w, HuffTree::Node(Box::new(e1.1), Box::new(e2.1))),
            ));
            assert(build_queue(q) == build_queue(queue@));
        }
    }
    let last = queue.remove(0);
    proof {
        assert(build_queue(qinit) == qinit[0].1 || qinit.len() > 1);
    }
    Some(last.1)
}


/// The header: the first `upto` counts, each as 32-bit little-endian.
pub open spec fn header_bytes(freq: Seq<u32>, upto: int) -> Seq<u8>
    decreases upto,
{
    if upto <= 0 {
        Seq::empty()
    } else {
        header_bytes(freq, upto - 1) + le32_bytes(freq[upto - 1])
    }
}

/// The bit stream of the encoded body: each input byte's code in order.
pub open spec fn body_bits(s: Seq<u8>, t: HuffTree) -> Seq<bool>
    decreases s.len(),
{
    if s.len() == 0 {
        Seq::empty()
    } else {
        emit_code(t, s[0]) + body_bits(s.drop_first(), t)
    }
}

proof fn lemma_body_bits_push(s: Seq<u8>, t: HuffTree, x: u8)
    ensures
        body_bits(s.push(x), t) == body_bits(s, t) + emit_code(t, x),
    decreases s.len(),
{
    if s.len() == 0 {
        assert(s.push(x).drop_first() =~= Seq::<u8>::empty());
        assert(s.push(x)[0] == x);
        assert(body_bits(Seq::<u8>::empty(), t) =~= Seq::<bool>::empty());
        assert(body_bits(s.push(x), t) =~= emit_code(t, x));
        assert(body_bits(s, t) + emit_code(t, x) =~= emit_code(t, x));
    } else {
        assert(s.push(x).drop_first() =~= s.drop_first().push(x));
        assert(s.push(x)[0] == s[0]);
        lemma_body_bits_push(s.drop_first(), t, x);
        assert((emit_code(t, s[0]) + body_bits(s.drop_first(), t)) + emit_code(t, x)
            =~= emit_code(t, s[0]) + (body_bits(s.drop_first(), t) + emit_code(t, x)));
    }
}

/// The Huffman encoding of a byte sequence: the 1024-byte frequency
/// header, then the bit-packed body, one prefix code per input byte.
/// An input of no bytes gives a header of zeros and no body.
pub open spec fn huffman_encode_spec(s: Seq<u8>) -> Seq<u8> {
    let freq = freq_table(s);
    match huff_tree_opt(freq) {
        None => header_bytes(freq, 256),
        Some(t) => header_bytes(freq, 256) + pack_bits(body_bits(s, t)),
    }
}

/// One root-to-leaf walk guided by `bits`: the decoded byte and the
/// number of bits consumed, or `None` when the bits run out first.
pub open spec fn walk(t: HuffTree, bits: Seq<bool>) -> Option<(u8, int)>
    decreases t,
{
    match t {
        HuffTree::Leaf(v) => Some((v, 0)),
        HuffTree::Node(l, r) => if bits.len() == 0 {
            None
        } else {
            let child = if bits[0] {
                *r
            } else {
                *l
            };
            match walk(child, bits.drop_first()) {
                Some(p) => Some((p.0, p.1 + 1)),
                None => None,
            }
        },
    }
}

proof fn lemma_walk_bounds(t: HuffTree, bits: Seq<bool>)
    ensures
        walk(t, bits) is Some ==> 0 <= walk(t, bits)->Some_0.1 <= bits.len(),
    decreases t,
{
    match t {
        HuffTree::Leaf(v) => {
        },
        HuffTree::Node(l, r) => {
            if bits.len() > 0 {
                lemma_walk_bounds(*l, bits.drop_first());
                lemma_walk_bounds(*r, bits.drop_first());
            }
        },
    }
}

/// Decoding `count` symbols from `bits` by repeated walks from the root;
/// a single-leaf tree emits its byte once per remaining bit.  Decoding
/// stops early when the bits run out.
pub open spec fn decode_bits(t: HuffTree, bits: Seq<bool>, count: int) -> Seq<u8>
    decreases count,
{
    if count <= 0 {
        Seq::empty()
    } else {
        match t {
            HuffTree::Leaf(v) => if bits.len() == 0 {
                Seq::empty()
            } else {
                seq![v] + decode_bits(t, bits.drop_first(), count - 1)
            },
            HuffTree::Node(l, r) => match walk(t, bits) {
                None => Seq::empty(),
                Some(p) => seq![p.0] + decode_bits(t, bits.skip(p.1), count - 1),
            },
        }
    }
}

/// Sum of the first `upto` counts of a frequency table.
pub open spec fn sum_freq(freq: Seq<u32>, upto: int) -> int
    decreases upto,
{
    if upto <= 0 {
        0
    } else {
        sum_freq(freq, upto - 1) + freq[upto - 1]
    }
}

/// The 256 counts read back from a 1024-byte header.
pub open spec fn parsed_freq(h: Seq<u8>) -> Seq<u32> {
    Seq::new(256, |i: int| le32_val(h[4 * i], h[4 * i + 1], h[4 * i + 2], h[4 * i + 3]))
}

/// The Huffman decoding of a compressed byte sequence: `None` when the
/// header is short; otherwise the symbols implied by the header's
/// counts, decoded from the body bits.
pub open spec fn huffman_decode_spec(input: Seq<u8>) -> Option<Seq<u8>> {
    if input.len() < 1024 {
        None
    } else {
        let freq = parsed_freq(input.take(1024));
        match huff_tree_opt(freq) {
            None => Some(Seq::empty()),
            Some(t) => Some(
                decode_bits(t, bits_of_bytes(input.skip(1024)), sum_freq(freq, 256)),
            ),
        }
    }
}

/// The four little-endian bytes of a 32-bit count.
fn le32_to_vec(v: u32) -> (r: Vec<u8>)
    ensures
        r@ == le32_bytes(v),
{
    let mut r: Vec<u8> = Vec::new();
    r.push((v % 256) as u8);
    r.push(((v / 256) % 256) as u8);
    r.push(((v / 0x10000) % 256) as u8);
    r.push((v / 0x1000000) as u8);
    proof {
        assert(r@ =~= le32_bytes(v));
    }
    r
}

/// Tallies how often each byte value occurs.
fn calc_frequences(input: &Vec<u8>) -> (freq: Vec<u32>)
    requires
        input@.len() <= 0xFFFF_FFFF,
    ensures
        freq@ == freq_table(input@),
        freq@.len() == 256,
{
    let mut freq: Vec<u32> = Vec::new();
    let mut i: usize = 0;
    while i < 256
        invariant
            i <= 256,
            freq@.len() == i,
            forall|j: int| 0 <= j < i ==> freq@[j] == 0,
        decreases 256 - i,
    {
        freq.push(0);
        i = i + 1;
    }
    let n = input.len();
    let mut k: usize = 0;
    proof {
        assert(input@.take(0) =~= Seq::<u8>::empty());
    }
    while k < n
        invariant
            k <= n,
            n == input@.len(),
            n <= 0xFFFF_FFFF,
            freq@.len() == 256,
            forall|b: u8| #[trigger] freq@[b as int] == count_freq(input@.take(k as int), b),
        decreases n - k,
    {
        let ghost prefix = input@.take(k as int);
        let b = input[k];
        proof {
            lemma_count_le_len(prefix, b);
        }
        let c = freq[b as usize];
        freq.set(b as usize, c + 1);
        proof {
            assert(input@.take(k as int + 1) =~= prefix.push(input@[k as int]));
            assert forall|b2: u8| #[trigger] freq@[b2 as int] == count_freq(
                input@.take(k as int + 1),
                b2,
            ) by {
                lemma_count_push(prefix, b, b2);
            }
        }
        k = k + 1;
    }
    proof {
        assert(input@.take(n as int) =~= input@);
        assert forall|j: int| 0 <= j < 256 implies freq@[j] == freq_table(input@)[j] by {
            lemma_count_le_len(input@, j as u8);
            assert(freq@[j] == count_freq(input@, j as u8));
        }
        assert(freq@ =~= freq_table(input@));
    }
    freq
}

/// Appends the path to `b`'s leaf to `acc`; false when `b` labels no
/// leaf of `t`, leaving `acc` unchanged.
fn code_lookup(t: &HuffTree, b: u8, acc: &mut Vec<bool>) -> (found: bool)
    ensures
        found == tree_contains(*t, b),
        found ==> final(acc)@ == old(acc)@ + code_of(*t, b),
        !found ==> final(acc)@ == old(acc)@,
    decreases *t,
{
    match t {
        HuffTree::Leaf(v) => {
            proof {
                if *v == b {
                    assert(old(acc)@ + code_of(*t, b) =~= old(acc)@);
                }
            }
            *v == b
        },
        HuffTree::Node(l, r) => {
            let ghost a0 = acc@;
            acc.push(false);
            if code_lookup(&**l, b, acc) {
                proof {
                    assert(a0.push(false) =~= a0 + seq![false]);
                    assert((a0 + seq![false]) + code_of(**l, b) =~= a0 + (seq![false] + code_of(
                        **l,
                        b,
                    )));
                }
                return true;
            }
            let _ = acc.pop();
            proof {
                assert(a0.push(false).drop_last() =~= a0);
            }
            acc.push(true);
            if code_lookup(&**r, b, acc) {
                proof {
                    assert(a0.push(true) =~= a0 + seq![true]);
                    assert((a0 + seq![true]) + code_of(**r, b) =~= a0 + (seq![true] + code_of(
                        **r,
                        b,
                    )));
                }
                return true;
            }
            let _ = acc.pop();
            proof {
                assert(a0.push(true).drop_last() =~= a0);
            }
            false
        },
    }
}

/// The static Huffman encoder.
pub struct HuffmanEncoder;

/// The static Huffman decoder.
pub struct HuffmanDecoder;

impl HuffmanEncoder {
    /// Encodes `input`: a 1024-byte frequency header, then one prefix
    /// code per input byte, bit-packed LSB-first and zero-padded.
    pub fn encode(input: &Vec<u8>) -> (r: Vec<u8>)
        requires
            input@.len() <= 0xFFFF_FFFF,
        ensures
            r@ == huffman_encode_spec(input@),
    {
        let freq = calc_frequences(input);
        let tree_opt = build_tree(&freq);
        let mut stream = BitStream::new(Vec::new(), false);
        let mut i: usize = 0;
        proof {
            assert(Seq::<bool>::empty() + bits_of_bytes(header_bytes(freq@, 0))
                =~= bits_of_bytes(header_bytes(freq@, 0)));
            assert(header_bytes(freq@, 0) =~= Seq::<u8>::empty());
            assert(bits_of_bytes(Seq::<u8>::empty()) =~= Seq::<bool>::empty());
        }
        while i < 256
            invariant
                i <= 256,
                freq@.len() == 256,
                stream.wf(),
                !stream.is_read(),
                stream.flushed() == Seq::<u8>::empty(),
                stream.wbits() == bits_of_bytes(header_bytes(freq@, i as int)),
            decreases 256 - i,
        {
            let word = le32_to_vec(freq[i]);
            let _ = stream.write_bit_sequence(&word, 32);
            proof {
                lemma_bits_of_bytes_add(header_bytes(freq@, i as int), le32_bytes(freq@[i as int]));
                assert(bits_of_bytes(le32_bytes(freq@[i as int])).take(32)
                    =~= bits_of_bytes(le32_bytes(freq@[i as int])));
            }
            i = i + 1;
        }
        let ghost header = header_bytes(freq@, 256);
        match tree_opt {
            None => {
                let _ = stream.flush();
                proof {
                    lemma_pack_unpack(header);
                }
                stream.into_output()
            },
            Some(tree) => {
                let is_leaf = match &tree {
                    HuffTree::Leaf(_) => true,
                    HuffTree::Node(_, _) => false,
                };
                let n = input.len();
                let mut k: usize = 0;
                proof {
                    assert(input@.take(0) =~= Seq::<u8>::empty());
                    assert(body_bits(Seq::<u8>::empty(), tree) =~= Seq::<bool>::empty());
                    assert(stream.wbits() + Seq::<bool>::empty() =~= stream.wbits());
                }
                while k < n
                    invariant
                        k <= n,
                        n == input@.len(),
                        n <= 0xFFFF_FFFF,
                        freq@ == freq_table(input@),
                        freq@.len() == 256,
                        huff_tree_opt(freq@) == Some::<HuffTree>(tree),
                        is_leaf == tree is Leaf,
                        stream.wf(),
                        !stream.is_read(),
                        stream.flushed() == Seq::<u8>::empty(),
                        stream.wbits() == bits_of_bytes(header) + body_bits(
                            input@.take(k as int),
                            tree,
                        ),
                    decreases n - k,
                {
                    let b = input[k];
                    let ghost w0 = stream.wbits();
                    if is_leaf {
                        let mut zero: Vec<u8> = Vec::new();
                        zero.push(0);
                        let _ = stream.write_bit_sequence(&zero, 1);
                        proof {
                            assert((0u8 >> 0u8) & 1u8 == 0u8) by (bit_vector);
                            assert(bits_of_bytes(zero@).take(1) =~= seq![false]);
                            assert(emit_code(tree, b) == seq![false]);
                        }
                    } else {
                        let mut code: Vec<bool> = Vec::new();
                        let found = code_lookup(&tree, b, &mut code);
                        proof {
                            lemma_count_le_len(input@, b);
                            assert(count_freq(input@, b) > 0) by {
                                lemma_count_take_pos(input@, k as int);
                            }
                            assert(freq@[b as int] == count_freq(input@, b) as u32);
                            assert(freq@[b as int] != 0);
                            lemma_tree_contains_freq(freq@, b);
                            assert(found);
                            assert(code@ =~= code_of(tree, b));
                            assert(emit_code(tree, b) == code@);
                        }
                        let packed = pack_bool_vec(&code);
                        let cl = code.len();
                        proof {
                            lemma_unpack_pack(code@);
                            assert(8 * packed@.len() >= cl as int);
                            assert(bits_of_bytes(packed@).take(cl as int) =~= code@);
                        }
                        let _ = stream.write_bit_sequence(&packed, cl);
                    }
                    proof {
                        lemma_body_bits_push(input@.take(k as int), tree, b);
                        assert(input@.take(k as int + 1) =~= input@.take(k as int).push(
                            input@[k as int],
                        ));
                        assert(stream.wbits() =~= bits_of_bytes(header) + body_bits(
                            input@.take(k as int + 1),
                            tree,
                        ));
                    }
                    k = k + 1;
                }
                let _ = stream.flush();
                proof {
                    assert(input@.take(n as int) =~= input@);
                    lemma_pack_bits_aligned(header, body_bits(input@, tree));
                }
                stream.into_output()
            },
        }
    }
}

proof fn lemma_count_take_pos(s: Seq<u8>, k: int)
    requires
        0 <= k < s.len(),
    ensures
        count_freq(s, s[k]) > 0,
    decreases s.len(),
{
    if k == 0 {
        lemma_count_le_len(s.drop_first(), s[0]);
    } else {
        assert(s.drop_first()[k - 1] == s[k]);
        lemma_count_take_pos(s.drop_first(), k - 1);
    }
}


/// Walks the tree one symbol's worth of bits, reading from the stream.
fn walk_tree(t: &HuffTree, stream: &mut BitStream) -> (r: Option<u8>)
    requires
        old(stream).wf(),
        old(stream).is_read(),
    ensures
        final(stream).wf(),
        final(stream).is_read(),
        final(stream).rdata() == old(stream).rdata(),
        match walk(*t, bits_of_bytes(old(stream).rdata()).skip(old(stream).rpos())) {
            Some(p) => r == Some::<u8>(p.0) && final(stream).rpos() == old(stream).rpos() + p.1,
            None => r == None::<u8> && final(stream).rpos() == 8 * old(stream).rdata().len(),
        },
    decreases *t,
{
    let ghost data = old(stream).rdata();
    let ghost pos = old(stream).rpos();
    let ghost cur = bits_of_bytes(data).skip(pos);
    proof {
        old(stream).lemma_rpos_bounds();
    }
    match t {
        HuffTree::Leaf(v) => Some(*v),
        HuffTree::Node(l, r) => {
            let got = match stream.read_bit_sequence(1) {
                Ok(v) => v,
                Err(_) => {
                    proof {
                        assert(false);
                    }
                    return None;
                },
            };
            if got.len() == 0 {
                proof {
                    assert(stream.rpos() == pos);
                    assert(cur.len() == 0);
                }
                None
            } else {
                proof {
                    assert(cur.len() > 0);
                    assert(stream.rpos() == pos + 1);
                }
                let bit = got[0] == 1;
                proof {
                    let seg = bits_of_bytes(data).subrange(pos, pos + 1);
                    assert(got@ == pack_bits(seg));
                    assert(got@[0] == crate::bits::byte_at(seg, 0));
                    assert(crate::bits::bitv(seg, 0) == (if seg[0] {
                        1u8
                    } else {
                        0u8
                    }));
                    assert(got@[0] == (if seg[0] {
                        1u8
                    } else {
                        0u8
                    }));
                    assert(seg[0] == cur[0]);
                    assert(bit == cur[0]);
                    assert(cur.drop_first() =~= bits_of_bytes(data).skip(pos + 1));
                }
                if bit {
                    walk_tree(&**r, stream)
                } else {
                    walk_tree(&**l, stream)
                }
            }
        },
    }
}

/// Reads and parses the 1024-byte frequency header.
fn read_header(stream: &mut BitStream) -> (r: Result<Vec<u32>, CodecError>)
    requires
        old(stream).wf(),
        old(stream).is_read(),
        old(stream).rpos() == 0,
    ensures
        final(stream).wf(),
        final(stream).is_read(),
        final(stream).rdata() == old(stream).rdata(),
        old(stream).rdata().len() >= 1024 ==> r is Ok && r->Ok_0@ == parsed_freq(
            old(stream).rdata().take(1024),
        ) && final(stream).rpos() == 8192 && r->Ok_0@.len() == 256,
        old(stream).rdata().len() < 1024 ==> r == Err::<Vec<u32>, CodecError>(
            CodecError::CorruptedInput,
        ),
{
    let ghost data = old(stream).rdata();
    let table = match stream.read_bit_sequence(8192) {
        Ok(v) => v,
        Err(_) => {
            proof {
                assert(false);
            }
            return Err(CodecError::CorruptedInput);
        },
    };
    proof {
        if data.len() >= 1024 {
            let seg = bits_of_bytes(data).subrange(0, 8192);
            lemma_bits_of_bytes_subrange(data, 0, 1024);
            assert(seg =~= bits_of_bytes(data.take(1024)));
            lemma_pack_unpack(data.take(1024));
            assert(table@ == data.take(1024));
        } else {
            assert(table@.len() <= (8 * data.len() + 7) / 8);
            assert(table@.len() < 1024);
        }
    }
    if table.len() < 1024 {
        return Err(CodecError::CorruptedInput);
    }
    let mut freq: Vec<u32> = Vec::new();
    let mut i: usize = 0;
    while i < 256
        invariant
            i <= 256,
            table@.len() == 1024,
            table@ == data.take(1024),
            freq@.len() == i,
            forall|j: int| 0 <= j < i ==> #[trigger] freq@[j] == parsed_freq(data.take(1024))[j],
        decreases 256 - i,
    {
        let b0 = table[4 * i];
        let b1 = table[4 * i + 1];
        let b2 = table[4 * i + 2];
        let b3 = table[4 * i + 3];
        let v: u32 = (b0 as u32) + 256 * (b1 as u32) + 0x10000 * (b2 as u32) + 0x1000000 * (
        b3 as u32);
        freq.push(v);
        i = i + 1;
    }
    proof {
        assert(freq@ =~= parsed_freq(data.take(1024)));
    }
    Ok(freq)
}

/// Decodes up to `total` symbols by walking the tree bit by bit.
fn decode_symbols(tree: &HuffTree, stream: &mut BitStream, total: u64) -> (out: Vec<u8>)
    requires
        old(stream).wf(),
        old(stream).is_read(),
    ensures
        final(stream).wf(),
        final(stream).is_read(),
        out@ == decode_bits(
            *tree,
            bits_of_bytes(old(stream).rdata()).skip(old(stream).rpos()),
            total as int,
        ),
{
    let ghost data = old(stream).rdata();
    let ghost target = decode_bits(
        *tree,
        bits_of_bytes(data).skip(old(stream).rpos()),
        total as int,
    );
    let mut out: Vec<u8> = Vec::new();
    let mut symbols_left: u64 = total;
    let is_leaf = match tree {
        HuffTree::Leaf(_) => true,
        HuffTree::Node(_, _) => false,
    };
    proof {
        assert(out@ + decode_bits(
            *tree,
            bits_of_bytes(data).skip(old(stream).rpos()),
            total as int,
        ) =~= target);
    }
    while symbols_left > 0
        invariant
            stream.wf(),
            stream.is_read(),
            stream.rdata() == data,
            data == old(stream).rdata(),
            target == decode_bits(
                *tree,
                bits_of_bytes(data).skip(old(stream).rpos()),
                total as int,
            ),
            symbols_left <= total,
            is_leaf == *tree is Leaf,
            target == out@ + decode_bits(
                *tree,
                bits_of_bytes(data).skip(stream.rpos()),
                symbols_left as int,
            ),
        decreases symbols_left,
    {
        let ghost pos = stream.rpos();
        let ghost cur = bits_of_bytes(data).skip(pos);
        let ghost out0 = out@;
        proof {
            stream.lemma_rpos_bounds();
        }
        if is_leaf {
            let got = match stream.read_bit_sequence(1) {
                Ok(v) => v,
                Err(_) => {
                    proof {
                        assert(false);
                    }
                    return out;
                },
            };
            if got.len() == 0 {
                proof {
                    assert(cur.len() == 0);
                    assert(decode_bits(*tree, cur, symbols_left as int) =~= Seq::<u8>::empty());
                    assert(target =~= out@);
                }
                return out;
            }
            let v = match tree {
                HuffTree::Leaf(v) => *v,
                HuffTree::Node(_, _) => {
                    proof {
                        assert(false);
                    }
                    return out;
                },
            };
            out.push(v);
            proof {
                assert(cur.len() > 0);
                assert(cur.drop_first() =~= bits_of_bytes(data).skip(pos + 1));
                assert(decode_bits(*tree, cur, symbols_left as int) == seq![v] + decode_bits(
                    *tree,
                    cur.drop_first(),
                    symbols_left as int - 1,
                ));
                assert(out@ + decode_bits(*tree, cur.drop_first(), symbols_left as int - 1)
                    =~= out0 + decode_bits(*tree, cur, symbols_left as int));
            }
            symbols_left = symbols_left - 1;
        } else {
            let stepped = walk_tree(tree, stream);
            match stepped {
                None => {
                    proof {
                        assert(walk(*tree, cur) is None);
                        assert(decode_bits(*tree, cur, symbols_left as int) =~= Seq::<u8>::empty());
                        assert(target =~= out@);
                    }
                    return out;
                },
                Some(b) => {
                    out.push(b);
                    proof {
                        lemma_walk_bounds(*tree, cur);
                        let p = walk(*tree, cur)->Some_0;
                        assert(b == p.0);
                        assert(stream.rpos() == pos + p.1);
                        assert(cur.skip(p.1) =~= bits_of_bytes(data).skip(pos + p.1));
                        assert(decode_bits(*tree, cur, symbols_left as int) == seq![b]
                            + decode_bits(*tree, cur.skip(p.1), symbols_left as int - 1));
                        assert(out@ + decode_bits(*tree, cur.skip(p.1), symbols_left as int - 1)
                            =~= out0 + decode_bits(*tree, cur, symbols_left as int));
                    }
                    symbols_left = symbols_left - 1;
                },
            }
        }
    }
    proof {
        assert(decode_bits(*tree, bits_of_bytes(data).skip(stream.rpos()), 0)
            =~= Seq::<u8>::empty());
        assert(target =~= out@);
    }
    out
}

impl HuffmanDecoder {
    /// Decodes `input`: rebuilds the tree from the 1024-byte frequency
    /// header and walks it bit by bit until the header's symbol count is
    /// reached or the bits run out.  A short header is corrupt input.
    pub fn decode(input: Vec<u8>) -> (r: Result<Vec<u8>, CodecError>)
        ensures
            match huffman_decode_spec(input@) {
                Some(s) => r is Ok && r->Ok_0@ == s,
                None => r == Err::<Vec<u8>, CodecError>(CodecError::CorruptedInput),
            },
    {
        let ghost data = input@;
        let mut stream = BitStream::new(input, true);
        let freq = match read_header(&mut stream) {
            Ok(f) => f,
            Err(_) => {
                proof {
                    assert(data.len() < 1024);
                }
                return Err(CodecError::CorruptedInput);
            },
        };
        proof {
            assert(data.len() >= 1024) by {
                stream.lemma_rpos_bounds();
            }
        }
        let tree_opt = build_tree(&freq);
        let mut total: u64 = 0;
        let mut i2: usize = 0;
        while i2 < 256
            invariant
                i2 <= 256,
                freq@.len() == 256,
                total as int == sum_freq(freq@, i2 as int),
                total <= i2 * 0xFFFF_FFFF,
            decreases 256 - i2,
        {
            total = total + freq[i2] as u64;
            i2 = i2 + 1;
        }
        let tree = match tree_opt {
            None => {
                let empty: Vec<u8> = Vec::new();
                proof {
                    assert(huffman_decode_spec(data) == Some(Seq::<u8>::empty()));
                }
                return Ok(empty);
            },
            Some(t) => t,
        };
        let out = decode_symbols(&tree, &mut stream, total);
        proof {
            assert(bits_of_bytes(data).skip(8192) =~= bits_of_bytes(data.skip(1024))) by {
                lemma_bits_of_bytes_subrange(data, 1024, data.len() as int);
                assert(data.skip(1024) =~= data.subrange(1024, data.len() as int));
                assert(bits_of_bytes(data).skip(8192) =~= bits_of_bytes(data).subrange(
                    8192,
                    8 * (data.len() as int),
                ));
            }
            assert(huffman_decode_spec(data) == Some(
                decode_bits(tree, bits_of_bytes(data.skip(1024)), sum_freq(freq@, 256)),
            ));
        }
        Ok(out)
    }
}


/// Law: Huffman compression is deterministic — two encodings of equal
/// inputs are byte-identical, since the encoder's contract pins its
/// output to a function of the input alone.
pub proof fn lemma_huffman_encode_deterministic(a: Seq<u8>, b: Seq<u8>)
    requires
        a == b,
    ensures
        huffman_encode_spec(a) == huffman_encode_spec(b),
{
}

proof fn lemma_header_len(freq: Seq<u32>, upto: int)
    requires
        0 <= upto,
    ensures
        header_bytes(freq, upto).len() == 4 * upto,
    decreases upto,
{
    if upto > 0 {
        lemma_header_len(freq, upto - 1);
    }
}

proof fn lemma_header_index(freq: Seq<u32>, upto: int, i: int, r: int)
    requires
        0 <= i < upto,
        0 <= r < 4,
    ensures
        header_bytes(freq, upto)[4 * i + r] == le32_bytes(freq[i])[r],
    decreases upto,
{
    lemma_header_len(freq, upto - 1);
    if i < upto - 1 {
        lemma_header_index(freq, upto - 1, i, r);
        assert(header_bytes(freq, upto)[4 * i + r] == header_bytes(freq, upto - 1)[4 * i + r]);
    } else {
        assert(header_bytes(freq, upto)[4 * (upto - 1) + r] == le32_bytes(freq[upto - 1])[r]);
    }
}

proof fn lemma_header_round_trip(freq: Seq<u32>)
    requires
        freq.len() == 256,
    ensures
        header_bytes(freq, 256).len() == 1024,
        parsed_freq(header_bytes(freq, 256)) == freq,
{
    let h = header_bytes(freq, 256);
    lemma_header_len(freq, 256);
    assert forall|i: int| 0 <= i < 256 implies #[trigger] parsed_freq(h)[i] == freq[i] by {
        lemma_header_index(freq, 256, i, 0);
        lemma_header_index(freq, 256, i, 1);
        lemma_header_index(freq, 256, i, 2);
        lemma_header_index(freq, 256, i, 3);
        crate::bits::lemma_le32_round_trip(freq[i]);
    }
    assert(parsed_freq(h) =~= freq);
}

proof fn lemma_sum_freq_shift(t1: Seq<u32>, t2: Seq<u32>, x: u8, upto: int)
    requires
        0 <= upto <= 256,
        t1.len() == 256,
        t2.len() == 256,
        forall|b: int| 0 <= b < 256 ==> t1[b] == t2[b] + (if b == x {
            1int
        } else {
            0int
        }),
    ensures
        sum_freq(t1, upto) == sum_freq(t2, upto) + (if (x as int) < upto {
            1int
        } else {
            0int
        }),
    decreases upto,
{
    if upto > 0 {
        lemma_sum_freq_shift(t1, t2, x, upto - 1);
    }
}

proof fn lemma_sum_freq_zero(t: Seq<u32>, upto: int)
    requires
        0 <= upto <= t.len(),
        forall|b: int| 0 <= b < t.len() ==> t[b] == 0,
    ensures
        sum_freq(t, upto) == 0,
    decreases upto,
{
    if upto > 0 {
        lemma_sum_freq_zero(t, upto - 1);
    }
}

proof fn lemma_sum_freq_is_len(s: Seq<u8>)
    requires
        s.len() <= 0xFFFF_FFFF,
    ensures
        sum_freq(freq_table(s), 256) == s.len(),
    decreases s.len(),
{
    if s.len() == 0 {
        assert forall|b: int| 0 <= b < 256 implies freq_table(s)[b] == 0 by {
            assert(count_freq(s, b as u8) == 0);
        }
        lemma_sum_freq_zero(freq_table(s), 256);
    } else {
        let x = s[0];
        let rest = s.drop_first();
        lemma_sum_freq_is_len(rest);
        assert forall|b: int| 0 <= b < 256 implies freq_table(s)[b] == freq_table(rest)[b] + (if b
            == x {
            1int
        } else {
            0int
        }) by {
            lemma_count_le_len(rest, b as u8);
            assert(count_freq(s, b as u8) == count_freq(rest, b as u8) + (if s[0] == b as u8 {
                1int
            } else {
                0int
            }));
        }
        lemma_sum_freq_shift(freq_table(s), freq_table(rest), x, 256);
    }
}

proof fn lemma_empty_tree_means_zero(freq: Seq<u32>, b: u8)
    requires
        freq.len() == 256,
        init_queue(freq, 256).len() == 0,
    ensures
        freq[b as int] == 0,
{
    lemma_init_contains(freq, 256, b);
    if freq[b as int] != 0 {
        assert(queue_contains(init_queue(freq, 256), b));
        let j = choose|j: int|
            0 <= j < init_queue(freq, 256).len() && tree_contains(init_queue(freq, 256)[j].1, b);
        assert(false);
    }
}

proof fn lemma_walk_code(t: HuffTree, c: u8, more: Seq<bool>)
    requires
        tree_contains(t, c),
    ensures
        walk(t, code_of(t, c) + more) == Some((c, code_of(t, c).len() as int)),
    decreases t,
{
    match t {
        HuffTree::Leaf(v) => {
            assert(code_of(t, c) + more =~= more);
        },
        HuffTree::Node(l, r) => {
            let code = code_of(t, c);
            if tree_contains(*l, c) {
                assert(code == seq![false] + code_of(*l, c));
                assert((code + more)[0] == false);
                assert((code + more).drop_first() =~= code_of(*l, c) + more);
                lemma_walk_code(*l, c, more);
            } else {
                assert(tree_contains(*r, c));
                assert(code == seq![true] + code_of(*r, c));
                assert((code + more)[0] == true);
                assert((code + more).drop_first() =~= code_of(*r, c) + more);
                lemma_walk_code(*r, c, more);
            }
        },
    }
}

proof fn lemma_decode_body_node(t: HuffTree, s: Seq<u8>, extra: Seq<bool>)
    requires
        t is Node,
        forall|i: int| 0 <= i < s.len() ==> tree_contains(t, #[trigger] s[i]),
    ensures
        decode_bits(t, body_bits(s, t) + extra, s.len() as int) == s,
    decreases s.len(),
{
    if s.len() == 0 {
        assert(decode_bits(t, body_bits(s, t) + extra, 0) =~= s);
    } else {
        let c = s[0];
        let rest = s.drop_first();
        let code = emit_code(t, c);
        assert(code == code_of(t, c));
        assert(body_bits(s, t) == code + body_bits(rest, t));
        assert(body_bits(s, t) + extra =~= code + (body_bits(rest, t) + extra));
        lemma_walk_code(t, c, body_bits(rest, t) + extra);
        let all = body_bits(s, t) + extra;
        assert(walk(t, all) == Some((c, code.len() as int)));
        assert(all.skip(code.len() as int) =~= body_bits(rest, t) + extra);
        assert forall|i: int| 0 <= i < rest.len() implies tree_contains(t, #[trigger] rest[i]) by {
            assert(rest[i] == s[i + 1]);
        }
        lemma_decode_body_node(t, rest, extra);
        assert(decode_bits(t, all, s.len() as int) == seq![c] + rest);
        assert(seq![c] + rest =~= s);
    }
}

proof fn lemma_decode_body_leaf(v: u8, bits: Seq<bool>, n: int)
    requires
        0 <= n <= bits.len(),
    ensures
        decode_bits(HuffTree::Leaf(v), bits, n) == Seq::new(n as nat, |i: int| v),
    decreases n,
{
    let t = HuffTree::Leaf(v);
    if n == 0 {
        assert(decode_bits(t, bits, 0) =~= Seq::new(0, |i: int| v));
    } else {
        lemma_decode_body_leaf(v, bits.drop_first(), n - 1);
        assert(decode_bits(t, bits, n) == seq![v] + Seq::new((n - 1) as nat, |i: int| v));
        assert(seq![v] + Seq::new((n - 1) as nat, |i: int| v) =~= Seq::new(n as nat, |i: int| v));
    }
}

proof fn lemma_body_bits_len_leaf(s: Seq<u8>, t: HuffTree)
    requires
        t is Leaf,
    ensures
        body_bits(s, t).len() == s.len(),
    decreases s.len(),
{
    if s.len() > 0 {
        lemma_body_bits_len_leaf(s.drop_first(), t);
    }
}

/// Law: a Huffman-compressed byte sequence decodes to the bytes that
/// were encoded, for every input whose counts fit the 32-bit table.
pub proof fn lemma_huffman_round_trip(s: Seq<u8>)
    requires
        s.len() <= 0xFFFF_FFFF,
    ensures
        huffman_decode_spec(huffman_encode_spec(s)) == Some(s),
{
    let freq = freq_table(s);
    let header = header_bytes(freq, 256);
    lemma_header_round_trip(freq);
    lemma_sum_freq_is_len(s);
    let enc = huffman_encode_spec(s);
    match huff_tree_opt(freq) {
        None => {
            assert(enc == header);
            assert(enc.take(1024) =~= header);
            assert(parsed_freq(enc.take(1024)) == freq);
            // an empty queue means every count is zero, so the input is empty
            if s.len() > 0 {
                lemma_count_take_pos(s, 0);
                lemma_count_le_len(s, s[0]);
                lemma_empty_tree_means_zero(freq, s[0]);
                assert(freq[s[0] as int] == 0);
                assert(false);
            }
            assert(huffman_decode_spec(enc) == Some(Seq::<u8>::empty()));
            assert(Seq::<u8>::empty() =~= s);
        },
        Some(t) => {
            let body = body_bits(s, t);
            assert(enc == header + pack_bits(body));
            assert(enc.len() >= 1024);
            assert(enc.take(1024) =~= header);
            assert(enc.skip(1024) =~= pack_bits(body));
            assert(parsed_freq(enc.take(1024)) == freq);
            assert(huff_tree_opt(parsed_freq(enc.take(1024))) == Some(t));
            crate::bits::lemma_unpack_pack(body);
            let unpacked = bits_of_bytes(pack_bits(body));
            let extra = unpacked.skip(body.len() as int);
            assert(unpacked =~= body + extra);
            assert forall|i: int| 0 <= i < s.len() implies tree_contains(t, #[trigger] s[i]) by {
                lemma_count_take_pos(s, i);
                lemma_count_le_len(s, s[i]);
                assert(freq[s[i] as int] == count_freq(s, s[i]) as u32);
                lemma_tree_contains_freq(freq, s[i]);
            }
            match t {
                HuffTree::Leaf(v) => {
                    // one distinct byte: every input byte equals it
                    assert forall|i: int| 0 <= i < s.len() implies #[trigger] s[i] == v by {
                        assert(tree_contains(t, s[i]));
                    }
                    lemma_body_bits_len_leaf(s, t);
                    assert(unpacked.len() >= s.len());
                    lemma_decode_body_leaf(v, unpacked, s.len() as int);
                    assert(decode_bits(t, unpacked, s.len() as int) =~= s);
                },
                HuffTree::Node(l, r) => {
                    lemma_decode_body_node(t, s, extra);
                    assert(decode_bits(t, body + extra, s.len() as int) == s);
                    assert(decode_bits(t, unpacked, s.len() as int) == s);
                },
            }
            assert(huffman_decode_spec(enc) == Some(s));
        },
    }
}

} // verus!
