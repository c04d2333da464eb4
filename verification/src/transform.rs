//! Reversible block transforms: the Burrows-Wheeler Transform and
//! Move-To-Front coding, their composition, and the block framing used
//! when a whole byte sequence is transformed chunk by chunk.

use vstd::prelude::*;
use vstd::multiset::Multiset;
use vstd::relations::sorted_by;
use vstd::relations::total_ordering;
use vstd::seq_lib::lemma_sorted_unique;

use crate::bits::le16_bytes;
use crate::bits::le16_val;
use crate::CodecError;

verus! {

/// Bytes taken from the input for one transform block.
pub const TRANSFORM_BLOCK_SIZE: usize = 4096;

/// Bytes one transformed block occupies: the block plus a 16-bit
/// little-endian rotation index.
pub const BWT_RESULT_SIZE: usize = 4098;

// ---------------------------------------------------------------------
// Move-To-Front
// ---------------------------------------------------------------------
/// The initial move-to-front symbol table: the identity over all bytes.
pub open spec fn mtf_init_table() -> Seq<u8> {
    Seq::new(256, |i: int| i as u8)
}

/// A usable symbol table: 256 entries that include every byte value.
pub open spec fn mtf_table_wf(t: Seq<u8>) -> bool {
    t.len() == 256 && (forall|b: u8| t.contains(b))
}

/// First position of byte `b` in table `t`.
pub open spec fn table_pos(t: Seq<u8>, b: u8) -> int
    decreases t.len(),
{
    if t.len() == 0 {
        0
    } else if t[0] == b {
        0
    } else {
        1 + table_pos(t.drop_first(), b)
    }
}

proof fn lemma_table_pos(t: Seq<u8>, b: u8)
    requires
        t.contains(b),
    ensures
        0 <= table_pos(t, b) < t.len(),
        t[table_pos(t, b)] == b,
        forall|j: int| 0 <= j < table_pos(t, b) ==> t[j] != b,
    decreases t.len(),
{
    if t[0] == b {
    } else {
        assert(t.drop_first().contains(b)) by {
            let w = choose|w: int| 0 <= w < t.len() && t[w] == b;
            assert(t.drop_first()[w - 1] == b);
        }
        lemma_table_pos(t.drop_first(), b);
        let p = table_pos(t, b);
        assert forall|j: int| 0 <= j < p implies t[j] != b by {
            if j > 0 {
                assert(t.drop_first()[j - 1] == t[j]);
            }
        }
    }
}

/// The table after the byte at position `i` moves to the front.
pub open spec fn move_to_front(t: Seq<u8>, i: int) -> Seq<u8> {
    seq![t[i]] + t.remove(i)
}

proof fn lemma_move_to_front_wf(t: Seq<u8>, i: int)
    requires
        mtf_table_wf(t),
        0 <= i < 256,
    ensures
        mtf_table_wf(move_to_front(t, i)),
{
    let t2 = move_to_front(t, i);
    t.remove_ensures(i);
    assert(t2.len() == 256);
    assert forall|b: u8| t2.contains(b) by {
        assert(t.contains(b));
        let j = choose|j: int| 0 <= j < t.len() && t[j] == b;
        if j == i {
            assert(t2[0] == b);
        } else if j < i {
            assert(t.remove(i)[j] == b);
            assert(t2[j + 1] == b);
        } else {
            assert(t.remove(i)[j - 1] == b);
            assert(t2[j] == b);
        }
    }
}

/// Move-To-Front of `s` starting from table `t`: each byte is emitted
/// as its current position, and then moves to the front of the table.
pub open spec fn mtf_spec(s: Seq<u8>, t: Seq<u8>) -> Seq<u8>
    decreases s.len(),
{
    if s.len() == 0 {
        Seq::empty()
    } else {
        let i = table_pos(t, s[0]);
        seq![i as u8] + mtf_spec(s.drop_first(), move_to_front(t, i))
    }
}

/// Inverse Move-To-Front starting from table `t`: each index selects the
/// byte to emit, and that byte moves to the front of the table.
pub open spec fn inverse_mtf_spec(s: Seq<u8>, t: Seq<u8>) -> Seq<u8>
    decreases s.len(),
{
    if s.len() == 0 {
        Seq::empty()
    } else {
        let b = t[s[0] as int];
        seq![b] + inverse_mtf_spec(s.drop_first(), move_to_front(t, s[0] as int))
    }
}

/// Law: Move-To-Front is inverted exactly by its inverse, from any
/// usable table — in particular from the identity table both sides use.
pub proof fn lemma_mtf_involution(s: Seq<u8>, t: Seq<u8>)
    requires
        mtf_table_wf(t),
    ensures
        inverse_mtf_spec(mtf_spec(s, t), t) == s,
    decreases s.len(),
{
    if s.len() == 0 {
        assert(inverse_mtf_spec(mtf_spec(s, t), t) =~= s);
    } else {
        let i = table_pos(t, s[0]);
        lemma_table_pos(t, s[0]);
        let t2 = move_to_front(t, i);
        lemma_move_to_front_wf(t, i);
        lemma_mtf_involution(s.drop_first(), t2);
        let m = mtf_spec(s, t);
        assert(m == seq![i as u8] + mtf_spec(s.drop_first(), t2));
        assert(m[0] == i as u8);
        assert(m.drop_first() =~= mtf_spec(s.drop_first(), t2));
        assert((m[0] as int) == i);
        assert(inverse_mtf_spec(m, t) == seq![t[i]] + inverse_mtf_spec(m.drop_first(), t2));
        assert(inverse_mtf_spec(m, t) =~= s);
    }
}

/// Builds the identity symbol table 0..=255.
fn build_init_table() -> (t: Vec<u8>)
    ensures
        t@ == mtf_init_table(),
        mtf_table_wf(t@),
{
    let mut t: Vec<u8> = Vec::new();
    let mut i: usize = 0;
    while i < 256
        invariant
            i <= 256,
            t@.len() == i,
            forall|j: int| 0 <= j < i ==> t@[j] == j as u8,
        decreases 256 - i,
    {
        t.push(i as u8);
        i = i + 1;
    }
    proof {
        assert(t@ =~= mtf_init_table());
        assert forall|b: u8| mtf_init_table().contains(b) by {
            assert(mtf_init_table()[b as int] == b);
        }
    }
    t
}

/// Finds the first position of `b` in table `t`.
fn find_table_pos(t: &Vec<u8>, b: u8) -> (i: usize)
    requires
        mtf_table_wf(t@),
    ensures
        i as int == table_pos(t@, b),
        i < 256,
        t@[i as int] == b,
{
    proof {
        lemma_table_pos(t@, b);
    }
    let mut i: usize = 0;
    while t[i] != b
        invariant
            0 <= i <= table_pos(t@, b),
            t@.len() == 256,
            t@[table_pos(t@, b)] == b,
            0 <= table_pos(t@, b) < 256,
            forall|j: int| 0 <= j < table_pos(t@, b) ==> t@[j] != b,
        decreases table_pos(t@, b) - i,
    {
        i = i + 1;
    }
    i
}

/// Move-To-Front transform: emits, for each input byte, its current
/// position in a self-adjusting 256-entry symbol table that starts as
/// the identity; the emitted byte's entry then moves to position 0.
pub fn MTF(input_string: &Vec<u8>) -> (r: Vec<u8>)
    ensures
        r@ == mtf_spec(input_string@, mtf_init_table()),
{
    let mut symbol_table = build_init_table();
    let mut mtf_result: Vec<u8> = Vec::new();
    let n = input_string.len();
    let mut k: usize = 0;
    proof {
        assert(input_string@.skip(0) =~= input_string@);
        assert(Seq::<u8>::empty() + mtf_spec(input_string@, mtf_init_table()) =~= mtf_spec(
            input_string@,
            mtf_init_table(),
        ));
    }
    while k < n
        invariant
            k <= n,
            n == input_string@.len(),
            mtf_table_wf(symbol_table@),
            mtf_spec(input_string@, mtf_init_table()) == mtf_result@ + mtf_spec(
                input_string@.skip(k as int),
                symbol_table@,
            ),
            mtf_result@.len() == k,
        decreases n - k,
    {
        let ghost t = symbol_table@;
        let ghost rest = input_string@.skip(k as int);
        let ghost r0 = mtf_result@;
        let byte = input_string[k];
        let index = find_table_pos(&symbol_table, byte);
        mtf_result.push(index as u8);
        let moved = symbol_table.remove(index);
        symbol_table.insert(0, moved);
        proof {
            assert(rest[0] == byte);
            assert(symbol_table@ =~= move_to_front(t, index as int));
            lemma_move_to_front_wf(t, index as int);
            assert(rest.drop_first() =~= input_string@.skip(k as int + 1));
            assert(mtf_spec(rest, t) == seq![index as u8] + mtf_spec(
                rest.drop_first(),
                symbol_table@,
            ));
            assert(r0 + (seq![index as u8] + mtf_spec(
                input_string@.skip(k as int + 1),
                symbol_table@,
            )) =~= mtf_result@ + mtf_spec(input_string@.skip(k as int + 1), symbol_table@));
        }
        k = k + 1;
    }
    proof {
        assert(input_string@.skip(n as int) =~= Seq::<u8>::empty());
        assert(mtf_result@ + mtf_spec(Seq::<u8>::empty(), symbol_table@) =~= mtf_result@);
    }
    mtf_result
}

/// Inverse Move-To-Front: each input byte indexes the current symbol
/// table; the byte found there is emitted and moves to position 0.
pub fn inverse_MTF(mtf_string: &Vec<u8>) -> (r: Vec<u8>)
    ensures
        r@ == inverse_mtf_spec(mtf_string@, mtf_init_table()),
{
    let mut symbol_table = build_init_table();
    let mut result: Vec<u8> = Vec::new();
    let n = mtf_string.len();
    let mut k: usize = 0;
    proof {
        assert(mtf_string@.skip(0) =~= mtf_string@);
        assert(Seq::<u8>::empty() + inverse_mtf_spec(mtf_string@, mtf_init_table())
            =~= inverse_mtf_spec(mtf_string@, mtf_init_table()));
    }
    while k < n
        invariant
            k <= n,
            n == mtf_string@.len(),
            mtf_table_wf(symbol_table@),
            inverse_mtf_spec(mtf_string@, mtf_init_table()) == result@ + inverse_mtf_spec(
                mtf_string@.skip(k as int),
                symbol_table@,
            ),
        decreases n - k,
    {
        let ghost t = symbol_table@;
        let ghost rest = mtf_string@.skip(k as int);
        let ghost r0 = result@;
        let index = mtf_string[k];
        let byte = symbol_table.remove(index as usize);
        result.push(byte);
        symbol_table.insert(0, byte);
        proof {
            assert(rest[0] == index);
            assert(byte == t[index as int]);
            assert(symbol_table@ =~= move_to_front(t, index as int));
            lemma_move_to_front_wf(t, index as int);
            assert(rest.drop_first() =~= mtf_string@.skip(k as int + 1));
            assert(inverse_mtf_spec(rest, t) == seq![byte] + inverse_mtf_spec(
                rest.drop_first(),
                symbol_table@,
            ));
            assert(r0 + (seq![byte] + inverse_mtf_spec(
                mtf_string@.skip(k as int + 1),
                symbol_table@,
            )) =~= result@ + inverse_mtf_spec(mtf_string@.skip(k as int + 1), symbol_table@));
        }
        k = k + 1;
    }
    proof {
        assert(mtf_string@.skip(n as int) =~= Seq::<u8>::empty());
        assert(result@ + inverse_mtf_spec(Seq::<u8>::empty(), symbol_table@) =~= result@);
    }
    result
}


// ---------------------------------------------------------------------
// Burrows-Wheeler Transform
// ---------------------------------------------------------------------
/// Lexicographic order on byte sequences; a proper prefix comes first.
pub open spec fn lex_leq(a: Seq<u8>, b: Seq<u8>) -> bool
    decreases a.len(),
{
    if a.len() == 0 {
        true
    } else if b.len() == 0 {
        false
    } else if a[0] < b[0] {
        true
    } else if a[0] > b[0] {
        false
    } else {
        lex_leq(a.drop_first(), b.drop_first())
    }
}

/// The lexicographic order as a relation value, for sorting.
pub open spec fn lex_cmp() -> spec_fn(Seq<u8>, Seq<u8>) -> bool {
    |a: Seq<u8>, b: Seq<u8>| lex_leq(a, b)
}

proof fn lemma_lex_refl(a: Seq<u8>)
    ensures
        lex_leq(a, a),
    decreases a.len(),
{
    if a.len() > 0 {
        lemma_lex_refl(a.drop_first());
    }
}

proof fn lemma_lex_total(a: Seq<u8>, b: Seq<u8>)
    ensures
        lex_leq(a, b) || lex_leq(b, a),
    decreases a.len(),
{
    if a.len() > 0 && b.len() > 0 && a[0] == b[0] {
        lemma_lex_total(a.drop_first(), b.drop_first());
    }
}

proof fn lemma_lex_antisym(a: Seq<u8>, b: Seq<u8>)
    requires
        lex_leq(a, b),
        lex_leq(b, a),
    ensures
        a == b,
    decreases a.len(),
{
    if a.len() == 0 {
        assert(b.len() == 0);
        assert(a =~= b);
    } else {
        assert(b.len() > 0);
        assert(a[0] == b[0]);
        assert(lex_leq(a.drop_first(), b.drop_first()));
        assert(lex_leq(b.drop_first(), a.drop_first()));
        lemma_lex_antisym(a.drop_first(), b.drop_first());
        assert(a.len() == b.len());
        assert forall|i: int| 0 <= i < a.len() implies a[i] == b[i] by {
            if i > 0 {
                assert(a.drop_first()[i - 1] == b.drop_first()[i - 1]);
            }
        }
        assert(a =~= b);
    }
}

proof fn lemma_lex_trans(a: Seq<u8>, b: Seq<u8>, c: Seq<u8>)
    requires
        lex_leq(a, b),
        lex_leq(b, c),
    ensures
        lex_leq(a, c),
    decreases a.len(),
{
    if a.len() > 0 && b.len() > 0 && c.len() > 0 && a[0] == b[0] && b[0] == c[0] {
        lemma_lex_trans(a.drop_first(), b.drop_first(), c.drop_first());
    }
}

/// The lexicographic order sorts byte sequences totally.
pub proof fn lemma_lex_total_ordering()
    ensures
        total_ordering(lex_cmp()),
{
    let r = lex_cmp();
    assert forall|x: Seq<u8>| #[trigger] r(x, x) by {
        lemma_lex_refl(x);
    }
    assert forall|x: Seq<u8>, y: Seq<u8>| #[trigger] r(x, y) && #[trigger] r(y, x) implies x
        == y by {
        lemma_lex_antisym(x, y);
    }
    assert forall|x: Seq<u8>, y: Seq<u8>, z: Seq<u8>| #[trigger] r(x, y) && #[trigger] r(
        y,
        z,
    ) implies r(x, z) by {
        lemma_lex_trans(x, y, z);
    }
    assert forall|x: Seq<u8>, y: Seq<u8>| #[trigger] r(x, y) || #[trigger] r(y, x) by {
        lemma_lex_total(x, y);
    }
}

/// Compares two byte vectors lexicographically.
fn lex_le(a: &Vec<u8>, b: &Vec<u8>) -> (r: bool)
    ensures
        r == lex_leq(a@, b@),
{
    let na = a.len();
    let nb = b.len();
    let mut i: usize = 0;
    proof {
        assert(a@.skip(0) =~= a@);
        assert(b@.skip(0) =~= b@);
    }
    while i < na && i < nb
        invariant
            i <= na,
            i <= nb,
            na == a@.len(),
            nb == b@.len(),
            lex_leq(a@, b@) == lex_leq(a@.skip(i as int), b@.skip(i as int)),
            lex_leq(b@, a@) == lex_leq(b@.skip(i as int), a@.skip(i as int)),
        decreases na - i,
    {
        let ghost sa = a@.skip(i as int);
        let ghost sb = b@.skip(i as int);
        proof {
            assert(sa[0] == a@[i as int] && sb[0] == b@[i as int]);
            assert(sa.drop_first() =~= a@.skip(i as int + 1));
            assert(sb.drop_first() =~= b@.skip(i as int + 1));
        }
        if a[i] < b[i] {
            return true;
        }
        if a[i] > b[i] {
            return false;
        }
        i = i + 1;
    }
    proof {
        assert(a@.skip(i as int).len() == na - i);
        assert(b@.skip(i as int).len() == nb - i);
    }
    i == na
}

/// Tests two byte vectors for equality.
fn bytes_eq(a: &Vec<u8>, b: &Vec<u8>) -> (r: bool)
    ensures
        r == (a@ == b@),
{
    if a.len() != b.len() {
        proof {
            assert(a@.len() != b@.len());
        }
        return false;
    }
    let n = a.len();
    let mut i: usize = 0;
    while i < n
        invariant
            i <= n,
            n == a@.len(),
            n == b@.len(),
            forall|j: int| 0 <= j < i ==> a@[j] == b@[j],
        decreases n - i,
    {
        if a[i] != b[i] {
            return false;
        }
        i = i + 1;
    }
    proof {
        assert(a@ =~= b@);
    }
    true
}

/// The `i`-th cyclic rotation of `s`.
pub open spec fn rotation(s: Seq<u8>, i: int) -> Seq<u8> {
    s.skip(i) + s.take(i)
}

/// All cyclic rotations of `s`, in order of starting offset.
pub open spec fn rotations_of(s: Seq<u8>) -> Seq<Seq<u8>> {
    Seq::new(s.len(), |i: int| rotation(s, i))
}

/// The byte sequences a vector of byte vectors holds.
pub open spec fn views(v: Seq<Vec<u8>>) -> Seq<Seq<u8>> {
    v.map_values(|x: Vec<u8>| x@)
}

/// Builds every cyclic rotation of the input, in offset order.
fn generate_shifts(input_string: &Vec<u8>) -> (r: Vec<Vec<u8>>)
    ensures
        views(r@) == rotations_of(input_string@),
{
    let n = input_string.len();
    let mut shifts: Vec<Vec<u8>> = Vec::new();
    let mut i: usize = 0;
    while i < n
        invariant
            i <= n,
            n == input_string@.len(),
            views(shifts@).len() == i,
            forall|m: int| 0 <= m < i ==> #[trigger] views(shifts@)[m] == rotation(
                input_string@,
                m,
            ),
        decreases n - i,
    {
        let mut rot: Vec<u8> = Vec::new();
        let mut j: usize = i;
        while j < n
            invariant
                i <= j <= n,
                n == input_string@.len(),
                rot@ == input_string@.subrange(i as int, j as int),
            decreases n - j,
        {
            rot.push(input_string[j]);
            proof {
                assert(rot@ =~= input_string@.subrange(i as int, j as int + 1));
            }
            j = j + 1;
        }
        let mut j2: usize = 0;
        while j2 < i
            invariant
                j2 <= i <= n,
                n == input_string@.len(),
                rot@ == input_string@.skip(i as int) + input_string@.subrange(0, j2 as int),
            decreases i - j2,
        {
            rot.push(input_string[j2]);
            proof {
                assert(rot@ =~= input_string@.skip(i as int) + input_string@.subrange(
                    0,
                    j2 as int + 1,
                ));
            }
            j2 = j2 + 1;
        }
        proof {
            assert(rot@ =~= rotation(input_string@, i as int));
        }
        let ghost sv0 = views(shifts@);
        shifts.push(rot);
        proof {
            assert(views(shifts@) =~= sv0.push(rot@));
        }
        i = i + 1;
    }
    proof {
        assert(views(shifts@) =~= rotations_of(input_string@));
    }
    shifts
}

proof fn lemma_views_remove(s: Seq<Vec<u8>>, m: int)
    requires
        0 <= m < s.len(),
    ensures
        views(s.remove(m)) == views(s).remove(m),
{
    s.remove_ensures(m);
    views(s).remove_ensures(m);
    assert(views(s.remove(m)) =~= views(s).remove(m));
}

/// Sorts byte vectors lexicographically; the result is the unique
/// sorted permutation of the input.
fn sort_shifts(v: Vec<Vec<u8>>) -> (r: Vec<Vec<u8>>)
    ensures
        views(r@) == views(v@).sort_by(lex_cmp()),
{
    broadcast use vstd::seq_lib::group_to_multiset_ensures;

    let ghost orig = views(v@);
    let mut pending = v;
    let mut out: Vec<Vec<u8>> = Vec::new();
    while pending.len() > 0
        invariant
            views(out@).to_multiset().add(views(pending@).to_multiset()) == orig.to_multiset(),
            sorted_by(views(out@), lex_cmp()),
            forall|a: int, b: int|
                0 <= a < views(out@).len() && 0 <= b < views(pending@).len() ==> lex_leq(
                    #[trigger] views(out@)[a],
                    #[trigger] views(pending@)[b],
                ),
        decreases pending.len(),
    {
        let ghost pv = views(pending@);
        let n = pending.len();
        let mut m: usize = 0;
        let mut i: usize = 1;
        proof {
            lemma_lex_refl(pv[0]);
        }
        while i < n
            invariant
                m < i <= n,
                n == pv.len(),
                pv == views(pending@),
                forall|j: int| 0 <= j < i ==> lex_leq(pv[m as int], #[trigger] pv[j]),
            decreases n - i,
        {
            let smaller = lex_le(&pending[i], &pending[m]);
            let also_ge = lex_le(&pending[m], &pending[i]);
            proof {
                assert(views(pending@)[i as int] == pending@[i as int]@);
                assert(views(pending@)[m as int] == pending@[m as int]@);
            }
            if smaller && !also_ge {
                proof {
                    assert forall|j: int| 0 <= j < i + 1 implies lex_leq(
                        pv[i as int],
                        #[trigger] pv[j],
                    ) by {
                        if j < i {
                            lemma_lex_trans(pv[i as int], pv[m as int], pv[j]);
                        } else {
                            lemma_lex_refl(pv[i as int]);
                        }
                    }
                }
                m = i;
            } else {
                proof {
                    if !smaller {
                        lemma_lex_total(pv[i as int], pv[m as int]);
                    }
                    assert(lex_leq(pv[m as int], pv[i as int]));
                }
            }
            i = i + 1;
        }
        let ghost out0 = views(out@);
        let ghost pvec0 = pending@;
        let x = pending.remove(m);
        out.push(x);
        proof {
            assert(pv[m as int] == x@);
            lemma_views_remove(pvec0, m as int);
            assert(views(out@) =~= out0.push(x@));
        }
        proof {
            broadcast use vstd::seq_lib::group_to_multiset_ensures;

            // multiset bookkeeping
            assert(views(pending@) =~= pv.remove(m as int));
            assert(pv.contains(x@)) by {
                assert(pv[m as int] == x@);
            }
            assert(pv.to_multiset().count(x@) > 0);
            assert(pv.remove(m as int).to_multiset() =~= pv.to_multiset().remove(x@));
            assert(views(out@).to_multiset() =~= out0.to_multiset().insert(x@));
            assert(views(out@).to_multiset().add(views(pending@).to_multiset()) =~= orig.to_multiset());
            // the pushed element follows everything already sorted
            assert forall|a: int, b: int|
                0 <= a < views(out@).len() && 0 <= b < views(pending@).len() implies lex_leq(
                #[trigger] views(out@)[a],
                #[trigger] views(pending@)[b],
            ) by {
                let pb = if b < m {
                    b
                } else {
                    b + 1
                };
                assert(views(pending@)[b] == pv[pb]);
                if a < out0.len() {
                    assert(lex_leq(out0[a], pv[pb]));
                } else {
                    assert(views(out@)[a] == x@);
                    assert(lex_leq(pv[m as int], pv[pb]));
                }
            }
            assert forall|a: int, b: int| 0 <= a < b < views(out@).len() implies lex_cmp()(
                views(out@)[a],
                views(out@)[b],
            ) by {
                if b < out0.len() {
                    assert(lex_cmp()(out0[a], out0[b]));
                } else {
                    assert(views(out@)[b] == x@);
                    assert(lex_leq(out0[a], pv[m as int]));
                }
            }
        }
    }
    proof {
        broadcast use vstd::seq_lib::group_to_multiset_ensures;

        assert(views(pending@) =~= Seq::<Seq<u8>>::empty());
        assert(views(pending@).to_multiset() =~= Multiset::<Seq<u8>>::empty());
        assert(views(out@).to_multiset() =~= orig.to_multiset());
        lemma_lex_total_ordering();
        orig.lemma_sort_by_ensures(lex_cmp());
        lemma_sorted_unique(views(out@), orig.sort_by(lex_cmp()), lex_cmp());
    }
    out
}


/// The rotations of `s`, sorted lexicographically.
pub open spec fn sorted_rotations(s: Seq<u8>) -> Seq<Seq<u8>> {
    rotations_of(s).sort_by(lex_cmp())
}

/// Index of the last entry of `q` before `upto` that equals `x`; 0 when
/// there is none.
pub open spec fn last_match(q: Seq<Seq<u8>>, x: Seq<u8>, upto: int) -> int
    decreases upto,
{
    if upto <= 0 {
        0
    } else if q[upto - 1] == x {
        upto - 1
    } else {
        last_match(q, x, upto - 1)
    }
}

proof fn lemma_last_match_bounds(q: Seq<Seq<u8>>, x: Seq<u8>, upto: int)
    ensures
        0 <= last_match(q, x, upto),
        upto <= 0 ==> last_match(q, x, upto) == 0,
        upto > 0 ==> last_match(q, x, upto) < upto,
    decreases upto,
{
    if upto > 0 && q[upto - 1] != x {
        lemma_last_match_bounds(q, x, upto - 1);
    }
}

proof fn lemma_sorted_rotations_len(s: Seq<u8>)
    ensures
        sorted_rotations(s).len() == s.len(),
        forall|j: int|
            0 <= j < s.len() ==> (#[trigger] sorted_rotations(s)[j]).len() == s.len(),
{
    broadcast use vstd::seq_lib::group_to_multiset_ensures;

    lemma_lex_total_ordering();
    let q = rotations_of(s);
    let sorted = sorted_rotations(s);
    q.lemma_sort_by_ensures(lex_cmp());
    assert(sorted.to_multiset().len() == q.to_multiset().len());
    assert(sorted.len() == q.len());
    assert forall|j: int| 0 <= j < s.len() implies (#[trigger] sorted[j]).len() == s.len() by {
        let x = sorted[j];
        assert(sorted.contains(x));
        assert(sorted.to_multiset().count(x) > 0);
        assert(q.to_multiset().count(x) > 0);
        assert(q.contains(x));
        let i = choose|i: int| 0 <= i < q.len() && q[i] == x;
        assert(x == rotation(s, i));
    }
}

/// The Burrows-Wheeler transform of a block: the last byte of each
/// lexicographically sorted cyclic rotation, followed by the sorted
/// position of the original block as a 16-bit little-endian index.
pub open spec fn bwt_spec(s: Seq<u8>) -> Seq<u8> {
    let sorted = sorted_rotations(s);
    Seq::new(s.len(), |j: int| sorted[j].last()) + le16_bytes(
        last_match(sorted, s, s.len() as int) as u16,
    )
}

/// Burrows-Wheeler transform of one block of at most
/// `TRANSFORM_BLOCK_SIZE` bytes.
pub fn BWT(input_string: &Vec<u8>) -> (r: Vec<u8>)
    requires
        input_string@.len() <= TRANSFORM_BLOCK_SIZE,
    ensures
        r@ == bwt_spec(input_string@),
{
    let shifts = generate_shifts(input_string);
    let sorted = sort_shifts(shifts);
    proof {
        lemma_sorted_rotations_len(input_string@);
    }
    let n = sorted.len();
    let mut bwt_result: Vec<u8> = Vec::new();
    let mut original_index: u16 = 0;
    let mut id: usize = 0;
    while id < n
        invariant
            id <= n,
            n <= TRANSFORM_BLOCK_SIZE,
            n == input_string@.len(),
            n == sorted@.len(),
            views(sorted@) == sorted_rotations(input_string@),
            forall|j: int|
                0 <= j < n ==> (#[trigger] sorted_rotations(input_string@)[j]).len() == n,
            bwt_result@.len() == id,
            forall|j: int|
                0 <= j < id ==> #[trigger] bwt_result@[j] == sorted_rotations(input_string@)[j].last(),
            original_index as int == last_match(
                sorted_rotations(input_string@),
                input_string@,
                id as int,
            ),
        decreases n - id,
    {
        let rot = &sorted[id];
        proof {
            assert(views(sorted@)[id as int] == sorted@[id as int]@);
            assert(rot@.len() == n);
        }
        let rl = rot.len();
        bwt_result.push(rot[rl - 1]);
        if bytes_eq(rot, input_string) {
            original_index = id as u16;
        }
        id = id + 1;
    }
    let b0 = (original_index % 256) as u8;
    let b1 = (original_index / 256) as u8;
    bwt_result.push(b0);
    bwt_result.push(b1);
    proof {
        let sorted_s = sorted_rotations(input_string@);
        let idx = last_match(sorted_s, input_string@, n as int);
        lemma_last_match_bounds(sorted_s, input_string@, n as int);
        assert(original_index as int == idx);
        assert(bwt_result@ =~= bwt_spec(input_string@));
    }
    bwt_result
}


/// Order on (position, byte) pairs used by the inverse transform: by
/// byte first, then by original position — a stable sort of the last
/// column by byte value.
pub open spec fn pair_leq(a: (int, u8), b: (int, u8)) -> bool {
    a.1 < b.1 || (a.1 == b.1 && a.0 <= b.0)
}

/// The pair order as a relation value, for sorting.
pub open spec fn pair_cmp() -> spec_fn((int, u8), (int, u8)) -> bool {
    |a: (int, u8), b: (int, u8)| pair_leq(a, b)
}

/// The pair order sorts pairs totally.
pub proof fn lemma_pair_total_ordering()
    ensures
        total_ordering(pair_cmp()),
{
    let r = pair_cmp();
    assert forall|x: (int, u8), y: (int, u8)| #[trigger] r(x, y) && #[trigger] r(y, x) implies x
        == y by {
        assert(x.0 == y.0 && x.1 == y.1);
    }
}

/// The last column, paired with original positions.
pub open spec fn enum_pairs(l: Seq<u8>) -> Seq<(int, u8)> {
    Seq::new(l.len(), |i: int| (i, l[i]))
}

/// The position table of the inverse transform: original positions of
/// the last column, stably sorted by byte.
pub open spec fn ibwt_table(l: Seq<u8>) -> Seq<int> {
    enum_pairs(l).sort_by(pair_cmp()).map_values(|p: (int, u8)| p.0)
}

/// Following the position table `k` times from `pos`, emitting the last
/// column's byte at each visited position.
pub open spec fn ibwt_walk(l: Seq<u8>, table: Seq<int>, pos: int, k: int) -> Seq<u8>
    decreases k,
{
    if k <= 0 {
        Seq::empty()
    } else {
        let p = table[pos];
        seq![l[p]] + ibwt_walk(l, table, p, k - 1)
    }
}

/// The inverse Burrows-Wheeler transform of a frame: the last column is
/// everything but the final two bytes, which hold the start index.
pub open spec fn inverse_bwt_spec(s: Seq<u8>) -> Seq<u8> {
    let length = s.len() - 2;
    let l = s.take(length as int);
    let pos0 = le16_val(s[length as int], s[length as int + 1]);
    ibwt_walk(l, ibwt_table(l), pos0 as int, length as int)
}

/// Whether a byte sequence is a well-formed transformed frame: at least
/// the two index bytes, at most a whole frame, and an index within the
/// column (when the column is not empty).
pub open spec fn bwt_frame_wf(s: Seq<u8>) -> bool {
    &&& 2 <= s.len() <= BWT_RESULT_SIZE
    &&& (s.len() > 2 ==> le16_val(s[s.len() - 2], s[s.len() - 1]) < s.len() - 2)
}

/// The integer pairs a vector of (position, byte) pairs holds.
pub open spec fn pair_views(v: Seq<(usize, u8)>) -> Seq<(int, u8)> {
    v.map_values(|p: (usize, u8)| (p.0 as int, p.1))
}

/// Compares two pairs: byte first, then position.
fn pair_le(a: (usize, u8), b: (usize, u8)) -> (r: bool)
    ensures
        r == pair_leq((a.0 as int, a.1), (b.0 as int, b.1)),
{
    a.1 < b.1 || (a.1 == b.1 && a.0 <= b.0)
}

proof fn lemma_pair_views_remove(s: Seq<(usize, u8)>, m: int)
    requires
        0 <= m < s.len(),
    ensures
        pair_views(s.remove(m)) == pair_views(s).remove(m),
{
    s.remove_ensures(m);
    pair_views(s).remove_ensures(m);
    assert(pair_views(s.remove(m)) =~= pair_views(s).remove(m));
}

/// Sorts (position, byte) pairs by byte, keeping position order among
/// equal bytes; the result is the unique sorted permutation.
fn sort_pairs(v: Vec<(usize, u8)>) -> (r: Vec<(usize, u8)>)
    ensures
        pair_views(r@) == pair_views(v@).sort_by(pair_cmp()),
{
    let ghost orig = pair_views(v@);
    let mut pending = v;
    let mut out: Vec<(usize, u8)> = Vec::new();
    proof {
        broadcast use vstd::seq_lib::group_to_multiset_ensures;

        assert(pair_views(out@) =~= Seq::<(int, u8)>::empty());
        assert(pair_views(out@).to_multiset() =~= Multiset::<(int, u8)>::empty());
        assert(pair_views(out@).to_multiset().add(pair_views(pending@).to_multiset())
            =~= pair_views(pending@).to_multiset());
    }
    while pending.len() > 0
        invariant
            pair_views(out@).to_multiset().add(pair_views(pending@).to_multiset())
                == orig.to_multiset(),
            sorted_by(pair_views(out@), pair_cmp()),
            forall|a: int, b: int|
                0 <= a < pair_views(out@).len() && 0 <= b < pair_views(pending@).len()
                    ==> pair_leq(
                    #[trigger] pair_views(out@)[a],
                    #[trigger] pair_views(pending@)[b],
                ),
        decreases pending.len(),
    {
        let ghost pv = pair_views(pending@);
        let n = pending.len();
        let mut m: usize = 0;
        let mut i: usize = 1;
        while i < n
            invariant
                m < i <= n,
                n == pv.len(),
                pv == pair_views(pending@),
                forall|j: int| 0 <= j < i ==> pair_leq(pv[m as int], #[trigger] pv[j]),
            decreases n - i,
        {
            let smaller = pair_le(pending[i], pending[m]);
            let also_ge = pair_le(pending[m], pending[i]);
            proof {
                assert(pair_views(pending@)[i as int] == (pending@[i as int].0 as int, pending@[i as int].1));
                assert(pair_views(pending@)[m as int] == (pending@[m as int].0 as int, pending@[m as int].1));
            }
            if smaller && !also_ge {
                m = i;
            }
            i = i + 1;
        }
        let ghost out0 = pair_views(out@);
        let ghost pvec0 = pending@;
        let x = pending.remove(m);
        out.push(x);
        proof {
            broadcast use vstd::seq_lib::group_to_multiset_ensures;

            let xv = (x.0 as int, x.1);
            assert(pv[m as int] == xv);
            lemma_pair_views_remove(pvec0, m as int);
            assert(pair_views(out@) =~= out0.push(xv));
            assert(pair_views(pending@) =~= pv.remove(m as int));
            assert(pv.contains(xv)) by {
                assert(pv[m as int] == xv);
            }
            assert(pv.to_multiset().count(xv) > 0);
            assert(pv.remove(m as int).to_multiset() =~= pv.to_multiset().remove(xv));
            assert(pair_views(out@).to_multiset() =~= out0.to_multiset().insert(xv));
            assert(pair_views(out@).to_multiset().add(pair_views(pending@).to_multiset())
                =~= orig.to_multiset());
            assert forall|a: int, b: int|
                0 <= a < pair_views(out@).len() && 0 <= b < pair_views(pending@).len()
                    implies pair_leq(
                #[trigger] pair_views(out@)[a],
                #[trigger] pair_views(pending@)[b],
            ) by {
                let pb = if b < m {
                    b
                } else {
                    b + 1
                };
                assert(pair_views(pending@)[b] == pv[pb]);
                if a < out0.len() {
                    assert(pair_leq(out0[a], pv[pb]));
                } else {
                    assert(pair_views(out@)[a] == xv);
                    assert(pair_leq(pv[m as int], pv[pb]));
                }
            }
            assert forall|a: int, b: int| 0 <= a < b < pair_views(out@).len() implies pair_cmp()(
                pair_views(out@)[a],
                pair_views(out@)[b],
            ) by {
                if b < out0.len() {
                    assert(pair_cmp()(out0[a], out0[b]));
                } else {
                    assert(pair_views(out@)[b] == xv);
                    assert(pair_leq(out0[a], pv[m as int]));
                }
            }
        }
    }
    proof {
        broadcast use vstd::seq_lib::group_to_multiset_ensures;

        assert(pair_views(pending@) =~= Seq::<(int, u8)>::empty());
        assert(pair_views(pending@).to_multiset() =~= Multiset::<(int, u8)>::empty());
        assert(pair_views(out@).to_multiset() =~= orig.to_multiset());
        lemma_pair_total_ordering();
        orig.lemma_sort_by_ensures(pair_cmp());
        lemma_sorted_unique(pair_views(out@), orig.sort_by(pair_cmp()), pair_cmp());
    }
    out
}

proof fn lemma_ibwt_table_entries(l: Seq<u8>)
    ensures
        ibwt_table(l).len() == l.len(),
        forall|j: int| 0 <= j < l.len() ==> 0 <= #[trigger] ibwt_table(l)[j] < l.len(),
{
    broadcast use vstd::seq_lib::group_to_multiset_ensures;

    lemma_pair_total_ordering();
    let q = enum_pairs(l);
    let sorted = q.sort_by(pair_cmp());
    q.lemma_sort_by_ensures(pair_cmp());
    assert(sorted.to_multiset().len() == q.to_multiset().len());
    assert(sorted.len() == q.len());
    assert forall|j: int| 0 <= j < l.len() implies 0 <= #[trigger] ibwt_table(l)[j] < l.len() by {
        let x = sorted[j];
        assert(sorted.contains(x));
        assert(sorted.to_multiset().count(x) > 0);
        assert(q.to_multiset().count(x) > 0);
        assert(q.contains(x));
        let i = choose|i: int| 0 <= i < q.len() && q[i] == x;
        assert(x == (i, l[i]));
        assert(ibwt_table(l)[j] == x.0);
    }
}

/// Inverse Burrows-Wheeler transform of one frame: pairs each byte of
/// the last column with its position, sorts stably by byte, then walks
/// the resulting position table from the stored start index.
pub fn inverse_BWT(bwt_string: &Vec<u8>) -> (r: Vec<u8>)
    requires
        bwt_frame_wf(bwt_string@),
    ensures
        r@ == inverse_bwt_spec(bwt_string@),
{
    let total = bwt_string.len();
    let length = total - 2;
    let b0 = bwt_string[length];
    let b1 = bwt_string[length + 1];
    let pos_start: u16 = (b0 as u16) + 256 * (b1 as u16);
    proof {
        assert(pos_start == le16_val(bwt_string@[length as int], bwt_string@[length as int + 1]));
    }
    let ghost l = bwt_string@.take(length as int);
    let mut pairs: Vec<(usize, u8)> = Vec::new();
    let mut i: usize = 0;
    while i < length
        invariant
            i <= length,
            length + 2 == bwt_string@.len(),
            l == bwt_string@.take(length as int),
            pair_views(pairs@).len() == i,
            forall|j: int| 0 <= j < i ==> #[trigger] pair_views(pairs@)[j] == (j, l[j]),
        decreases length - i,
    {
        let ghost pq0 = pair_views(pairs@);
        pairs.push((i, bwt_string[i]));
        proof {
            assert(pair_views(pairs@) =~= pq0.push((i as int, l[i as int])));
        }
        i = i + 1;
    }
    proof {
        assert(pair_views(pairs@) =~= enum_pairs(l));
    }
    let sorted = sort_pairs(pairs);
    proof {
        lemma_ibwt_table_entries(l);
    }
    let mut table: Vec<usize> = Vec::new();
    let mut i2: usize = 0;
    while i2 < sorted.len()
        invariant
            i2 <= sorted@.len(),
            pair_views(sorted@) == enum_pairs(l).sort_by(pair_cmp()),
            sorted@.len() == l.len(),
            table@.len() == i2,
            forall|j: int| 0 <= j < i2 ==> #[trigger] table@[j] as int == ibwt_table(l)[j],
        decreases sorted@.len() - i2,
    {
        let p = sorted[i2];
        table.push(p.0);
        proof {
            assert(pair_views(sorted@)[i2 as int] == (p.0 as int, p.1));
            assert(ibwt_table(l)[i2 as int] == pair_views(sorted@)[i2 as int].0);
        }
        i2 = i2 + 1;
    }
    let ghost tbl = ibwt_table(l);
    let mut result: Vec<u8> = Vec::new();
    let mut pos: usize = pos_start as usize;
    let mut k: usize = 0;
    while k < length
        invariant
            k <= length,
            length == l.len(),
            length + 2 == bwt_string@.len(),
            l == bwt_string@.take(length as int),
            tbl == ibwt_table(l),
            table@.len() == length,
            forall|j: int| 0 <= j < length ==> #[trigger] table@[j] as int == tbl[j],
            forall|j: int| 0 <= j < length ==> 0 <= #[trigger] tbl[j] < length,
            k < length ==> pos < length,
            ibwt_walk(l, tbl, pos_start as int, length as int) == result@ + ibwt_walk(
                l,
                tbl,
                pos as int,
                (length - k) as int,
            ),
        decreases length - k,
    {
        pos = table[pos];
        proof {
            assert(l[pos as int] == bwt_string@[pos as int]);
        }
        result.push(bwt_string[pos]);
        proof {
            assert(result@.drop_last() + (seq![l[pos as int]] + ibwt_walk(
                l,
                tbl,
                pos as int,
                (length - k) as int - 1,
            )) =~= result@ + ibwt_walk(l, tbl, pos as int, (length - k) as int - 1));
        }
        k = k + 1;
    }
    proof {
        assert(ibwt_walk(l, tbl, pos as int, 0) =~= Seq::<u8>::empty());
        assert(result@ + Seq::<u8>::empty() =~= result@);
        assert(result@ == inverse_bwt_spec(bwt_string@));
    }
    result
}


proof fn lemma_mtf_len(s: Seq<u8>, t: Seq<u8>)
    ensures
        mtf_spec(s, t).len() == s.len(),
    decreases s.len(),
{
    if s.len() > 0 {
        lemma_mtf_len(s.drop_first(), move_to_front(t, table_pos(t, s[0])));
    }
}

proof fn lemma_inverse_mtf_len(s: Seq<u8>, t: Seq<u8>)
    ensures
        inverse_mtf_spec(s, t).len() == s.len(),
    decreases s.len(),
{
    if s.len() > 0 {
        lemma_inverse_mtf_len(s.drop_first(), move_to_front(t, s[0] as int));
    }
}

/// One block through BWT and then MTF, index bytes included.
pub open spec fn bwt_mtf_spec(s: Seq<u8>) -> Seq<u8> {
    mtf_spec(bwt_spec(s), mtf_init_table())
}

/// One block through inverse MTF and then inverse BWT.
pub open spec fn inverse_mtf_bwt_spec(s: Seq<u8>) -> Seq<u8> {
    inverse_bwt_spec(inverse_mtf_spec(s, mtf_init_table()))
}

/// Applies BWT and then MTF to one block (the 16-bit index bytes run
/// through MTF as well).
pub fn perform_BWT_MTF(input_string: &Vec<u8>) -> (r: Vec<u8>)
    requires
        input_string@.len() <= TRANSFORM_BLOCK_SIZE,
    ensures
        r@ == bwt_mtf_spec(input_string@),
{
    let bwt_result = BWT(input_string);
    let mtf_result = MTF(&bwt_result);
    mtf_result
}

/// Inverts `perform_BWT_MTF`: inverse MTF first, then inverse BWT.
pub fn perform_inverse_MTF_BWT(mtf_string: &Vec<u8>) -> (r: Vec<u8>)
    requires
        bwt_frame_wf(inverse_mtf_spec(mtf_string@, mtf_init_table())),
    ensures
        r@ == inverse_mtf_bwt_spec(mtf_string@),
{
    let inverse_mtf_result = inverse_MTF(mtf_string);
    let inverse_bwt_result = inverse_BWT(&inverse_mtf_result);
    inverse_bwt_result
}

/// One block under the chosen transform: 0 = none, 1 = BWT then MTF,
/// 2 = BWT only, 3 = MTF only.
pub open spec fn transform_spec(s: Seq<u8>, transform_id: u8) -> Seq<u8> {
    if transform_id == 1 {
        bwt_mtf_spec(s)
    } else if transform_id == 2 {
        bwt_spec(s)
    } else if transform_id == 3 {
        mtf_spec(s, mtf_init_table())
    } else {
        s
    }
}

/// One frame under the chosen inverse transform.
pub open spec fn inverse_transform_spec(s: Seq<u8>, transform_id: u8) -> Seq<u8> {
    if transform_id == 1 {
        inverse_mtf_bwt_spec(s)
    } else if transform_id == 2 {
        inverse_bwt_spec(s)
    } else if transform_id == 3 {
        inverse_mtf_spec(s, mtf_init_table())
    } else {
        s
    }
}

/// Whether one frame can be inverted under the chosen transform.
pub open spec fn frame_ok(s: Seq<u8>, transform_id: u8) -> bool {
    if transform_id == 1 {
        bwt_frame_wf(inverse_mtf_spec(s, mtf_init_table()))
    } else if transform_id == 2 {
        bwt_frame_wf(s)
    } else {
        true
    }
}

/// Transforms one block with the selected transform.
pub fn perform_transform(input_string: &Vec<u8>, transform_id: u8) -> (r: Vec<u8>)
    requires
        transform_id <= 3,
        transform_id == 1 || transform_id == 2 ==> input_string@.len() <= TRANSFORM_BLOCK_SIZE,
    ensures
        r@ == transform_spec(input_string@, transform_id),
{
    if transform_id == 1 {
        perform_BWT_MTF(input_string)
    } else if transform_id == 2 {
        BWT(input_string)
    } else if transform_id == 3 {
        MTF(input_string)
    } else {
        let mut copy: Vec<u8> = Vec::new();
        let mut i: usize = 0;
        let n = input_string.len();
        while i < n
            invariant
                i <= n,
                n == input_string@.len(),
                copy@ == input_string@.take(i as int),
            decreases n - i,
        {
            copy.push(input_string[i]);
            proof {
                assert(copy@ =~= input_string@.take(i as int + 1));
            }
            i = i + 1;
        }
        proof {
            assert(copy@ =~= input_string@);
        }
        copy
    }
}

/// Inverts one frame with the selected transform.
pub fn perform_inverse_transform(input_string: &Vec<u8>, transform_id: u8) -> (r: Vec<u8>)
    requires
        transform_id <= 3,
        frame_ok(input_string@, transform_id),
    ensures
        r@ == inverse_transform_spec(input_string@, transform_id),
{
    if transform_id == 1 {
        perform_inverse_MTF_BWT(input_string)
    } else if transform_id == 2 {
        inverse_BWT(input_string)
    } else if transform_id == 3 {
        inverse_MTF(input_string)
    } else {
        let mut copy: Vec<u8> = Vec::new();
        let mut i: usize = 0;
        let n = input_string.len();
        while i < n
            invariant
                i <= n,
                n == input_string@.len(),
                copy@ == input_string@.take(i as int),
            decreases n - i,
        {
            copy.push(input_string[i]);
            proof {
                assert(copy@ =~= input_string@.take(i as int + 1));
            }
            i = i + 1;
        }
        proof {
            assert(copy@ =~= input_string@);
        }
        copy
    }
}


/// Copies `v[start..end]` into a fresh vector.
fn copy_range(v: &Vec<u8>, start: usize, end: usize) -> (r: Vec<u8>)
    requires
        start <= end <= v@.len(),
    ensures
        r@ == v@.subrange(start as int, end as int),
{
    let mut r: Vec<u8> = Vec::new();
    let mut i: usize = start;
    while i < end
        invariant
            start <= i <= end <= v@.len(),
            r@ == v@.subrange(start as int, i as int),
        decreases end - i,
    {
        r.push(v[i]);
        proof {
            assert(r@ =~= v@.subrange(start as int, i as int + 1));
        }
        i = i + 1;
    }
    r
}

/// A whole byte sequence transformed block by block: full blocks of
/// `TRANSFORM_BLOCK_SIZE` bytes, and a final short block at its actual
/// length; the transformed blocks are concatenated.
pub open spec fn transform_blocks_spec(s: Seq<u8>, transform_id: u8) -> Seq<u8>
    decreases s.len(),
{
    if s.len() == 0 {
        Seq::empty()
    } else if s.len() <= TRANSFORM_BLOCK_SIZE {
        transform_spec(s, transform_id)
    } else {
        transform_spec(s.take(TRANSFORM_BLOCK_SIZE as int), transform_id)
            + transform_blocks_spec(s.skip(TRANSFORM_BLOCK_SIZE as int), transform_id)
    }
}

/// Bytes one transformed frame occupies under the chosen transform.
pub open spec fn frame_size(transform_id: u8) -> int {
    if transform_id == 1 || transform_id == 2 {
        BWT_RESULT_SIZE as int
    } else {
        TRANSFORM_BLOCK_SIZE as int
    }
}

/// Whether every frame of a transformed byte sequence can be inverted.
pub open spec fn inverse_blocks_wf(s: Seq<u8>, transform_id: u8) -> bool
    decreases s.len(),
{
    if s.len() == 0 {
        true
    } else if s.len() <= frame_size(transform_id) {
        frame_ok(s, transform_id)
    } else {
        frame_ok(s.take(frame_size(transform_id)), transform_id) && inverse_blocks_wf(
            s.skip(frame_size(transform_id)),
            transform_id,
        )
    }
}

/// A whole transformed byte sequence inverted frame by frame; the final
/// frame may be short and is inverted at its actual length.
pub open spec fn inverse_blocks_spec(s: Seq<u8>, transform_id: u8) -> Seq<u8>
    decreases s.len(),
{
    if s.len() == 0 {
        Seq::empty()
    } else if s.len() <= frame_size(transform_id) {
        inverse_transform_spec(s, transform_id)
    } else {
        inverse_transform_spec(s.take(frame_size(transform_id)), transform_id)
            + inverse_blocks_spec(s.skip(frame_size(transform_id)), transform_id)
    }
}

/// Transforms a whole byte sequence in `TRANSFORM_BLOCK_SIZE`-byte
/// blocks, the final short block at its actual length.
pub fn transform_blocks(input: &Vec<u8>, transform_id: u8) -> (r: Vec<u8>)
    requires
        transform_id <= 3,
    ensures
        r@ == transform_blocks_spec(input@, transform_id),
{
    let n = input.len();
    let mut out: Vec<u8> = Vec::new();
    let mut start: usize = 0;
    proof {
        assert(input@.skip(0) =~= input@);
        assert(Seq::<u8>::empty() + transform_blocks_spec(input@, transform_id)
            =~= transform_blocks_spec(input@, transform_id));
    }
    while start < n
        invariant
            start <= n,
            n == input@.len(),
            transform_id <= 3,
            transform_blocks_spec(input@, transform_id) == out@ + transform_blocks_spec(
                input@.skip(start as int),
                transform_id,
            ),
        decreases n - start,
    {
        let ghost rest = input@.skip(start as int);
        let ghost out0 = out@;
        let chunk_len = if n - start > TRANSFORM_BLOCK_SIZE {
            TRANSFORM_BLOCK_SIZE
        } else {
            n - start
        };
        let block = copy_range(input, start, start + chunk_len);
        let mut result = perform_transform(&block, transform_id);
        proof {
            if rest.len() > TRANSFORM_BLOCK_SIZE {
                assert(block@ =~= rest.take(TRANSFORM_BLOCK_SIZE as int));
            } else {
                assert(block@ =~= rest);
                assert(input@.skip(start as int + chunk_len as int) =~= Seq::<u8>::empty());
                assert(transform_blocks_spec(rest, transform_id) == transform_spec(
                    block@,
                    transform_id,
                ));
            }
            assert(rest.skip(chunk_len as int) =~= input@.skip(start as int + chunk_len as int));
        }
        out.append(&mut result);
        proof {
            assert(out@ == out0 + transform_spec(block@, transform_id));
            assert(out@ + transform_blocks_spec(
                input@.skip(start as int + chunk_len as int),
                transform_id,
            ) =~= out0 + transform_blocks_spec(rest, transform_id));
        }
        start = start + chunk_len;
    }
    proof {
        assert(input@.skip(n as int) =~= Seq::<u8>::empty());
        assert(out@ + Seq::<u8>::empty() =~= out@);
    }
    out
}

/// Inverts a transformed byte sequence frame by frame; a frame that no
/// encoder of this library produces yields `CodecError::CorruptedInput`.
pub fn inverse_transform_blocks(input: &Vec<u8>, transform_id: u8) -> (r: Result<
    Vec<u8>,
    CodecError,
>)
    requires
        transform_id <= 3,
    ensures
        inverse_blocks_wf(input@, transform_id) ==> r is Ok && r->Ok_0@ == inverse_blocks_spec(
            input@,
            transform_id,
        ),
        !inverse_blocks_wf(input@, transform_id) ==> r == Err::<Vec<u8>, CodecError>(
            CodecError::CorruptedInput,
        ),
{
    let n = input.len();
    let fs: usize = if transform_id == 1 || transform_id == 2 {
        BWT_RESULT_SIZE
    } else {
        TRANSFORM_BLOCK_SIZE
    };
    let mut out: Vec<u8> = Vec::new();
    let mut start: usize = 0;
    proof {
        assert(input@.skip(0) =~= input@);
        assert(Seq::<u8>::empty() + inverse_blocks_spec(input@, transform_id)
            =~= inverse_blocks_spec(input@, transform_id));
    }
    while start < n
        invariant
            start <= n,
            n == input@.len(),
            transform_id <= 3,
            fs as int == frame_size(transform_id),
            inverse_blocks_wf(input@, transform_id) == inverse_blocks_wf(
                input@.skip(start as int),
                transform_id,
            ),
            inverse_blocks_wf(input@, transform_id) ==> inverse_blocks_spec(input@, transform_id)
                == out@ + inverse_blocks_spec(input@.skip(start as int), transform_id),
        decreases n - start,
    {
        let ghost rest = input@.skip(start as int);
        let ghost out0 = out@;
        let chunk_len = if n - start > fs {
            fs
        } else {
            n - start
        };
        let frame = copy_range(input, start, start + chunk_len);
        proof {
            if rest.len() > fs {
                assert(frame@ =~= rest.take(fs as int));
            } else {
                assert(frame@ =~= rest);
                assert(rest.take(chunk_len as int) =~= rest);
                assert(input@.skip(start as int + chunk_len as int) =~= Seq::<u8>::empty());
            }
            assert(frame@ == rest.take(chunk_len as int));
            assert(rest.skip(chunk_len as int) =~= input@.skip(start as int + chunk_len as int));
        }
        let mut result: Vec<u8>;
        if transform_id == 1 || transform_id == 2 {
            // a frame holding BWT output must carry a usable index
            let col = if transform_id == 1 {
                inverse_MTF(&frame)
            } else {
                frame
            };
            let cl = col.len();
            if cl < 2 || cl > BWT_RESULT_SIZE {
                proof {
                    assert(!frame_ok(rest.take(chunk_len as int), transform_id));
                    assert(!inverse_blocks_wf(rest, transform_id));
                }
                return Err(CodecError::CorruptedInput);
            }
            if cl > 2 {
                let b0 = col[cl - 2];
                let b1 = col[cl - 1];
                let idx: u16 = (b0 as u16) + 256 * (b1 as u16);
                if idx as usize >= cl - 2 {
                    proof {
                        assert(!frame_ok(rest.take(chunk_len as int), transform_id));
                        assert(!inverse_blocks_wf(rest, transform_id));
                    }
                    return Err(CodecError::CorruptedInput);
                }
            }
            proof {
                assert(bwt_frame_wf(col@));
                assert(frame_ok(rest.take(chunk_len as int), transform_id));
            }
            result = inverse_BWT(&col);
            proof {
                assert(result@ == inverse_transform_spec(
                    rest.take(chunk_len as int),
                    transform_id,
                ));
            }
        } else {
            result = perform_inverse_transform(&frame, transform_id);
        }
        out.append(&mut result);
        proof {
            assert(out@ == out0 + inverse_transform_spec(rest.take(chunk_len as int), transform_id));
            if rest.len() <= fs {
                assert(rest.take(chunk_len as int) =~= rest);
            }
            if inverse_blocks_wf(input@, transform_id) {
                assert(out@ + inverse_blocks_spec(
                    input@.skip(start as int + chunk_len as int),
                    transform_id,
                ) =~= out0 + inverse_blocks_spec(rest, transform_id));
            }
        }
        start = start + chunk_len;
    }
    proof {
        assert(input@.skip(n as int) =~= Seq::<u8>::empty());
        assert(out@ + Seq::<u8>::empty() =~= out@);
    }
    Ok(out)
}


// ---------------------------------------------------------------------
// Inversion of the Burrows-Wheeler transform
// ---------------------------------------------------------------------
proof fn lemma_map_multiset<A, B>(a: Seq<A>, b: Seq<A>, f: spec_fn(A) -> B)
    requires
        a.to_multiset() == b.to_multiset(),
    ensures
        a.map_values(f).to_multiset() == b.map_values(f).to_multiset(),
    decreases a.len(),
{
    broadcast use vstd::seq_lib::group_to_multiset_ensures;

    if a.len() == 0 {
        assert(b.to_multiset().len() == 0);
        assert(b.len() == 0);
        assert(a.map_values(f) =~= b.map_values(f));
    } else {
        let x = a[0];
        assert(a.to_multiset().count(x) > 0) by {
            assert(a.contains(x));
        }
        assert(b.to_multiset().count(x) > 0);
        assert(b.contains(x));
        let i = choose|i: int| 0 <= i < b.len() && b[i] == x;
        assert(a.remove(0).to_multiset() =~= a.to_multiset().remove(x)) by {
            assert(a.remove(0).to_multiset() =~= a.to_multiset().remove(a[0]));
        }
        assert(b.remove(i).to_multiset() =~= b.to_multiset().remove(x)) by {
            assert(b.remove(i).to_multiset() =~= b.to_multiset().remove(b[i]));
        }
        lemma_map_multiset(a.remove(0), b.remove(i), f);
        assert(a.map_values(f).remove(0) =~= a.remove(0).map_values(f)) by {
            a.remove_ensures(0);
            a.map_values(f).remove_ensures(0);
        }
        assert(b.map_values(f).remove(i) =~= b.remove(i).map_values(f)) by {
            b.remove_ensures(i);
            b.map_values(f).remove_ensures(i);
        }
        assert(a.map_values(f).to_multiset() =~= a.map_values(f).remove(0).to_multiset().insert(
            f(x),
        )) by {
            assert(a.map_values(f).remove(0).to_multiset() =~= a.map_values(
                f,
            ).to_multiset().remove(a.map_values(f)[0]));
            assert(a.map_values(f)[0] == f(x));
            assert(a.map_values(f).to_multiset().count(f(x)) > 0) by {
                assert(a.map_values(f).contains(f(x)));
            }
        }
        assert(b.map_values(f).to_multiset() =~= b.map_values(f).remove(i).to_multiset().insert(
            f(x),
        )) by {
            assert(b.map_values(f).remove(i).to_multiset() =~= b.map_values(
                f,
            ).to_multiset().remove(b.map_values(f)[i]));
            assert(b.map_values(f)[i] == f(x));
            assert(b.map_values(f).to_multiset().count(f(x)) > 0) by {
                assert(b.map_values(f).contains(f(x)));
            }
        }
        assert(a.map_values(f).to_multiset() =~= b.map_values(f).to_multiset());
    }
}

proof fn lemma_lex_heads(a: Seq<u8>, b: Seq<u8>)
    requires
        a.len() > 0,
        b.len() > 0,
    ensures
        lex_leq(a, b) ==> a[0] <= b[0],
        a[0] < b[0] ==> lex_leq(a, b),
{
}

proof fn lemma_lex_take(a: Seq<u8>, b: Seq<u8>, m: int)
    requires
        lex_leq(a, b),
        0 <= m <= a.len(),
        m <= b.len(),
    ensures
        lex_leq(a.take(m), b.take(m)),
    decreases m,
{
    if m == 0 {
        assert(a.take(0) =~= Seq::<u8>::empty());
    } else {
        assert(a.len() > 0 && b.len() > 0);
        if a[0] < b[0] {
            assert(a.take(m)[0] == a[0] && b.take(m)[0] == b[0]);
            lemma_lex_heads(a.take(m), b.take(m));
        } else {
            assert(a[0] == b[0]);
            lemma_lex_take(a.drop_first(), b.drop_first(), m - 1);
            assert(a.take(m).len() == m && b.take(m).len() == m);
            assert(a.take(m)[0] == b.take(m)[0]);
            assert(a.take(m).drop_first() =~= a.drop_first().take(m - 1));
            assert(b.take(m).drop_first() =~= b.drop_first().take(m - 1));
        }
    }
}

proof fn lemma_last_match_found(q: Seq<Seq<u8>>, x: Seq<u8>, upto: int)
    requires
        exists|j: int| 0 <= j < upto && q[j] == x,
        upto <= q.len(),
    ensures
        0 <= last_match(q, x, upto) < upto,
        q[last_match(q, x, upto)] == x,
    decreases upto,
{
    if q[upto - 1] == x {
    } else {
        let j = choose|j: int| 0 <= j < upto && q[j] == x;
        assert(0 <= j < upto - 1 && q[j] == x);
        lemma_last_match_found(q, x, upto - 1);
    }
}

/// A sequence rotated one step to the right: its last byte first.
spec fn right_rot(x: Seq<u8>) -> Seq<u8> {
    seq![x.last()] + x.take(x.len() - 1)
}

proof fn lemma_right_rot_rotation(s: Seq<u8>, i: int)
    requires
        0 <= i < s.len(),
    ensures
        right_rot(rotation(s, i)) == rotation(s, if i == 0 {
            s.len() - 1
        } else {
            i - 1
        }),
{
    let n = s.len() as int;
    let r = rotation(s, i);
    assert(r.len() == n);
    if i == 0 {
        assert(r =~= s);
        assert(right_rot(s) =~= rotation(s, n - 1));
    } else {
        assert(r.last() == s[i - 1]);
        assert(right_rot(r) =~= rotation(s, i - 1));
    }
}


/// The last column of the sorted rotations.
pub open spec fn bwt_col(s: Seq<u8>) -> Seq<u8> {
    Seq::new(s.len(), |j: int| sorted_rotations(s)[j].last())
}

/// Byte order, as a relation value.
spec fn byte_cmp() -> spec_fn(u8, u8) -> bool {
    |a: u8, b: u8| a <= b
}

/// The inverse transform's position table sends each sorted rotation to
/// the rotation one step to its right: following it walks the block.
proof fn lemma_ibwt_core(s: Seq<u8>)
    requires
        s.len() > 0,
    ensures
        ibwt_table(bwt_col(s)).len() == s.len(),
        forall|k: int|
            0 <= k < s.len() ==> 0 <= #[trigger] ibwt_table(bwt_col(s))[k] < s.len(),
        forall|k: int|
            0 <= k < s.len() ==> sorted_rotations(s)[#[trigger] ibwt_table(bwt_col(s))[k]]
                == sorted_rotations(s)[k].skip(1) + seq![sorted_rotations(s)[k][0]],
{
    broadcast use vstd::seq_lib::group_to_multiset_ensures;

    let n = s.len() as int;
    let m = sorted_rotations(s);
    let r = rotations_of(s);
    let l = bwt_col(s);
    lemma_lex_total_ordering();
    r.lemma_sort_by_ensures(lex_cmp());
    lemma_sorted_rotations_len(s);
    let pairs = enum_pairs(l);
    lemma_pair_total_ordering();
    pairs.lemma_sort_by_ensures(pair_cmp());
    let sp = pairs.sort_by(pair_cmp());
    lemma_ibwt_table_entries(l);
    assert(sp.to_multiset().len() == pairs.to_multiset().len());
    assert(sp.len() == n);

    // every entry of the sorted pairs is a (position, byte) pair of the column
    assert forall|k: int| 0 <= k < n implies 0 <= (#[trigger] sp[k]).0 < n && sp[k].1 == l[sp[k].0] by {
        assert(sp.contains(sp[k]));
        assert(sp.to_multiset().count(sp[k]) > 0);
        assert(pairs.to_multiset().count(sp[k]) > 0);
        assert(pairs.contains(sp[k]));
        let i = choose|i: int| 0 <= i < pairs.len() && pairs[i] == sp[k];
        assert(pairs[i] == (i, l[i]));
    }

    // the pairs are pairwise distinct, so ties in byte order are strict in position
    assert(pairs.no_duplicates()) by {
        assert forall|i: int, j: int| 0 <= i < n && 0 <= j < n && i != j implies pairs[i]
            != pairs[j] by {
            assert(pairs[i].0 == i && pairs[j].0 == j);
        }
    }
    pairs.lemma_multiset_has_no_duplicates();
    assert(sp.no_duplicates()) by {
        assert forall|x: (int, u8)| sp.to_multiset().contains(x) implies sp.to_multiset().count(x)
            == 1 by {
            assert(pairs.to_multiset().contains(x));
        }
        sp.lemma_multiset_has_no_duplicates_conv();
    }

    // the bytes of the sorted pairs are the first column
    let firsts = |x: Seq<u8>| x[0];
    let lasts = |x: Seq<u8>| x.last();
    let snds = |p: (int, u8)| p.1;
    let sp_bytes = sp.map_values(snds);
    let f_col = Seq::new(n as nat, |k: int| m[k][0]);
    assert(sp_bytes == f_col) by {
        lemma_map_multiset(sp, pairs, snds);
        assert(pairs.map_values(snds) =~= l);
        assert(sp_bytes.to_multiset() == l.to_multiset());
        assert(f_col =~= m.map_values(firsts));
        lemma_map_multiset(m, r, firsts);
        assert(r.map_values(firsts) =~= s) by {
            assert forall|i: int| 0 <= i < n implies #[trigger] r.map_values(firsts)[i] == s[i] by {
                assert(r[i] == rotation(s, i));
                assert(rotation(s, i)[0] == s.skip(i)[0]);
            }
        }
        assert(l =~= m.map_values(lasts));
        lemma_map_multiset(m, r, lasts);
        assert(r.map_values(lasts) =~= rotation(s, n - 1)) by {
            assert forall|i: int| 0 <= i < n implies #[trigger] r.map_values(lasts)[i] == rotation(
                s,
                n - 1,
            )[i] by {
                assert(r[i] == rotation(s, i));
                if i == 0 {
                    assert(rotation(s, 0) =~= s);
                    assert(rotation(s, n - 1)[0] == s.skip(n - 1)[0]);
                } else {
                    assert(rotation(s, i).last() == s.take(i).last());
                    assert(rotation(s, n - 1)[i] == s.take(n - 1)[i - 1]);
                }
            }
        }
        assert(rotation(s, n - 1).to_multiset() == s.to_multiset()) by {
            vstd::seq_lib::lemma_multiset_commutative(s.skip(n - 1), s.take(n - 1));
            vstd::seq_lib::lemma_multiset_commutative(s.take(n - 1), s.skip(n - 1));
            assert(s.take(n - 1) + s.skip(n - 1) =~= s);
        }
        assert(s.to_multiset() == rotation(s, n - 1).to_multiset());
        assert(sp_bytes.to_multiset() == f_col.to_multiset());
        assert(vstd::relations::sorted_by(sp_bytes, byte_cmp())) by {
            assert forall|k1: int, k2: int| 0 <= k1 < k2 < n implies byte_cmp()(
                sp_bytes[k1],
                sp_bytes[k2],
            ) by {
                assert(pair_cmp()(sp[k1], sp[k2]));
            }
        }
        assert(vstd::relations::sorted_by(f_col, byte_cmp())) by {
            assert forall|k1: int, k2: int| 0 <= k1 < k2 < n implies byte_cmp()(
                f_col[k1],
                f_col[k2],
            ) by {
                assert(lex_cmp()(m[k1], m[k2]));
                lemma_lex_heads(m[k1], m[k2]);
            }
        }
        assert(vstd::relations::total_ordering(byte_cmp()));
        lemma_sorted_unique(sp_bytes, f_col, byte_cmp());
    }

    // right-rotating each row in table order rebuilds the sorted rows
    let g = |p: (int, u8)| seq![p.1] + m[p.0].take(n - 1);
    let bseq = sp.map_values(g);
    let rr = |x: Seq<u8>| right_rot(x);
    assert(bseq.to_multiset() == m.to_multiset()) by {
        lemma_map_multiset(sp, pairs, g);
        assert(pairs.map_values(g) =~= m.map_values(rr)) by {
            assert forall|j: int| 0 <= j < n implies #[trigger] pairs.map_values(g)[j]
                == m.map_values(rr)[j] by {
                assert(pairs[j] == (j, l[j]));
                assert(g(pairs[j]) == seq![l[j]] + m[j].take(n - 1));
                assert(l[j] == m[j].last());
                assert(m[j].len() == n);
                assert(right_rot(m[j]) == seq![m[j].last()] + m[j].take(n - 1));
            }
        }
        lemma_map_multiset(m, r, rr);
        let rshift = Seq::new(n as nat, |i: int| rotation(s, if i == 0 {
            n - 1
        } else {
            i - 1
        }));
        assert(r.map_values(rr) =~= rshift) by {
            assert forall|i: int| 0 <= i < n implies #[trigger] r.map_values(rr)[i]
                == rshift[i] by {
                assert(r[i] == rotation(s, i));
                lemma_right_rot_rotation(s, i);
            }
        }
        assert(rshift =~= seq![rotation(s, n - 1)] + r.drop_last());
        vstd::seq_lib::lemma_multiset_commutative(seq![rotation(s, n - 1)], r.drop_last());
        vstd::seq_lib::lemma_multiset_commutative(r.drop_last(), seq![rotation(s, n - 1)]);
        assert(r.drop_last() + seq![rotation(s, n - 1)] =~= r);
        assert(rshift.to_multiset() == r.to_multiset());
    }
    assert(vstd::relations::sorted_by(bseq, lex_cmp())) by {
        assert forall|k1: int, k2: int| 0 <= k1 < k2 < n implies lex_cmp()(
            bseq[k1],
            bseq[k2],
        ) by {
            let c1 = sp[k1].1;
            let c2 = sp[k2].1;
            let j1 = sp[k1].0;
            let j2 = sp[k2].0;
            assert(bseq[k1] == seq![c1] + m[j1].take(n - 1));
            assert(bseq[k2] == seq![c2] + m[j2].take(n - 1));
            assert(pair_cmp()(sp[k1], sp[k2]));
            if c1 < c2 {
                lemma_lex_heads(bseq[k1], bseq[k2]);
            } else {
                assert(c1 == c2);
                assert(sp[k1] != sp[k2]) by {
                    if sp[k1] == sp[k2] {
                        assert(!sp.no_duplicates());
                    }
                }
                assert(j1 < j2);
                assert(lex_cmp()(m[j1], m[j2]));
                lemma_lex_take(m[j1], m[j2], n - 1);
                assert(bseq[k1][0] == bseq[k2][0]);
                assert(bseq[k1].drop_first() =~= m[j1].take(n - 1));
                assert(bseq[k2].drop_first() =~= m[j2].take(n - 1));
            }
        }
    }
    lemma_sorted_unique(bseq, m, lex_cmp());
    assert(bseq == m);

    // read the matching off row by row
    assert forall|k: int| 0 <= k < n implies sorted_rotations(s)[#[trigger] ibwt_table(
        bwt_col(s),
    )[k]] == sorted_rotations(s)[k].skip(1) + seq![sorted_rotations(s)[k][0]] by {
        let jk = sp[k].0;
        assert(ibwt_table(l)[k] == jk);
        assert(m[k] == bseq[k]);
        assert(bseq[k] == seq![sp[k].1] + m[jk].take(n - 1));
        assert(m[k][0] == sp[k].1);
        assert(m[k].skip(1) =~= m[jk].take(n - 1));
        assert(sp[k].1 == l[jk]);
        assert(l[jk] == m[jk].last());
        assert(m[jk] =~= m[jk].take(n - 1) + seq![m[jk].last()]);
        assert(m[jk] =~= m[k].skip(1) + seq![m[k][0]]);
    }
}


proof fn lemma_ibwt_walk_emits(s: Seq<u8>, t: int, pos: int)
    requires
        s.len() > 0,
        0 <= t < s.len(),
        0 <= pos < s.len(),
        sorted_rotations(s)[pos] == rotation(s, t),
    ensures
        ibwt_walk(bwt_col(s), ibwt_table(bwt_col(s)), pos, s.len() - t) == s.skip(t),
    decreases s.len() - t,
{
    let n = s.len() as int;
    let m = sorted_rotations(s);
    let l = bwt_col(s);
    let tbl = ibwt_table(l);
    lemma_ibwt_core(s);
    lemma_sorted_rotations_len(s);
    let p = tbl[pos];
    assert(m[p] == m[pos].skip(1) + seq![m[pos][0]]);
    assert(rotation(s, t)[0] == s.skip(t)[0]);
    assert(m[p] =~= (if t + 1 < n {
        rotation(s, t + 1)
    } else {
        rotation(s, 0)
    }));
    assert(l[p] == m[p].last());
    assert(m[p].last() == s[t]) by {
        if t + 1 < n {
            assert(rotation(s, t + 1).last() == s.take(t + 1).last());
        } else {
            assert(rotation(s, 0) =~= s);
        }
    }
    assert(ibwt_walk(l, tbl, pos, n - t) == seq![s[t]] + ibwt_walk(l, tbl, p, n - t - 1));
    if t + 1 < n {
        lemma_ibwt_walk_emits(s, t + 1, p);
        assert(seq![s[t]] + s.skip(t + 1) =~= s.skip(t));
    } else {
        assert(ibwt_walk(l, tbl, p, 0) =~= Seq::<u8>::empty());
        assert(seq![s[t]] + Seq::<u8>::empty() =~= s.skip(n - 1));
    }
}

/// Law: the inverse Burrows-Wheeler transform undoes the forward
/// transform on every block of at most `TRANSFORM_BLOCK_SIZE` bytes.
pub proof fn lemma_bwt_involution(s: Seq<u8>)
    requires
        s.len() <= TRANSFORM_BLOCK_SIZE,
    ensures
        inverse_bwt_spec(bwt_spec(s)) == s,
        bwt_spec(s).len() == s.len() + 2,
        bwt_frame_wf(bwt_spec(s)),
{
    let n = s.len() as int;
    let b = bwt_spec(s);
    let m = sorted_rotations(s);
    let idx = last_match(m, s, n);
    lemma_last_match_bounds(m, s, n);
    assert(b.len() == n + 2);
    assert(b.take(n) =~= bwt_col(s));
    crate::bits::lemma_le16_round_trip(idx as u16);
    assert(b[n] == le16_bytes(idx as u16)[0] && b[n + 1] == le16_bytes(idx as u16)[1]);
    assert(le16_val(b[n], b[n + 1]) == idx as u16);
    if n == 0 {
        assert(ibwt_walk(b.take(0), ibwt_table(b.take(0)), idx, 0) =~= s);
    } else {
        lemma_sorted_rotations_len(s);
        broadcast use vstd::seq_lib::group_to_multiset_ensures;

        lemma_lex_total_ordering();
        rotations_of(s).lemma_sort_by_ensures(lex_cmp());
        assert(m[idx] == s) by {
            assert(rotations_of(s)[0] == rotation(s, 0));
            assert(rotation(s, 0) =~= s);
            assert(rotations_of(s).contains(s));
            assert(rotations_of(s).to_multiset().count(s) > 0);
            assert(m.to_multiset().count(s) > 0);
            assert(m.contains(s));
            let w = choose|w: int| 0 <= w < m.len() && m[w] == s;
            lemma_last_match_found(m, s, n);
        }
        assert(idx < n);
        assert(m[idx] == rotation(s, 0));
        lemma_ibwt_walk_emits(s, 0, idx);
        assert(s.skip(0) =~= s);
        assert(inverse_bwt_spec(b) == ibwt_walk(bwt_col(s), ibwt_table(bwt_col(s)), idx, n));
    }
}


proof fn lemma_mtf_init_wf()
    ensures
        mtf_table_wf(mtf_init_table()),
{
    assert forall|b: u8| mtf_init_table().contains(b) by {
        assert(mtf_init_table()[b as int] == b);
    }
}

proof fn lemma_block_round_trip(block: Seq<u8>, transform_id: u8)
    requires
        transform_id <= 3,
        block.len() <= TRANSFORM_BLOCK_SIZE,
    ensures
        transform_spec(block, transform_id).len() == block.len() + (
        if transform_id == 1 || transform_id == 2 {
            2int
        } else {
            0int
        }),
        frame_ok(transform_spec(block, transform_id), transform_id),
        inverse_transform_spec(transform_spec(block, transform_id), transform_id) == block,
{
    lemma_mtf_init_wf();
    if transform_id == 1 {
        let b = bwt_spec(block);
        lemma_bwt_involution(block);
        lemma_mtf_len(b, mtf_init_table());
        lemma_mtf_involution(b, mtf_init_table());
        assert(inverse_mtf_spec(mtf_spec(b, mtf_init_table()), mtf_init_table()) == b);
    } else if transform_id == 2 {
        lemma_bwt_involution(block);
    } else if transform_id == 3 {
        lemma_mtf_len(block, mtf_init_table());
        lemma_mtf_involution(block, mtf_init_table());
    } else {
    }
}

/// Law: block-by-block transformation is undone exactly by frame-by-
/// frame inversion, for every transform selector, with every frame
/// well-formed.
pub proof fn lemma_transform_blocks_round_trip(s: Seq<u8>, transform_id: u8)
    requires
        transform_id <= 3,
    ensures
        inverse_blocks_wf(transform_blocks_spec(s, transform_id), transform_id),
        inverse_blocks_spec(transform_blocks_spec(s, transform_id), transform_id) == s,
    decreases s.len(),
{
    let tb = transform_blocks_spec(s, transform_id);
    let fs = frame_size(transform_id);
    if s.len() == 0 {
        assert(inverse_blocks_spec(tb, transform_id) =~= s);
    } else if s.len() <= TRANSFORM_BLOCK_SIZE {
        lemma_block_round_trip(s, transform_id);
        assert(tb.len() <= fs);
        assert(tb.len() > 0);
    } else {
        let first = s.take(TRANSFORM_BLOCK_SIZE as int);
        let rest = s.skip(TRANSFORM_BLOCK_SIZE as int);
        lemma_block_round_trip(first, transform_id);
        lemma_transform_blocks_round_trip(rest, transform_id);
        let tf = transform_spec(first, transform_id);
        let tr = transform_blocks_spec(rest, transform_id);
        assert(tb == tf + tr);
        assert(tf.len() == fs);
        assert(tr.len() > 0) by {
            if rest.len() <= TRANSFORM_BLOCK_SIZE {
                lemma_block_round_trip(rest, transform_id);
            } else {
                lemma_block_round_trip(rest.take(TRANSFORM_BLOCK_SIZE as int), transform_id);
            }
        }
        assert(tb.len() > fs);
        assert(tb.take(fs) =~= tf);
        assert(tb.skip(fs) =~= tr);
        assert(inverse_blocks_spec(tb, transform_id) == inverse_transform_spec(tf, transform_id)
            + inverse_blocks_spec(tr, transform_id));
        assert(first + rest =~= s);
    }
}

} // verus!
