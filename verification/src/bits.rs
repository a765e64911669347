//! Letter sets as 26-bit masks, and the popcount reasoning the solver's
//! pruning arguments rest on.
//!
//! A letter set is a `u32` whose bit `i` records the presence of letter `i`
//! (0 = 'a' .. 25 = 'z').  Bit counts are specified by the recursive
//! function [`pc`]; the lemmas here connect it to the bitwise operations
//! the solver uses: disjoint union adds counts, intersection never grows a
//! count, and a family of pairwise-disjoint sets that each touch a mask
//! needs at least as many mask bits as there are sets.

use vstd::prelude::*;

verus! {

/// Mask of all 26 letter bits.
pub const ALL_LETTERS: u32 = 0x3ff_ffff;

/// Number of set bits of `w`.
pub open spec fn pc(w: u32) -> nat
    decreases w,
{
    if w == 0 {
        0
    } else {
        ((w % 2) + pc(w / 2)) as nat
    }
}

/// A word's letter set is confined to the 26 letter bits.
pub open spec fn in_alphabet(w: u32) -> bool {
    w & ALL_LETTERS == w
}

/// Bit-level facts about halving that the popcount inductions step through.
proof fn lemma_halving(a: u32, b: u32)
    by (bit_vector)
    ensures
        (a | b) / 2 == (a / 2) | (b / 2),
        (a & b) / 2 == (a / 2) & (b / 2),
        ((a | b) % 2) + ((a & b) % 2) == (a % 2) + (b % 2),
        (a & b) % 2 <= b % 2,
        a & 0 == 0,
        0 & b == 0,
{
}

/// Popcount never exceeds the value itself.
pub proof fn lemma_pc_le_value(w: u32)
    ensures
        pc(w) <= w,
    decreases w,
{
    if w != 0 {
        lemma_pc_le_value(w / 2);
    }
}

/// A set is empty exactly when it has no bits.
pub proof fn lemma_pc_zero(w: u32)
    ensures
        pc(w) == 0 <==> w == 0,
    decreases w,
{
    if w != 0 {
        if w % 2 == 0 {
            lemma_pc_zero(w / 2);
        }
    }
}

/// Disjoint sets have additive popcounts.
pub proof fn lemma_pc_disjoint(a: u32, b: u32)
    requires
        a & b == 0,
    ensures
        pc(a | b) == pc(a) + pc(b),
    decreases a + b,
{
    lemma_halving(a, b);
    if a == 0 && b == 0 {
    } else {
        lemma_pc_disjoint(a / 2, b / 2);
    }
}

/// Intersecting with a set never increases its popcount.
pub proof fn lemma_pc_and_le(a: u32, b: u32)
    ensures
        pc(a & b) <= pc(b),
    decreases a + b,
{
    lemma_halving(a, b);
    if a == 0 || b == 0 {
        lemma_pc_zero(a & b);
    } else {
        lemma_pc_and_le(a / 2, b / 2);
    }
}

/// Splitting a set by a mask splits its popcount.
pub proof fn lemma_pc_split(x: u32, m: u32)
    ensures
        pc(x) == pc(x & m) + pc(x & !m),
{
    assert((x & m) & (x & !m) == 0 && (x & m) | (x & !m) == x) by (bit_vector);
    lemma_pc_disjoint(x & m, x & !m);
}

/// Commuting `&` and `|`, which the default solver treats as opaque.
pub proof fn lemma_bit_comm(a: u32, b: u32)
    by (bit_vector)
    ensures
        a & b == b & a,
        a | b == b | a,
{
}

/// Bits disjoint from `w` are untouched when `w` is carved out of `avail`.
pub proof fn lemma_mask_avoid(x: u32, w: u32, avail: u32)
    by (bit_vector)
    requires
        x & w == 0,
    ensures
        x & (avail & !w) == x & avail,
{
}

/// Disjointness from a union gives disjointness from both parts.
pub proof fn lemma_and_or_zero(x: u32, a: u32, b: u32)
    by (bit_vector)
    requires
        x & (a | b) == 0,
    ensures
        x & a == 0,
        x & b == 0,
{
}

/// Missing a union is exactly missing both parts.
pub proof fn lemma_or_zero_iff(x: u32, a: u32, b: u32)
    by (bit_vector)
    ensures
        (x & (a | b) == 0) == (x & a == 0 && x & b == 0),
{
}

/// Growing a set keeps every bit it already touches.
pub proof fn lemma_or_keeps_bit(a: u32, b: u32, c: u32)
    by (bit_vector)
    requires
        a & b != 0,
    ensures
        (a | c) & b != 0,
{
}

/// Two sets sharing letter `l` intersect.
pub proof fn lemma_common_bit(w: u32, v: u32, l: u32)
    by (bit_vector)
    requires
        l < 32,
        w & (1u32 << l) != 0,
        v & (1u32 << l) != 0,
    ensures
        w & v != 0,
{
}

/// Clearing letter `l` removes that bit and nothing else.
pub proof fn lemma_clear_bit(a: u32, l: u32, m: u32)
    by (bit_vector)
    requires
        l < 32,
        m < 32,
        m != l,
    ensures
        (a & !(1u32 << l)) & (1u32 << l) == 0,
        a & (1u32 << m) != 0 ==> (a & !(1u32 << l)) & (1u32 << m) != 0,
{
}

/// What intersects a set with bits removed intersects the set.
pub proof fn lemma_andnot_sub(a: u32, b: u32, x: u32)
    by (bit_vector)
    ensures
        (a & !b) & x != 0 ==> a & x != 0,
{
}

/// The alphabet mask is closed under the solver's set operations.
pub proof fn lemma_alphabet_ops(a: u32, b: u32, l: u32)
    by (bit_vector)
    requires
        l < 26,
    ensures
        a & 0x3ff_ffffu32 == a && b & 0x3ff_ffffu32 == b ==> (a | b) & 0x3ff_ffffu32 == (a | b),
        a & 0x3ff_ffffu32 == a ==> (a & !b) & 0x3ff_ffffu32 == (a & !b),
        (1u32 << l) & 0x3ff_ffffu32 == (1u32 << l),
        a & 0x3ff_ffffu32 == a ==> (a & b) & 0x3ff_ffffu32 == (a & b),
{
}

/// Adding a letter bit sets it.
pub proof fn lemma_or_sets_bit(a: u32, l: u32)
    by (bit_vector)
    requires
        l < 32,
    ensures
        (a | (1u32 << l)) & (1u32 << l) != 0,
{
}

/// A bit of a grown set was an old bit or the one added.
pub proof fn lemma_or_bit_cases(a: u32, c: u32, l: u32)
    by (bit_vector)
    requires
        c < 32,
        l < 32,
        l != c,
    ensures
        (a | (1u32 << c)) & (1u32 << l) != 0 ==> a & (1u32 << l) != 0,
{
}

/// The empty set is a unit for union and absorbing for intersection.
pub proof fn lemma_zero_ops(w: u32)
    by (bit_vector)
    ensures
        0u32 | w == w,
        w | 0u32 == w,
        0u32 & w == 0,
        w & 0u32 == 0,
{
}

/// A letter bit inside the seen set, or inside a newly merged word,
/// contributes nothing outside it.
pub proof fn lemma_bit_absorbed(seen: u32, w: u32, c: u32)
    by (bit_vector)
    requires
        c < 32,
    ensures
        seen & (1u32 << c) != 0 ==> (1u32 << c) & !seen == 0,
        w & (1u32 << c) != 0 ==> (1u32 << c) & !(seen | w) == 0,
{
}

/// Merging a part already inside `s` changes nothing outside `s`.
pub proof fn lemma_or_mask_drop(m: u32, b: u32, s: u32)
    by (bit_vector)
    requires
        b & !s == 0,
    ensures
        (m | b) & !s == m & !s,
{
}

/// The part of a disjoint union outside `s` splits disjointly.
pub proof fn lemma_or_mask_split(m: u32, b: u32, s: u32)
    by (bit_vector)
    requires
        m & b == 0,
    ensures
        (m | b) & !s == (m & !s) | (b & !s),
        ((m & !s) & (b & !s)) == 0,
{
}

/// Growing the seen set shrinks what lies outside it.
pub proof fn lemma_shrink_seen(m: u32, s: u32, w: u32)
    by (bit_vector)
    ensures
        m & !(s | w) == (m & !s) & !w,
{
}

/// A word disjoint from `s` meets a mask only outside `s`.
pub proof fn lemma_meet_outside(w: u32, m: u32, s: u32)
    by (bit_vector)
    requires
        w & s == 0,
    ensures
        w & m == w & (m & !s),
{
}

/// The full alphabet has 26 letters.
pub proof fn lemma_pc_all()
    ensures
        pc(ALL_LETTERS) == 26,
{
    reveal_with_fuel(pc, 28);
}

/// Absorption facts for a union.
pub proof fn lemma_or_absorb(a: u32, b: u32)
    by (bit_vector)
    ensures
        (a | b) & a == a,
        (a | b) & !a == b & !a,
{
}

/// Popcount of a union is at most the sum of the popcounts.
pub proof fn lemma_pc_or_le(a: u32, b: u32)
    ensures
        pc(a | b) <= pc(a) + pc(b),
{
    lemma_pc_split(a | b, a);
    lemma_or_absorb(a, b);
    lemma_bit_comm(b, !a);
    lemma_pc_and_le(!a, b);
}

/// A union is at least as populous as either part.
pub proof fn lemma_pc_grow(a: u32, b: u32)
    ensures
        pc(b) <= pc(a | b),
{
    lemma_pc_split(a | b, b);
    lemma_bit_comm(a, b);
    lemma_or_absorb(b, a);
}

/// A bit of a union is a bit of one of the parts.
pub proof fn lemma_or_and_split(a: u32, c: u32, b: u32)
    by (bit_vector)
    ensures
        (a | c) & b != 0 ==> a & b != 0 || c & b != 0,
{
}

/// Union of letter sets is associative.
pub proof fn lemma_or_assoc(a: u32, b: u32, c: u32)
    by (bit_vector)
    ensures
        (a | b) | c == a | (b | c),
{
}

/// A non-empty letter set contains some letter.
pub proof fn lemma_has_letter(w: u32)
    requires
        w != 0,
        in_alphabet(w),
    ensures
        exists|l: u32| l < 26 && #[trigger] (w & (1u32 << l)) != 0,
{
    assert(w & sub_mask(0) == 0) by (bit_vector);
    lemma_has_letter_from(w, 0);
}

proof fn lemma_has_letter_from(w: u32, l: u32)
    requires
        l <= 26,
        w != 0,
        in_alphabet(w),
        w & sub_mask(l) == 0,
    ensures
        exists|m: u32| m < 26 && #[trigger] (w & (1u32 << m)) != 0,
    decreases 26 - l,
{
    if l == 26 {
        assert(w & sub_mask(26) == 0 && w & ALL_LETTERS == w ==> w == 0) by (bit_vector);
        assert(false);
    } else if w & (1u32 << l) != 0 {
        assert(l < 26 && w & (1u32 << l) != 0);
    } else {
        lemma_sub_mask_step(w, l);
        lemma_has_letter_from(w, (l + 1) as u32);
    }
}

/// A single letter bit has popcount 1.
pub proof fn lemma_pc_single(l: u32)
    requires
        l < 32,
    ensures
        pc(1u32 << l) == 1,
    decreases l,
{
    if l == 0 {
        assert(1u32 << 0u32 == 1) by (bit_vector);
        assert(pc(1) == 1) by {
            reveal_with_fuel(pc, 2);
        }
    } else {
        let k = (l - 1) as u32;
        assert((1u32 << l) % 2 == 0 && (1u32 << l) / 2 == 1u32 << k && 1u32 << l != 0)
            by (bit_vector)
            requires
                0 < l < 32 && k == l - 1,
        ;
        lemma_pc_single(k);
    }
}

/// All members of the sequence are pairwise disjoint letter sets.
pub open spec fn pairwise_disjoint(ws: Seq<u32>) -> bool {
    forall|i: int, j: int| 0 <= i < j < ws.len() ==> ws[i] & ws[j] == 0
}

/// Union of a sequence of letter sets.
pub open spec fn or_all(s: Seq<u32>) -> u32
    decreases s.len(),
{
    if s.len() == 0 {
        0
    } else {
        or_all(s.drop_last()) | s.last()
    }
}

/// A set disjoint from every member is disjoint from the union.
pub proof fn lemma_or_all_disjoint(s: Seq<u32>, x: u32)
    requires
        forall|i: int| 0 <= i < s.len() ==> s[i] & x == 0,
    ensures
        or_all(s) & x == 0,
    decreases s.len(),
{
    if s.len() == 0 {
        assert(0u32 & x == 0) by (bit_vector);
    } else {
        lemma_or_all_disjoint(s.drop_last(), x);
        let a = or_all(s.drop_last());
        let b = s.last();
        assert(a & x == 0 && b & x == 0 ==> (a | b) & x == 0) by (bit_vector);
    }
}

/// Pairwise-disjoint five-letter words union to five bits per word.
pub proof fn lemma_union_count(s: Seq<u32>)
    requires
        pairwise_disjoint(s),
        forall|i: int| 0 <= i < s.len() ==> pc(#[trigger] s[i]) == 5,
    ensures
        pc(or_all(s)) == 5 * s.len(),
    decreases s.len(),
{
    if s.len() > 0 {
        let rest = s.drop_last();
        let w = s.last();
        assert(forall|i: int| 0 <= i < rest.len() ==> #[trigger] rest[i] & w == 0);
        lemma_or_all_disjoint(rest, w);
        lemma_union_count(rest);
        lemma_pc_disjoint(or_all(rest), w);
    }
}

/// Pairwise-disjoint words that each touch `avail` need that many `avail` bits:
/// the counting argument behind pseudovowel pruning.
pub proof fn lemma_hitting_budget(ws: Seq<u32>, avail: u32)
    requires
        pairwise_disjoint(ws),
        forall|i: int| 0 <= i < ws.len() ==> #[trigger] ws[i] & avail != 0,
    ensures
        pc(avail) >= ws.len(),
    decreases ws.len(),
{
    if ws.len() > 0 {
        let w = ws[0];
        let rest = ws.subrange(1, ws.len() as int);
        let avail2 = avail & !w;
        lemma_pc_split(avail, w);
        lemma_bit_comm(avail, w);
        lemma_pc_zero(avail & w);
        assert forall|i: int| 0 <= i < rest.len() implies #[trigger] rest[i] & avail2 != 0 by {
            assert(rest[i] == ws[i + 1]);
            assert(ws[0] & ws[i + 1] == 0);
            lemma_bit_comm(ws[0], ws[i + 1]);
            lemma_mask_avoid(ws[i + 1], w, avail);
        }
        assert(pairwise_disjoint(rest)) by {
            assert forall|i: int, j: int| 0 <= i < j < rest.len() implies rest[i] & rest[j] == 0 by {
                assert(rest[i] == ws[i + 1] && rest[j] == ws[j + 1]);
            }
        }
        lemma_hitting_budget(rest, avail2);
    }
}

/// Count the set bits of `w`.
pub fn count_bits(w: u32) -> (c: u32)
    ensures
        c == pc(w),
{
    proof {
        lemma_pc_le_value(w);
    }
    let mut x = w;
    let mut c: u32 = 0;
    while x != 0
        invariant
            c + pc(x) == pc(w),
            pc(w) <= u32::MAX,
        decreases x,
    {
        c = c + (x % 2);
        x = x / 2;
    }
    c
}

/// Mask of the bits strictly below position `l`.
pub open spec fn sub_mask(l: u32) -> u32 {
    if l >= 32 {
        u32::MAX
    } else {
        ((1u64 << l) - 1) as u32
    }
}

proof fn lemma_sub_mask_step(w: u32, l: u32)
    by (bit_vector)
    requires
        l < 26,
        w & (if l >= 32 { u32::MAX } else { ((1u64 << l) - 1) as u32 }) == 0,
        w & (1u32 << l) == 0,
    ensures
        w & (if l + 1 >= 32 { u32::MAX } else { ((1u64 << (l + 1)) - 1) as u32 }) == 0,
{
}


/// The union touches `b` only if some member does.
pub proof fn lemma_or_all_witness(s: Seq<u32>, b: u32)
    requires
        or_all(s) & b != 0,
    ensures
        exists|i: int| 0 <= i < s.len() && #[trigger] s[i] & b != 0,
    decreases s.len(),
{
    if s.len() == 0 {
        lemma_zero_ops(b);
    } else {
        lemma_or_and_split(or_all(s.drop_last()), s.last(), b);
        if s.last() & b != 0 {
            assert(s[s.len() - 1] & b != 0);
        } else {
            lemma_or_all_witness(s.drop_last(), b);
            let i = choose|i: int| 0 <= i < s.len() - 1 && #[trigger] s.drop_last()[i] & b != 0;
            assert(s[i] & b != 0);
        }
    }
}

/// Removing one member and re-adding its letters restores the union.
pub proof fn lemma_or_all_remove(s: Seq<u32>, i: int)
    requires
        0 <= i < s.len(),
    ensures
        or_all(s) == or_all(s.remove(i)) | s[i],
    decreases s.len(),
{
    s.remove_ensures(i);
    if i == s.len() - 1 {
        assert(s.remove(i) =~= s.drop_last());
    } else {
        assert(s.remove(i).drop_last() =~= s.drop_last().remove(i));
        lemma_or_all_remove(s.drop_last(), i);
        assert(s.drop_last()[i] == s[i]);
        assert(s.remove(i).last() == s.last());
        lemma_or_assoc(or_all(s.drop_last().remove(i)), s[i], s.last());
        lemma_bit_comm(s[i], s.last());
        lemma_or_assoc(or_all(s.drop_last().remove(i)), s.last(), s[i]);
    }
}

/// A union of alphabet letter sets stays within the alphabet.
pub proof fn lemma_or_all_alphabet(s: Seq<u32>)
    requires
        forall|i: int| 0 <= i < s.len() ==> in_alphabet(#[trigger] s[i]),
    ensures
        in_alphabet(or_all(s)),
    decreases s.len(),
{
    if s.len() == 0 {
        lemma_zero_ops(ALL_LETTERS);
    } else {
        lemma_or_all_alphabet(s.drop_last());
        assert(s[s.len() - 1] == s.last());
        lemma_alphabet_ops(or_all(s.drop_last()), s.last(), 0);
    }
}

/// Every member lies inside the union.
pub proof fn lemma_or_all_member(s: Seq<u32>, i: int)
    requires
        0 <= i < s.len(),
    ensures
        s[i] & !or_all(s) == 0,
{
    lemma_or_all_remove(s, i);
    let rest = or_all(s.remove(i));
    let w = s[i];
    assert(w & !(rest | w) == 0) by (bit_vector);
}

} // verus!
