//! Building the search space from a dictionary: letter grouping, group
//! ordering, seen-letters pruning, and the two pseudovowel constructions.

use vstd::prelude::*;

use crate::bits::{
    count_bits, in_alphabet, lemma_alphabet_ops, lemma_andnot_sub, lemma_bit_comm,
    lemma_clear_bit, lemma_common_bit, lemma_has_letter, lemma_or_bit_cases, lemma_or_keeps_bit,
    lemma_or_sets_bit, lemma_or_zero_iff, lemma_pc_all, lemma_pc_and_le, lemma_pc_disjoint,
    lemma_pc_or_le, lemma_pc_single, lemma_pc_zero, lemma_zero_ops, pc, ALL_LETTERS,
};
use crate::seqs::{
    lemma_filter_all_rejected, lemma_filter_filter, lemma_filter_is_subset, lemma_filter_shorter,
    lemma_filter_take_step, lemma_take_all,
};
use crate::space::{GroupView, LetterGroup, LetterSpace, SearchConfig, SpaceView};

verus! {

/// The words of the dictionary containing letter `c`.
pub open spec fn has_letter_pred(c: u32) -> spec_fn(u32) -> bool {
    |w: u32| w & (1u32 << c) != 0
}

/// The candidate list of letter `c`, before pruning.
pub open spec fn group_words(dict: Seq<u32>, c: u32) -> Seq<u32> {
    dict.filter(has_letter_pred(c))
}

/// Words sharing at most one letter with `mask` — those the seen-letters
/// invariant keeps.
pub open spec fn keep_pred(mask: u32) -> spec_fn(u32) -> bool {
    |w: u32| pc(w & mask) < 2
}

/// Words not yet hit by the pseudovowel set `pv`.
pub open spec fn miss_pred(pv: u32) -> spec_fn(u32) -> bool {
    |w: u32| w & pv == 0
}

/// The dictionary invariant the collaborator guarantees: distinct letter
/// sets, each of exactly five letters of the alphabet.
pub open spec fn valid_dict(dict: Seq<u32>) -> bool {
    &&& forall|i: int|
        0 <= i < dict.len() ==> in_alphabet(#[trigger] dict[i]) && pc(dict[i]) == 5
    &&& forall|i: int, j: int| 0 <= i < j < dict.len() ==> dict[i] != dict[j]
}

/// Candidate count of letter `c` — the group-ordering measure.
pub open spec fn cnt(dict: Seq<u32>, c: u32) -> int {
    group_words(dict, c).len() as int
}

/// The group order: ascending candidate count, ties broken by letter index.
pub open spec fn key_lt(dict: Seq<u32>, a: u32, b: u32) -> bool {
    cnt(dict, a) < cnt(dict, b) || (cnt(dict, a) == cnt(dict, b) && a < b)
}

/// `letters` lists each letter of the alphabet once, in the group order.
pub open spec fn sorted_letters(dict: Seq<u32>, letters: Seq<u32>) -> bool {
    &&& letters.len() == 26
    &&& forall|p: int| 0 <= p < 26 ==> #[trigger] letters[p] < 26
    &&& forall|c: u32| c < 26 ==> letters.contains(c)
    &&& forall|p: int, q: int| 0 <= p < q < 26 ==> key_lt(dict, letters[p], letters[q])
}

/// Union of the anchor bits of the first `p` groups.
pub open spec fn anchor_mask(letters: Seq<u32>, p: int) -> u32
    decreases p,
{
    if p <= 0 {
        0
    } else {
        anchor_mask(letters, p - 1) | (1u32 << letters[p - 1])
    }
}

/// `pv` touches every word of the dictionary.
pub open spec fn hits_all(pv: u32, dict: Seq<u32>) -> bool {
    forall|i: int| 0 <= i < dict.len() ==> #[trigger] dict[i] & pv != 0
}

/// No single letter of `pv` can be dropped without missing some word.
pub open spec fn minimal_hitting(pv: u32, dict: Seq<u32>) -> bool {
    forall|l: u32|
        l < 26 && #[trigger] (pv & (1u32 << l)) != 0 ==> !hits_all(pv & !(1u32 << l), dict)
}

/// Letter `l` appears in the pair list.
pub open spec fn letter_listed(pairs: Seq<(usize, u32)>, l: u32) -> bool {
    exists|k: int| 0 <= k < pairs.len() && (#[trigger] pairs[k]).1 == l
}

/// Collect the words of `dict` containing letter `c`.
fn matching_words(dict: &Vec<u32>, c: u32) -> (v: Vec<u32>)
    requires
        c < 26,
    ensures
        v@ == group_words(dict@, c),
{
    let mut v: Vec<u32> = Vec::new();
    proof {
        reveal(Seq::filter);
        assert(dict@.take(0) =~= Seq::<u32>::empty());
    }
    let mut i: usize = 0;
    while i < dict.len()
        invariant
            i <= dict@.len(),
            c < 26,
            v@ == dict@.take(i as int).filter(has_letter_pred(c)),
        decreases dict@.len() - i,
    {
        proof {
            lemma_filter_take_step(dict@, has_letter_pred(c), i as int);
        }
        if dict[i] & (1u32 << c) != 0 {
            v.push(dict[i]);
        }
        i = i + 1;
    }
    proof {
        lemma_take_all(dict@);
    }
    v
}

/// Keep the words sharing at most one letter with `mask`.
fn filter_seen(words: &Vec<u32>, mask: u32) -> (v: Vec<u32>)
    ensures
        v@ == words@.filter(keep_pred(mask)),
{
    let mut v: Vec<u32> = Vec::new();
    proof {
        reveal(Seq::filter);
        assert(words@.take(0) =~= Seq::<u32>::empty());
    }
    let mut i: usize = 0;
    while i < words.len()
        invariant
            i <= words@.len(),
            v@ == words@.take(i as int).filter(keep_pred(mask)),
        decreases words@.len() - i,
    {
        proof {
            lemma_filter_take_step(words@, keep_pred(mask), i as int);
        }
        if count_bits(words[i] & mask) < 2 {
            v.push(words[i]);
        }
        i = i + 1;
    }
    proof {
        lemma_take_all(words@);
    }
    v
}

/// Keep the words not hit by `pv`.
fn filter_missed(words: &Vec<u32>, pv: u32) -> (v: Vec<u32>)
    ensures
        v@ == words@.filter(miss_pred(pv)),
{
    let mut v: Vec<u32> = Vec::new();
    proof {
        reveal(Seq::filter);
        assert(words@.take(0) =~= Seq::<u32>::empty());
    }
    let mut i: usize = 0;
    while i < words.len()
        invariant
            i <= words@.len(),
            v@ == words@.take(i as int).filter(miss_pred(pv)),
        decreases words@.len() - i,
    {
        proof {
            lemma_filter_take_step(words@, miss_pred(pv), i as int);
        }
        if words[i] & pv == 0 {
            v.push(words[i]);
        }
        i = i + 1;
    }
    proof {
        lemma_take_all(words@);
    }
    v
}

/// Order the 26 letters by ascending candidate count, ties by letter index.
#[verifier::loop_isolation(false)]
fn order_letters(dict: &Vec<u32>) -> (letters: Vec<u32>)
    ensures
        sorted_letters(dict@, letters@),
{
    let mut pairs: Vec<(usize, u32)> = Vec::new();
    let mut c: u32 = 0;
    while c < 26
        invariant
            c <= 26,
            pairs@.len() == c,
            forall|k: int|
                0 <= k < pairs@.len() ==> (#[trigger] pairs@[k]).1 < c && pairs@[k].0 == cnt(
                    dict@,
                    pairs@[k].1,
                ),
            forall|k1: int, k2: int|
                0 <= k1 < k2 < pairs@.len() ==> key_lt(dict@, pairs@[k1].1, pairs@[k2].1),
            forall|l: u32| l < c ==> #[trigger] letter_listed(pairs@, l),
        decreases 26 - c,
    {
        let wv = matching_words(dict, c);
        let n = wv.len();
        let mut idx: usize = 0;
        while idx < pairs.len() && (pairs[idx].0 < n || (pairs[idx].0 == n && pairs[idx].1 < c))
            invariant
                idx <= pairs@.len(),
                forall|k: int| 0 <= k < idx ==> key_lt(dict@, (#[trigger] pairs@[k]).1, c),
            decreases pairs@.len() - idx,
        {
            idx = idx + 1;
        }
        let ghost old_pairs = pairs@;
        pairs.insert(idx, (n, c));
        proof {
            old_pairs.insert_ensures(idx as int, (n, c));
            assert(pairs@ == old_pairs.insert(idx as int, (n, c)));
            assert forall|k1: int, k2: int| 0 <= k1 < k2 < pairs@.len() implies key_lt(
                dict@,
                pairs@[k1].1,
                pairs@[k2].1,
            ) by {
                if k2 < idx {
                } else if k1 < idx && k2 == idx {
                    assert(pairs@[k1] == old_pairs[k1]);
                } else if k1 < idx && k2 > idx {
                    assert(pairs@[k1] == old_pairs[k1] && pairs@[k2] == old_pairs[k2 - 1]);
                } else if k1 == idx {
                    assert(pairs@[k2] == old_pairs[k2 - 1]);
                    assert(!(old_pairs[idx as int].0 < n || (old_pairs[idx as int].0 == n
                        && old_pairs[idx as int].1 < c)));
                    assert(key_lt(dict@, c, old_pairs[idx as int].1));
                    if k2 - 1 > idx {
                        assert(key_lt(dict@, old_pairs[idx as int].1, old_pairs[k2 - 1].1));
                    }
                } else {
                    assert(pairs@[k1] == old_pairs[k1 - 1] && pairs@[k2] == old_pairs[k2 - 1]);
                }
            }
            assert forall|l: u32| l < c + 1 implies #[trigger] letter_listed(pairs@, l) by {
                if l == c {
                    assert(pairs@[idx as int].1 == c);
                } else {
                    assert(letter_listed(old_pairs, l));
                    let k0 = choose|k: int| 0 <= k < old_pairs.len() && (#[trigger] old_pairs[k]).1 == l;
                    if k0 < idx {
                        assert(pairs@[k0].1 == l);
                    } else {
                        assert(pairs@[k0 + 1].1 == l);
                    }
                }
            }
        }
        c = c + 1;
    }
    let mut letters: Vec<u32> = Vec::new();
    let mut j: usize = 0;
    while j < pairs.len()
        invariant
            j <= pairs@.len(),
            letters@.len() == j,
            forall|k: int| 0 <= k < j ==> #[trigger] letters@[k] == pairs@[k].1,
        decreases pairs@.len() - j,
    {
        letters.push(pairs[j].1);
        j = j + 1;
    }
    proof {
        assert forall|l: u32| l < 26 implies letters@.contains(l) by {
            assert(letter_listed(pairs@, l));
            let k = choose|k: int| 0 <= k < pairs@.len() && (#[trigger] pairs@[k]).1 == l;
            assert(letters@[k] == l);
        }
    }
    letters
}

/// A pseudovowel set that still misses some five-letter word has room: at
/// most 21 of the 26 letters.
proof fn lemma_pv_room(pv: u32, w: u32)
    requires
        in_alphabet(pv),
        in_alphabet(w),
        pc(w) == 5,
        w & pv == 0,
    ensures
        pc(pv) <= 21,
{
    lemma_pc_disjoint(w, pv);
    lemma_alphabet_ops(w, pv, 0);
    lemma_pc_all();
    lemma_pc_and_le(w | pv, ALL_LETTERS);
}

/// Whether `pv` touches every word of the list.
fn hits_all_exec(pv: u32, dict: &Vec<u32>) -> (b: bool)
    ensures
        b == hits_all(pv, dict@),
{
    let mut i: usize = 0;
    while i < dict.len()
        invariant
            i <= dict@.len(),
            forall|k: int| 0 <= k < i ==> #[trigger] dict@[k] & pv != 0,
        decreases dict@.len() - i,
    {
        if dict[i] & pv == 0 {
            return false;
        }
        i = i + 1;
    }
    true
}

fn copy_words(v: &Vec<u32>) -> (r: Vec<u32>)
    ensures
        r@ == v@,
{
    let mut r: Vec<u32> = Vec::new();
    let mut i: usize = 0;
    while i < v.len()
        invariant
            i <= v@.len(),
            r@ == v@.take(i as int),
        decreases v@.len() - i,
    {
        r.push(v[i]);
        proof {
            assert(r@ =~= v@.take(i + 1));
        }
        i = i + 1;
    }
    proof {
        lemma_take_all(v@);
    }
    r
}

/// Number of words of the list containing letter `c`.
fn count_matching(words: &Vec<u32>, c: u32) -> (n: usize)
    requires
        c < 26,
    ensures
        n == group_words(words@, c).len(),
{
    let v = matching_words(words, c);
    v.len()
}

/// The local pseudovowel construction: walk the groups from most to least
/// frequent anchor letter, accumulating letters until every word is hit,
/// then greedily drop letters (most recently added first) while the set
/// still hits every word.
#[verifier::loop_isolation(false)]
fn local_pseudovowels(dict: &Vec<u32>, letters: &Vec<u32>) -> (pv: u32)
    requires
        valid_dict(dict@),
        letters@.len() == 26,
        forall|k: int| 0 <= k < 26 ==> #[trigger] letters@[k] < 26,
        forall|k1: int, k2: int| 0 <= k1 < k2 < 26 ==> letters@[k1] != letters@[k2],
        forall|c: u32| c < 26 ==> letters@.contains(c),
    ensures
        in_alphabet(pv),
        pv != 0 ==> hits_all(pv, dict@) && minimal_hitting(pv, dict@),
        dict@.len() > 0 ==> pv != 0,
{
    let mut pv: u32 = 0;
    let mut pv_letters: Vec<u32> = Vec::new();
    let mut working = copy_words(dict);
    proof {
        assert(0u32 & 0x3ff_ffffu32 == 0) by (bit_vector);
        assert forall|x: u32| #[trigger] miss_pred(0u32)(x) by {
            assert(x & 0u32 == 0) by (bit_vector);
        }
        assert(dict@.filter(miss_pred(0u32)) =~= dict@) by {
            lemma_all_kept(dict@, miss_pred(0u32));
        }
        assert forall|l: u32| l < 26 implies #[trigger] (0u32 & (1u32 << l)) == 0 by {
            assert(0u32 & (1u32 << l) == 0) by (bit_vector);
        }
    }
    let mut k: usize = 0;
    while k < 26 && !working.is_empty()
        invariant
            k <= 26,
            pv_letters@.len() == k,
            working@ == dict@.filter(miss_pred(pv)),
            in_alphabet(pv),
            pc(pv) <= 22,
            forall|j: int| 0 <= j < k ==> #[trigger] pv_letters@[j] == letters@[25 - j],
            forall|j: int| 0 <= j < k ==> pv & (1u32 << #[trigger] pv_letters@[j]) != 0,
            forall|l: u32| l < 26 && #[trigger] (pv & (1u32 << l)) != 0 ==> pv_letters@.contains(l),
        decreases 26 - k,
    {
        proof {
            broadcast use vstd::seq_lib::group_filter_ensures;

            let w = working@[0];
            lemma_filter_is_subset(dict@, miss_pred(pv));
            assert(dict@.contains(w));
            let di = choose|di: int| 0 <= di < dict@.len() && dict@[di] == w;
            assert(pc(w) == 5 && in_alphabet(w));
            assert(miss_pred(pv)(w));
            lemma_pv_room(pv, w);
        }
        let c = letters[25 - k];
        let ghost pv0 = pv;
        let ghost letters0 = pv_letters@;
        pv = pv | (1u32 << c);
        pv_letters.push(c);
        let next = filter_missed(&working, 1u32 << c);
        proof {
            assert forall|x: u32| #[trigger] miss_pred(pv)(x) == (miss_pred(pv0)(x) && miss_pred(
                1u32 << c,
            )(x)) by {
                lemma_or_zero_iff(x, pv0, 1u32 << c);
            }
            lemma_filter_filter(dict@, miss_pred(pv0), miss_pred(1u32 << c), miss_pred(pv));
            lemma_alphabet_ops(pv0, 1u32 << c, c);
            lemma_or_sets_bit(pv0, c);
            lemma_pc_or_le(pv0, 1u32 << c);
            lemma_pc_single(c);
            assert forall|j: int| 0 <= j < k + 1 implies pv & (1u32 << #[trigger] pv_letters@[j])
                != 0 by {
                if j < k {
                    lemma_or_keeps_bit(pv0, 1u32 << pv_letters@[j], 1u32 << c);
                }
            }
            assert forall|l: u32| l < 26 && #[trigger] (pv & (1u32 << l)) != 0 implies pv_letters@
                .contains(l) by {
                if l != c {
                    lemma_or_bit_cases(pv0, c, l);
                    assert(letters0.contains(l));
                    let m = choose|m: int| 0 <= m < letters0.len() && letters0[m] == l;
                    assert(pv_letters@[m] == l);
                } else {
                    assert(pv_letters@[k as int] == c);
                }
            }
        }
        working = next;
        k = k + 1;
    }
    if !working.is_empty() {
        proof {
            assert(k == 26);
            assert forall|l: u32| l < 26 implies pv & (1u32 << l) != 0 by {
                assert(letters@.contains(l));
                let m = choose|m: int| 0 <= m < letters@.len() && letters@[m] == l;
                assert(pv_letters@[25 - m] == letters@[25 - (25 - m)]);
                assert(pv & (1u32 << pv_letters@[25 - m]) != 0);
            }
            broadcast use vstd::seq_lib::group_filter_ensures;

            let w = working@[0];
            lemma_filter_is_subset(dict@, miss_pred(pv));
            assert(dict@.contains(w));
            let di = choose|di: int| 0 <= di < dict@.len() && dict@[di] == w;
            assert(pc(w) == 5 && in_alphabet(w));
            lemma_pc_zero(w);
            lemma_has_letter(w);
            let l = choose|l: u32| l < 26 && #[trigger] (w & (1u32 << l)) != 0;
            lemma_common_bit(w, pv, l);
            assert(miss_pred(pv)(w));
            assert(false);
        }
    }
    proof {
        lemma_filter_all_rejected(dict@, miss_pred(pv));
        assert(hits_all(pv, dict@));
    }
    // Greedy minimization: drop any letter whose removal keeps the set a
    // hitting set, scanning the most recently added letters first.
    let mut done = false;
    while !done
        invariant
            hits_all(pv, dict@),
            in_alphabet(pv),
            forall|j: int| 0 <= j < pv_letters@.len() ==> #[trigger] pv_letters@[j] < 26,
            forall|j: int|
                0 <= j < pv_letters@.len() ==> pv & (1u32 << #[trigger] pv_letters@[j]) != 0,
            forall|l: u32| l < 26 && #[trigger] (pv & (1u32 << l)) != 0 ==> pv_letters@.contains(l),
            forall|j1: int, j2: int|
                0 <= j1 < j2 < pv_letters@.len() ==> pv_letters@[j1] != pv_letters@[j2],
            done ==> forall|j: int|
                0 <= j < pv_letters@.len() ==> !hits_all(
                    pv & !(1u32 << #[trigger] pv_letters@[j]),
                    dict@,
                ),
        decreases pv_letters@.len(), (if done { 0int } else { 1int }),
    {
        let mut found = false;
        let mut fi: usize = 0;
        let mut j = pv_letters.len();
        while j > 0 && !found
            invariant
                j <= pv_letters@.len(),
                !found ==> forall|m: int|
                    j <= m < pv_letters@.len() ==> !hits_all(
                        pv & !(1u32 << #[trigger] pv_letters@[m]),
                        dict@,
                    ),
                found ==> fi < pv_letters@.len() && hits_all(
                    pv & !(1u32 << pv_letters@[fi as int]),
                    dict@,
                ),
            decreases j,
        {
            let l = pv_letters[j - 1];
            if hits_all_exec(pv & !(1u32 << l), dict) {
                found = true;
                fi = j - 1;
            }
            j = j - 1;
        }
        if found {
            let ghost letters0 = pv_letters@;
            let ghost pv0 = pv;
            let l = pv_letters.remove(fi);
            pv = pv & !(1u32 << l);
            proof {
                letters0.remove_ensures(fi as int);
                lemma_alphabet_ops(pv0, 1u32 << l, l);
                lemma_clear_bit(pv0, l, if l == 0 { 1 } else { 0 });
                assert forall|jj: int| 0 <= jj < pv_letters@.len() implies pv & (1u32
                    << #[trigger] pv_letters@[jj]) != 0 by {
                    let m = pv_letters@[jj];
                    if jj < fi {
                        assert(m == letters0[jj]);
                    } else {
                        assert(m == letters0[jj + 1]);
                    }
                    assert(m != l);
                    lemma_clear_bit(pv0, l, m);
                }
                assert forall|ll: u32| ll < 26 && #[trigger] (pv & (1u32 << ll)) != 0 implies
                    pv_letters@.contains(ll) by {
                    lemma_andnot_sub(pv0, 1u32 << l, 1u32 << ll);
                    assert(pv0 & (1u32 << ll) != 0);
                    assert(ll != l);
                    assert(letters0.contains(ll));
                    let m0 = choose|m0: int| 0 <= m0 < letters0.len() && letters0[m0] == ll;
                    assert(m0 != fi);
                    if m0 < fi {
                        assert(pv_letters@[m0] == ll);
                    } else {
                        assert(pv_letters@[m0 - 1] == ll);
                    }
                }
                assert forall|j1: int, j2: int| 0 <= j1 < j2 < pv_letters@.len() implies
                    pv_letters@[j1] != pv_letters@[j2] by {
                    let a = if j1 < fi {
                        j1
                    } else {
                        j1 + 1
                    };
                    let b = if j2 < fi {
                        j2
                    } else {
                        j2 + 1
                    };
                    assert(pv_letters@[j1] == letters0[a] && pv_letters@[j2] == letters0[b]);
                }
            }
        } else {
            done = true;
        }
    }
    proof {
        assert forall|l: u32| l < 26 && #[trigger] (pv & (1u32 << l)) != 0 implies !hits_all(
            pv & !(1u32 << l),
            dict@,
        ) by {
            assert(pv_letters@.contains(l));
            let m = choose|m: int| 0 <= m < pv_letters@.len() && pv_letters@[m] == l;
            assert(!hits_all(pv & !(1u32 << pv_letters@[m]), dict@));
        }
        if dict@.len() > 0 {
            lemma_zero_ops(dict@[0]);
        }
    }
    pv
}

/// A filter whose predicate holds everywhere keeps the sequence.
proof fn lemma_all_kept(s: Seq<u32>, pred: spec_fn(u32) -> bool)
    requires
        forall|x: u32| #[trigger] pred(x),
    ensures
        s.filter(pred) == s,
    decreases s.len(),
{
    reveal(Seq::filter);
    if s.len() > 0 {
        lemma_all_kept(s.drop_last(), pred);
        assert(s.filter(pred) =~= s);
    }
}

/// The global pseudovowel construction: repeatedly take the letter hitting
/// the most remaining words until none remain.
#[verifier::loop_isolation(false)]
fn global_pseudovowels(dict: &Vec<u32>) -> (pv: u32)
    requires
        valid_dict(dict@),
    ensures
        in_alphabet(pv),
        pv != 0 ==> hits_all(pv, dict@),
        dict@.len() > 0 ==> pv != 0,
{
    let mut pv: u32 = 0;
    let mut working = copy_words(dict);
    proof {
        assert(0u32 & 0x3ff_ffffu32 == 0) by (bit_vector);
        assert forall|x: u32| #[trigger] miss_pred(0u32)(x) by {
            assert(x & 0u32 == 0) by (bit_vector);
        }
        lemma_all_kept(dict@, miss_pred(0u32));
    }
    while !working.is_empty()
        invariant
            working@ == dict@.filter(miss_pred(pv)),
            in_alphabet(pv),
            pc(pv) <= 22,
        decreases working@.len(),
    {
        let mut best_l: u32 = 0;
        let mut best_n = count_matching(&working, 0);
        let mut l: u32 = 1;
        while l < 26
            invariant
                1 <= l <= 26,
                best_l < 26,
                best_n == group_words(working@, best_l).len(),
                forall|m: u32| m < l ==> #[trigger] group_words(working@, m).len() <= best_n,
            decreases 26 - l,
        {
            let n = count_matching(&working, l);
            if n >= best_n {
                best_n = n;
                best_l = l;
            }
            l = l + 1;
        }
        proof {
            broadcast use vstd::seq_lib::group_filter_ensures;

            let w = working@[0];
            lemma_filter_is_subset(dict@, miss_pred(pv));
            assert(dict@.contains(w));
            let di = choose|di: int| 0 <= di < dict@.len() && dict@[di] == w;
            assert(pc(w) == 5 && in_alphabet(w));
            lemma_pc_zero(w);
            lemma_has_letter(w);
            let wl = choose|wl: u32| wl < 26 && #[trigger] (w & (1u32 << wl)) != 0;
            assert(has_letter_pred(wl)(w));
            assert(working@.filter(has_letter_pred(wl)).contains(w));
            assert(group_words(working@, wl).len() >= 1);
            assert(best_n >= 1);
            assert(miss_pred(pv)(w));
            lemma_pv_room(pv, w);
        }
        let ghost pv0 = pv;
        pv = pv | (1u32 << best_l);
        let next = filter_missed(&working, 1u32 << best_l);
        proof {
            assert forall|x: u32| #[trigger] miss_pred(pv)(x) == (miss_pred(pv0)(x) && miss_pred(
                1u32 << best_l,
            )(x)) by {
                lemma_or_zero_iff(x, pv0, 1u32 << best_l);
            }
            lemma_filter_filter(dict@, miss_pred(pv0), miss_pred(1u32 << best_l), miss_pred(pv));
            lemma_alphabet_ops(pv0, 1u32 << best_l, best_l);
            lemma_pc_or_le(pv0, 1u32 << best_l);
            lemma_pc_single(best_l);
            // progress: some word of the working list is hit by the chosen letter
            let hit = group_words(working@, best_l)[0];
            lemma_filter_is_subset(working@, has_letter_pred(best_l));
            assert(working@.contains(hit));
            let hi = choose|hi: int| 0 <= hi < working@.len() && working@[hi] == hit;
            assert(has_letter_pred(best_l)(hit)) by {
                broadcast use vstd::seq_lib::group_filter_ensures;

            }
            assert(!miss_pred(1u32 << best_l)(working@[hi]));
            lemma_filter_shorter(working@, miss_pred(1u32 << best_l), hi);
        }
        working = next;
    }
    proof {
        lemma_filter_all_rejected(dict@, miss_pred(pv));
        if dict@.len() > 0 {
            lemma_zero_ops(dict@[0]);
        }
    }
    pv
}

/// The bits of the anchor mask are exactly the anchors already passed.
pub proof fn lemma_anchor_mask_bit(letters: Seq<u32>, p: int, l: u32)
    requires
        0 <= p <= letters.len(),
        forall|k: int| 0 <= k < letters.len() ==> #[trigger] letters[k] < 26,
        l < 26,
    ensures
        (anchor_mask(letters, p) & (1u32 << l) != 0) <==> (exists|r: int|
            0 <= r < p && letters[r] == l),
    decreases p,
{
    if p == 0 {
        assert(0u32 & (1u32 << l) == 0) by (bit_vector);
    } else {
        lemma_anchor_mask_bit(letters, p - 1, l);
        let m0 = anchor_mask(letters, p - 1);
        let c = letters[p - 1];
        if c == l {
            lemma_or_sets_bit(m0, l);
            assert(letters[p - 1] == l);
        } else {
            lemma_or_bit_cases(m0, c, l);
            if exists|r: int| 0 <= r < p && letters[r] == l {
                let r = choose|r: int| 0 <= r < p && letters[r] == l;
                assert(r < p - 1);
                assert(m0 & (1u32 << l) != 0);
                lemma_or_keeps_bit(m0, 1u32 << l, 1u32 << c);
                crate::bits::lemma_bit_comm(m0, 1u32 << c);
                assert((m0 | (1u32 << c)) & (1u32 << l) != 0);
            }
        }
    }
}

/// The group order is a function of the dictionary alone: two orderings
/// that both satisfy it are equal.
pub proof fn lemma_sorted_unique(dict: Seq<u32>, l1: Seq<u32>, l2: Seq<u32>)
    requires
        sorted_letters(dict, l1),
        sorted_letters(dict, l2),
    ensures
        l1 == l2,
{
    lemma_sorted_unique_upto(dict, l1, l2, 26);
    assert(l1 =~= l2);
}

proof fn lemma_sorted_unique_upto(dict: Seq<u32>, l1: Seq<u32>, l2: Seq<u32>, p: int)
    requires
        sorted_letters(dict, l1),
        sorted_letters(dict, l2),
        0 <= p <= 26,
    ensures
        forall|q: int| 0 <= q < p ==> l1[q] == l2[q],
    decreases p,
{
    if p > 0 {
        lemma_sorted_unique_upto(dict, l1, l2, p - 1);
        let pp = p - 1;
        if l1[pp] != l2[pp] {
            let c = l2[pp];
            assert(l1.contains(c));
            let r = choose|r: int| 0 <= r < l1.len() && l1[r] == c;
            if r < pp {
                assert(l1[r] == l2[r]);
                assert(key_lt(dict, l2[r], l2[pp]));
                assert(false);
            } else {
                assert(r > pp);
                assert(key_lt(dict, l1[pp], l1[r]));
                let c1 = l1[pp];
                assert(l2.contains(c1));
                let r2 = choose|r2: int| 0 <= r2 < l2.len() && l2[r2] == c1;
                if r2 < pp {
                    assert(l2[r2] == l1[r2]);
                    assert(key_lt(dict, l1[r2], l1[pp]));
                    assert(false);
                } else {
                    assert(r2 > pp);
                    assert(key_lt(dict, l2[pp], l2[r2]));
                    assert(false);
                }
            }
        }
    }
}

/// The anchor letters of a space, in group order.
pub open spec fn anchors_of(s: SpaceView) -> Seq<u32> {
    s.groups.map_values(|g: GroupView| g.letter)
}

/// The exact relation between a dictionary, a configuration, and the space
/// built from them: groups in the sorted order, candidate lists equal to the
/// (pruned) letter groups, and pseudovowel sets that are hitting sets —
/// the local one minimal — or absent.
pub open spec fn is_space_for(s: SpaceView, dict: Seq<u32>, cfg: SearchConfig) -> bool {
    &&& s.groups.len() == 26
    &&& sorted_letters(dict, anchors_of(s))
    &&& forall|p: int|
        0 <= p < 26 ==> #[trigger] s.words(p) == (if cfg.prune_groups {
            group_words(dict, s.letter(p)).filter(keep_pred(anchor_mask(anchors_of(s), p)))
        } else {
            group_words(dict, s.letter(p))
        })
    &&& !cfg.use_local_pseudovowels ==> s.pseudovowels == 0
    &&& s.pseudovowels != 0 ==> hits_all(s.pseudovowels, dict) && minimal_hitting(
        s.pseudovowels,
        dict,
    ) && in_alphabet(s.pseudovowels)
    &&& !cfg.use_global_pseudovowels ==> s.global_pseudovowels == 0
    &&& s.global_pseudovowels != 0 ==> hits_all(s.global_pseudovowels, dict) && in_alphabet(
        s.global_pseudovowels,
    ) && s.global_pseudovowels != s.pseudovowels
}

/// Build the search space for a dictionary of validated letter sets: one
/// group per letter in ascending candidate order, candidate lists pruned by
/// the seen-letters invariant, and the configured pseudovowel sets.
#[verifier::loop_isolation(false)]
pub fn make_letter_space(dwords: &Vec<u32>, config: SearchConfig) -> (space: LetterSpace)
    requires
        valid_dict(dwords@),
    ensures
        space@.wf(),
        is_space_for(space@, dwords@, config),
        config.use_local_pseudovowels && dwords@.len() > 0 ==> space@.pseudovowels != 0,
        config.use_global_pseudovowels && dwords@.len() > 0 ==> space@.global_pseudovowels != 0
            || space@.pseudovowels != 0,
{
    let letters = order_letters(dwords);
    proof {
        assert forall|k1: int, k2: int| 0 <= k1 < k2 < 26 implies letters@[k1] != letters@[k2] by {
            assert(key_lt(dwords@, letters@[k1], letters@[k2]));
        }
    }
    let local = if config.use_local_pseudovowels {
        local_pseudovowels(dwords, &letters)
    } else {
        0
    };
    let global_raw = if config.use_global_pseudovowels {
        global_pseudovowels(dwords)
    } else {
        0
    };
    let global = if global_raw == local {
        0
    } else {
        global_raw
    };
    let mut groups: Vec<LetterGroup> = Vec::new();
    let mut seen_mask: u32 = 0;
    let mut p: usize = 0;
    while p < 26
        invariant
            p <= 26,
            groups@.len() == p,
            seen_mask == anchor_mask(letters@, p as int),
            forall|q: int| 0 <= q < p ==> (#[trigger] groups@[q]).letter == letters@[q],
            forall|q: int|
                0 <= q < p ==> (#[trigger] groups@[q]).words@ == (if config.prune_groups {
                    group_words(dwords@, letters@[q]).filter(keep_pred(anchor_mask(letters@, q)))
                } else {
                    group_words(dwords@, letters@[q])
                }),
        decreases 26 - p,
    {
        let c = letters[p];
        let words_all = matching_words(dwords, c);
        let words = if config.prune_groups {
            filter_seen(&words_all, seen_mask)
        } else {
            words_all
        };
        groups.push(LetterGroup { letter: c, words });
        seen_mask = seen_mask | (1u32 << c);
        p = p + 1;
    }
    let space = LetterSpace { groups, pseudovowels: local, global_pseudovowels: global };
    proof {
        assert(anchors_of(space@) =~= letters@);
        assert forall|pp: int, jj: int|
            0 <= pp < 26 && 0 <= jj < space@.words(pp).len() implies {
            let w = #[trigger] space@.words(pp)[jj];
            &&& in_alphabet(w)
            &&& pc(w) == 5
            &&& w & (1u32 << space@.letter(pp)) != 0
            &&& space@.pseudovowels != 0 ==> w & space@.pseudovowels != 0
            &&& space@.global_pseudovowels != 0 ==> w & space@.global_pseudovowels != 0
        } by {
            broadcast use vstd::seq_lib::group_filter_ensures;

            let c = letters@[pp];
            let w = space@.words(pp)[jj];
            assert(space@.words(pp) == groups@[pp].words@);
            assert(space@.letter(pp) == c);
            if config.prune_groups {
                lemma_filter_is_subset(
                    group_words(dwords@, c),
                    keep_pred(anchor_mask(letters@, pp)),
                );
                assert(group_words(dwords@, c).contains(w));
            } else {
                assert(group_words(dwords@, c)[jj] == w);
                assert(group_words(dwords@, c).contains(w));
            }
            let gj = choose|gj: int|
                0 <= gj < group_words(dwords@, c).len() && group_words(dwords@, c)[gj] == w;
            assert(has_letter_pred(c)(w));
            lemma_filter_is_subset(dwords@, has_letter_pred(c));
            assert(dwords@.contains(w));
            let di = choose|di: int| 0 <= di < dwords@.len() && dwords@[di] == w;
            assert(in_alphabet(w) && pc(w) == 5);
            if space@.pseudovowels != 0 {
                assert(dwords@[di] & local != 0);
            }
            if space@.global_pseudovowels != 0 {
                assert(dwords@[di] & global != 0);
            }
        }
        assert forall|p1: int, p2: int| 0 <= p1 < p2 < 26 implies #[trigger] space@.letter(p1)
            != #[trigger] space@.letter(p2) by {
            assert(key_lt(dwords@, letters@[p1], letters@[p2]));
        }
        assert(space@.wf());
    }
    space
}

} // verus!
