//! Completeness of the search.
//!
//! Every five pairwise-disjoint dictionary words appear, in some order,
//! among the solutions of the unpruned engine — and, through pruning
//! soundness, of the fully pruned engine as well.  Together with the
//! engine's soundness this pins the solver's output down to exactly the
//! valid five-word combinations.

use vstd::prelude::*;

use crate::bits::{
    in_alphabet, lemma_alphabet_ops, lemma_bit_absorbed, lemma_bit_comm, lemma_has_letter,
    lemma_or_all_disjoint, lemma_or_all_member, lemma_or_all_remove, lemma_or_all_witness,
    lemma_or_and_split, lemma_or_assoc, lemma_or_keeps_bit, lemma_or_zero_iff, lemma_pc_all,
    lemma_pc_and_le, lemma_pc_disjoint, lemma_pc_grow, lemma_pc_single, lemma_pc_split,
    lemma_pc_zero, lemma_union_count, lemma_zero_ops, or_all, pairwise_disjoint, pc, ALL_LETTERS,
};
use crate::equiv::lemma_pruning_sound;
use crate::grouping::{
    anchors_of, group_words, has_letter_pred, is_space_for, sorted_letters, valid_dict,
};
use crate::search::{search, search_words, word_ok};
use crate::space::{SearchConfig, SpaceView};

verus! {

/// Letter `l` anchors some group at or after position `posn`.
pub open spec fn future_anchor(letters: Seq<u32>, posn: int, l: u32) -> bool {
    exists|q: int| posn <= q < 26 && letters[q] == l
}

/// The anchor letters at or after `posn` that lie outside `x`: the groups
/// the search could still be forced to skip.
pub open spec fn miss_mask(letters: Seq<u32>, posn: int, x: u32) -> u32
    decreases 26 - posn,
{
    if posn < 0 || posn >= 26 {
        0
    } else {
        (if x & (1u32 << letters[posn]) == 0 {
            1u32 << letters[posn]
        } else {
            0
        }) | miss_mask(letters, posn + 1, x)
    }
}

proof fn lemma_bits_eq(c: u32, l: u32)
    by (bit_vector)
    requires
        c < 32,
        l < 32,
        (1u32 << c) & (1u32 << l) != 0,
    ensures
        c == l,
{
}

proof fn lemma_covered_disjoint(a: u32, s: u32, b: u32)
    by (bit_vector)
    requires
        a & s == 0,
        b & !s == 0,
    ensures
        a & b == 0,
{
}

proof fn lemma_subset_bit(r: u32, rb: u32, b: u32)
    by (bit_vector)
    requires
        r & !rb == 0,
        r & b != 0,
    ensures
        rb & b != 0,
{
}

proof fn lemma_outside(mm: u32, rb: u32)
    by (bit_vector)
    requires
        mm & rb == 0,
        mm & 0x3ff_ffffu32 == mm,
    ensures
        mm & (0x3ff_ffffu32 & !rb) == mm,
{
}

/// The mask of potential skips avoids `x`, stays in the alphabet, and
/// holds only future anchor letters.
proof fn lemma_miss_mask_props(letters: Seq<u32>, posn: int, x: u32)
    requires
        0 <= posn <= 26,
        letters.len() == 26,
        forall|k: int| 0 <= k < 26 ==> #[trigger] letters[k] < 26,
    ensures
        miss_mask(letters, posn, x) & x == 0,
        in_alphabet(miss_mask(letters, posn, x)),
        forall|l: u32|
            l < 26 && #[trigger] (miss_mask(letters, posn, x) & (1u32 << l)) != 0 ==> future_anchor(
                letters,
                posn,
                l,
            ),
    decreases 26 - posn,
{
    if posn == 26 {
        lemma_zero_ops(x);
        lemma_zero_ops(ALL_LETTERS);
        assert forall|l: u32|
            l < 26 && #[trigger] (miss_mask(letters, posn, x) & (1u32 << l)) != 0 implies
            future_anchor(letters, posn, l) by {
            lemma_zero_ops(1u32 << l);
        }
    } else {
        lemma_miss_mask_props(letters, posn + 1, x);
        let c = letters[posn];
        let b = if x & (1u32 << c) == 0 {
            1u32 << c
        } else {
            0u32
        };
        let mm1 = miss_mask(letters, posn + 1, x);
        assert(miss_mask(letters, posn, x) == b | mm1);
        assert(b & x == 0) by {
            if x & (1u32 << c) == 0 {
                lemma_bit_comm(x, 1u32 << c);
            } else {
                lemma_zero_ops(x);
            }
        }
        assert((b | mm1) & x == 0) by {
            lemma_bit_comm(b, x);
            lemma_bit_comm(mm1, x);
            lemma_or_zero_iff(x, b, mm1);
            lemma_bit_comm(x, b | mm1);
        }
        assert(in_alphabet(b | mm1)) by {
            lemma_alphabet_ops(mm1, b, c);
            if b == 0 {
                lemma_zero_ops(mm1);
                lemma_bit_comm(mm1, b);
            } else {
                lemma_alphabet_ops(b, mm1, c);
            }
        }
        assert forall|l: u32|
            l < 26 && #[trigger] ((b | mm1) & (1u32 << l)) != 0 implies future_anchor(
            letters,
            posn,
            l,
        ) by {
            lemma_or_and_split(b, mm1, 1u32 << l);
            if b & (1u32 << l) != 0 {
                lemma_zero_ops(1u32 << l);
                assert(b == (1u32 << c));
                lemma_bits_eq(c, l);
                assert(letters[posn] == l);
            } else {
                assert(future_anchor(letters, posn + 1, l));
                let q = choose|q: int| posn + 1 <= q < 26 && letters[q] == l;
                assert(posn <= q < 26 && letters[q] == l);
            }
        }
    }
}

proof fn lemma_contains_left(a: Seq<Seq<u32>>, b: Seq<Seq<u32>>, x: Seq<u32>)
    requires
        a.contains(x),
    ensures
        (a + b).contains(x),
{
    let i = choose|i: int| 0 <= i < a.len() && a[i] == x;
    assert((a + b)[i] == x);
}

proof fn lemma_contains_right(a: Seq<Seq<u32>>, b: Seq<Seq<u32>>, x: Seq<u32>)
    requires
        b.contains(x),
    ensures
        (a + b).contains(x),
{
    let i = choose|i: int| 0 <= i < b.len() && b[i] == x;
    assert((a + b)[a.len() + i] == x);
}

/// A solution found after taking the candidate at index `iw` is among the
/// group's results from any earlier index.
proof fn lemma_words_contain(
    s: SpaceView,
    prefix: Seq<u32>,
    posn: int,
    j: int,
    iw: int,
    seen: u32,
    skipped: bool,
    x: Seq<u32>,
)
    requires
        0 <= posn < 26,
        0 <= j <= iw < s.words(posn).len(),
        word_ok(s, seen, s.words(posn)[iw], prefix.len() as int),
        search(s, prefix.push(s.words(posn)[iw]), posn + 1, seen | s.words(posn)[iw], skipped)
            .contains(x),
    ensures
        search_words(s, prefix, posn, j, seen, skipped).contains(x),
    decreases iw - j,
{
    let w = s.words(posn)[iw];
    if j == iw {
        lemma_contains_left(
            search(s, prefix.push(w), posn + 1, seen | w, skipped),
            search_words(s, prefix, posn, j + 1, seen, skipped),
            x,
        );
    } else {
        lemma_words_contain(s, prefix, posn, j + 1, iw, seen, skipped, x);
        let wj = s.words(posn)[j];
        let c = if word_ok(s, seen, wj, prefix.len() as int) {
            search(s, prefix.push(wj), posn + 1, seen | wj, skipped)
        } else {
            Seq::<Seq<u32>>::empty()
        };
        lemma_contains_right(c, search_words(s, prefix, posn, j + 1, seen, skipped), x);
    }
}

/// From any reachable state whose remaining words fit the space, the
/// search finds the completed solution in some order.
proof fn lemma_search_complete(
    sb: SpaceView,
    dict: Seq<u32>,
    prefix: Seq<u32>,
    rem: Seq<u32>,
    posn: int,
    seen: u32,
    skipped: bool,
)
    requires
        sb.wf(),
        valid_dict(dict),
        forall|p: int| 0 <= p < 26 ==> #[trigger] sb.words(p) == group_words(dict, sb.letter(p)),
        sb.pseudovowels == 0,
        sb.global_pseudovowels == 0,
        0 <= posn <= 26,
        prefix.len() + rem.len() == 5,
        forall|i: int|
            0 <= i < rem.len() ==> dict.contains(#[trigger] rem[i]) && rem[i] & seen == 0,
        pairwise_disjoint(rem),
        forall|l: u32|
            l < 26 && #[trigger] (or_all(rem) & (1u32 << l)) != 0 ==> future_anchor(
                anchors_of(sb),
                posn,
                l,
            ),
        pc(miss_mask(anchors_of(sb), posn, seen | or_all(rem))) <= (if skipped {
            0int
        } else {
            1int
        }),
    ensures
        exists|s2: Seq<u32>|
            s2.to_multiset() == (prefix + rem).to_multiset() && #[trigger] search(
                sb,
                prefix,
                posn,
                seen,
                skipped,
            ).contains(s2),
    decreases 26 - posn,
{
    broadcast use vstd::seq_lib::group_to_multiset_ensures;

    let letters = anchors_of(sb);
    assert forall|k: int| 0 <= k < 26 implies #[trigger] letters[k] < 26 by {
        assert(letters[k] == sb.letter(k));
    }
    let rb = or_all(rem);
    let x = seen | rb;
    lemma_or_all_disjoint(rem, seen);
    lemma_bit_comm(rb, seen);
    if rem.len() == 0 {
        let r = search(sb, prefix, posn, seen, skipped);
        assert(r == seq![prefix]);
        assert(r[0] == prefix);
        assert(r.contains(prefix));
        assert(prefix + rem =~= prefix);
    } else if posn == 26 {
        let r = rem[0];
        let di = choose|di: int| 0 <= di < dict.len() && dict[di] == r;
        lemma_pc_zero(r);
        lemma_has_letter(r);
        let l = choose|l: u32| l < 26 && #[trigger] (r & (1u32 << l)) != 0;
        lemma_or_all_member(rem, 0);
        lemma_subset_bit(r, rb, 1u32 << l);
        assert(future_anchor(letters, 26, l));
        let q = choose|q: int| 26 <= q < 26 && letters[q] == l;
        assert(false);
    } else {
        let c = sb.letter(posn);
        assert(letters[posn] == c);
        let bit = 1u32 << c;
        assert(prefix.len() < 5);
        let mm1 = miss_mask(letters, posn + 1, x);
        assert(miss_mask(letters, posn, x) == (if x & bit == 0 {
            bit
        } else {
            0u32
        }) | mm1);
        if seen & bit != 0 {
            // the group's anchor is already seen: the search scans past it
            assert(x & bit != 0) by {
                lemma_or_keeps_bit(seen, bit, rb);
            }
            assert(miss_mask(letters, posn, x) == 0u32 | mm1);
            lemma_zero_ops(mm1);
            assert forall|l: u32|
                l < 26 && #[trigger] (rb & (1u32 << l)) != 0 implies future_anchor(
                letters,
                posn + 1,
                l,
            ) by {
                assert(future_anchor(letters, posn, l));
                let q = choose|q: int| posn <= q < 26 && letters[q] == l;
                if q == posn {
                    lemma_bit_absorbed(seen, 0, c);
                    lemma_covered_disjoint(rb, seen, bit);
                    assert(false);
                }
            }
            lemma_search_complete(sb, dict, prefix, rem, posn + 1, seen, skipped);
            let s2 = choose|s2: Seq<u32>|
                s2.to_multiset() == (prefix + rem).to_multiset() && #[trigger] search(
                    sb,
                    prefix,
                    posn + 1,
                    seen,
                    skipped,
                ).contains(s2);
            assert(search(sb, prefix, posn, seen, skipped).contains(s2));
        } else if rb & bit != 0 {
            // a remaining word carries this anchor: the search takes it here
            lemma_or_all_witness(rem, bit);
            let idx = choose|idx: int| 0 <= idx < rem.len() && #[trigger] rem[idx] & bit != 0;
            let r = rem[idx];
            let rem2 = rem.remove(idx);
            rem.remove_ensures(idx);
            lemma_or_all_remove(rem, idx);
            let rb2 = or_all(rem2);
            assert(rb == rb2 | r);
            // the word sits in this group's candidate list
            let di = choose|di: int| 0 <= di < dict.len() && dict[di] == r;
            assert(has_letter_pred(c)(r));
            assert(group_words(dict, c).contains(r)) by {
                broadcast use vstd::seq_lib::group_filter_ensures;

            }
            assert(sb.words(posn).contains(r));
            let iw = choose|iw: int| 0 <= iw < sb.words(posn).len() && sb.words(posn)[iw] == r;
            assert(word_ok(sb, seen, r, prefix.len() as int)) by {
                lemma_bit_comm(seen, r);
            }
            // the anchor letter is exclusive to the taken word
            lemma_bit_absorbed(r, 0, c);
            assert forall|i: int| 0 <= i < rem2.len() implies #[trigger] rem2[i] & bit == 0 by {
                let oi = if i < idx {
                    i
                } else {
                    i + 1
                };
                assert(rem2[i] == rem[oi]);
                assert(rem[oi] & r == 0 || r & rem[oi] == 0) by {
                    if oi < idx {
                        assert(rem[oi] & rem[idx] == 0);
                    } else {
                        assert(rem[idx] & rem[oi] == 0);
                    }
                }
                lemma_bit_comm(r, rem2[i]);
                lemma_covered_disjoint(rem2[i], r, bit);
            }
            lemma_or_all_disjoint(rem2, bit);
            // conditions of the completed state
            assert forall|i: int| 0 <= i < rem2.len() implies dict.contains(#[trigger] rem2[i])
                && rem2[i] & (seen | r) == 0 by {
                let oi = if i < idx {
                    i
                } else {
                    i + 1
                };
                assert(rem2[i] == rem[oi]);
                assert(rem[oi] & r == 0 || r & rem[oi] == 0) by {
                    if oi < idx {
                        assert(rem[oi] & rem[idx] == 0);
                    } else {
                        assert(rem[idx] & rem[oi] == 0);
                    }
                }
                lemma_bit_comm(r, rem2[i]);
                lemma_or_zero_iff(rem2[i], seen, r);
            }
            assert(pairwise_disjoint(rem2)) by {
                assert forall|i: int, j: int| 0 <= i < j < rem2.len() implies rem2[i] & rem2[j]
                    == 0 by {
                    let oi = if i < idx {
                        i
                    } else {
                        i + 1
                    };
                    let oj = if j < idx {
                        j
                    } else {
                        j + 1
                    };
                    assert(rem2[i] == rem[oi] && rem2[j] == rem[oj] && oi < oj);
                }
            }
            assert forall|l: u32|
                l < 26 && #[trigger] (rb2 & (1u32 << l)) != 0 implies future_anchor(
                letters,
                posn + 1,
                l,
            ) by {
                lemma_or_keeps_bit(rb2, 1u32 << l, r);
                assert(rb & (1u32 << l) != 0);
                assert(future_anchor(letters, posn, l));
                let q = choose|q: int| posn <= q < 26 && letters[q] == l;
                if q == posn {
                    assert(rb2 & bit == 0);
                    assert(false);
                }
            }
            let x2 = (seen | r) | rb2;
            assert(x2 == x) by {
                lemma_or_assoc(seen, r, rb2);
                lemma_bit_comm(r, rb2);
            }
            assert(pc(mm1) <= pc(miss_mask(letters, posn, x))) by {
                lemma_pc_grow(
                    if x & bit == 0 {
                        bit
                    } else {
                        0u32
                    },
                    mm1,
                );
            }
            lemma_search_complete(sb, dict, prefix.push(r), rem2, posn + 1, seen | r, skipped);
            let s2 = choose|s2: Seq<u32>|
                s2.to_multiset() == (prefix.push(r) + rem2).to_multiset() && #[trigger] search(
                    sb,
                    prefix.push(r),
                    posn + 1,
                    seen | r,
                    skipped,
                ).contains(s2);
            lemma_words_contain(sb, prefix, posn, 0, iw, seen, skipped, s2);
            lemma_contains_left(
                search_words(sb, prefix, posn, 0, seen, skipped),
                if !skipped {
                    search(sb, prefix, posn + 1, seen, true)
                } else {
                    Seq::<Seq<u32>>::empty()
                },
                s2,
            );
            assert(search(sb, prefix, posn, seen, skipped).contains(s2));
            assert((prefix.push(r) + rem2).to_multiset() =~= (prefix + rem).to_multiset()) by {
                vstd::seq_lib::lemma_multiset_commutative(prefix.push(r), rem2);
                vstd::seq_lib::lemma_multiset_commutative(prefix, rem);
                assert(rem2.to_multiset() =~= rem.to_multiset().remove(r));
                assert(rem.contains(r));
                assert(rem.to_multiset().count(r) > 0);
                assert(prefix.push(r).to_multiset() =~= prefix.to_multiset().insert(r));
            }
        } else {
            // no remaining word carries this anchor: the skip is spent here
            assert(x & bit == 0) by {
                lemma_or_zero_iff(bit, seen, rb);
                lemma_bit_comm(seen, bit);
                lemma_bit_comm(rb, bit);
                lemma_bit_comm(bit, seen | rb);
            }
            assert(miss_mask(letters, posn, x) == bit | mm1);
            lemma_miss_mask_props(letters, posn + 1, x);
            assert(mm1 & bit == 0) by {
                if mm1 & bit != 0 {
                    lemma_bit_comm(mm1, bit);
                    assert(future_anchor(letters, posn + 1, c));
                    let q = choose|q: int| posn + 1 <= q < 26 && letters[q] == c;
                    assert(sb.letter(q) != sb.letter(posn));
                    assert(false);
                }
            }
            assert(pc(bit | mm1) == 1 + pc(mm1)) by {
                lemma_bit_comm(bit, mm1);
                lemma_pc_disjoint(bit, mm1);
                lemma_pc_single(c);
            }
            assert(!skipped);
            assert forall|l: u32|
                l < 26 && #[trigger] (rb & (1u32 << l)) != 0 implies future_anchor(
                letters,
                posn + 1,
                l,
            ) by {
                assert(future_anchor(letters, posn, l));
                let q = choose|q: int| posn <= q < 26 && letters[q] == l;
                if q == posn {
                    lemma_bit_comm(rb, bit);
                    assert(false);
                }
            }
            lemma_search_complete(sb, dict, prefix, rem, posn + 1, seen, true);
            let s2 = choose|s2: Seq<u32>|
                s2.to_multiset() == (prefix + rem).to_multiset() && #[trigger] search(
                    sb,
                    prefix,
                    posn + 1,
                    seen,
                    true,
                ).contains(s2);
            lemma_contains_right(
                search_words(sb, prefix, posn, 0, seen, skipped),
                search(sb, prefix, posn + 1, seen, true),
                s2,
            );
            assert(search(sb, prefix, posn, seen, skipped).contains(s2));
        }
    }
}

/// Completeness: the unpruned engine reports every combination of five
/// pairwise-disjoint dictionary words, in some order.
pub proof fn lemma_search_finds_all(
    sb: SpaceView,
    dict: Seq<u32>,
    cfg: SearchConfig,
    sol: Seq<u32>,
)
    requires
        valid_dict(dict),
        sb.wf(),
        is_space_for(sb, dict, cfg),
        !cfg.prune_groups,
        !cfg.use_local_pseudovowels,
        !cfg.use_global_pseudovowels,
        sol.len() == 5,
        pairwise_disjoint(sol),
        forall|i: int| 0 <= i < sol.len() ==> dict.contains(#[trigger] sol[i]),
    ensures
        exists|s2: Seq<u32>|
            s2.to_multiset() == sol.to_multiset() && #[trigger] search(
                sb,
                Seq::empty(),
                0,
                0,
                false,
            ).contains(s2),
{
    let letters = anchors_of(sb);
    let rb = or_all(sol);
    assert forall|i: int| 0 <= i < sol.len() implies dict.contains(#[trigger] sol[i]) && sol[i] & 0
        == 0 by {
        lemma_zero_ops(sol[i]);
    }
    assert forall|l: u32|
        l < 26 && #[trigger] (rb & (1u32 << l)) != 0 implies future_anchor(letters, 0, l) by {
        assert(letters.contains(l));
        let q = choose|q: int| 0 <= q < letters.len() && letters[q] == l;
        assert(0 <= q < 26 && letters[q] == l);
    }
    assert forall|i: int| 0 <= i < sol.len() implies pc(#[trigger] sol[i]) == 5 && in_alphabet(
        sol[i],
    ) by {
        let di = choose|di: int| 0 <= di < dict.len() && dict[di] == sol[i];
    }
    lemma_union_count(sol);
    crate::bits::lemma_or_all_alphabet(sol);
    lemma_zero_ops(rb);
    assert(0u32 | rb == rb);
    lemma_miss_mask_props(letters, 0, rb);
    let mm = miss_mask(letters, 0, rb);
    assert(pc(mm) <= 1) by {
        lemma_outside(mm, rb);
        lemma_pc_and_le(mm, ALL_LETTERS & !rb);
        lemma_pc_split(ALL_LETTERS, rb);
        lemma_pc_all();
        lemma_bit_comm(ALL_LETTERS, rb);
    }
    lemma_search_complete(sb, dict, Seq::empty(), sol, 0, 0, false);
    let s2 = choose|s2: Seq<u32>|
        s2.to_multiset() == (Seq::<u32>::empty() + sol).to_multiset() && #[trigger] search(
            sb,
            Seq::empty(),
            0,
            0,
            false,
        ).contains(s2);
    assert(Seq::<u32>::empty() + sol =~= sol);
}

/// Every word of every reported solution is a dictionary word, whichever
/// pruning configuration built the space.
pub proof fn lemma_solutions_from_dict(s: SpaceView, dict: Seq<u32>, cfg: SearchConfig)
    requires
        s.wf(),
        valid_dict(dict),
        is_space_for(s, dict, cfg),
    ensures
        forall|k: int, i: int|
            0 <= k < search(s, Seq::empty(), 0, 0, false).len() && 0 <= i < 5 ==> dict.contains(
                #[trigger] search(s, Seq::empty(), 0, 0, false)[k][i],
            ),
{
    crate::search::lemma_search_sound(s, Seq::empty(), 0, 0, false);
    let r = search(s, Seq::empty(), 0, 0, false);
    assert forall|k: int, i: int| 0 <= k < r.len() && 0 <= i < 5 implies dict.contains(
        #[trigger] r[k][i],
    ) by {
        assert(crate::search::sound_from(s, Seq::empty(), 0, r[k]));
        let w = r[k][i];
        assert(s.has_word(w));
        let p = choose|p: int| 0 <= p < 26 && #[trigger] s.words(p).contains(w);
        let c = s.letter(p);
        if cfg.prune_groups {
            crate::seqs::lemma_filter_is_subset(
                group_words(dict, c),
                crate::grouping::keep_pred(
                    crate::grouping::anchor_mask(anchors_of(s), p),
                ),
            );
        }
        assert(group_words(dict, c).contains(w));
        crate::seqs::lemma_filter_is_subset(dict, has_letter_pred(c));
    }
}

/// Completeness carries over to the fully pruned engine: pruning removes
/// no valid combination.
pub proof fn lemma_pruned_finds_all(
    sp: SpaceView,
    sb: SpaceView,
    dict: Seq<u32>,
    cfg_pruned: SearchConfig,
    cfg_brute: SearchConfig,
    sol: Seq<u32>,
)
    requires
        valid_dict(dict),
        sp.wf(),
        sb.wf(),
        is_space_for(sp, dict, cfg_pruned),
        is_space_for(sb, dict, cfg_brute),
        cfg_pruned.prune_groups,
        !cfg_brute.prune_groups,
        !cfg_brute.use_local_pseudovowels,
        !cfg_brute.use_global_pseudovowels,
        sol.len() == 5,
        pairwise_disjoint(sol),
        forall|i: int| 0 <= i < sol.len() ==> dict.contains(#[trigger] sol[i]),
    ensures
        exists|s2: Seq<u32>|
            s2.to_multiset() == sol.to_multiset() && #[trigger] search(
                sp,
                Seq::empty(),
                0,
                0,
                false,
            ).contains(s2),
{
    lemma_pruning_sound(sp, sb, dict, cfg_pruned, cfg_brute);
    lemma_search_finds_all(sb, dict, cfg_brute, sol);
    let s2 = choose|s2: Seq<u32>|
        s2.to_multiset() == sol.to_multiset() && #[trigger] search(
            sb,
            Seq::empty(),
            0,
            0,
            false,
        ).contains(s2);
    assert(search(sp, Seq::empty(), 0, 0, false).contains(s2));
}

} // verus!
