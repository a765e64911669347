//! Pruning soundness.
//!
//! The engine run on a fully pruned space — seen-letters group pruning and
//! both pseudovowel checks — produces exactly the solutions of the engine
//! run on the unpruned space with every check disabled.  Both prunings are
//! admissible: they only cut branches that cannot reach a solution.

use vstd::prelude::*;

use crate::bits::{
    lemma_bit_absorbed, lemma_bit_comm, lemma_or_mask_drop, lemma_or_mask_split, lemma_meet_outside,
    lemma_pc_and_le, lemma_pc_disjoint, lemma_pc_single, lemma_shrink_seen, lemma_zero_ops, pc,
};
use crate::grouping::{
    anchor_mask, anchors_of, group_words, has_letter_pred, hits_all, is_space_for, keep_pred,
    lemma_anchor_mask_bit, lemma_sorted_unique, valid_dict,
};
use crate::search::{lemma_budget_empty, pv_ok, search, search_words, word_ok};
use crate::seqs::{lemma_filter_is_subset, lemma_filter_single};
use crate::space::{SearchConfig, SpaceView};

verus! {

/// The seen-letters invariant of reachable search states: of the anchors of
/// the groups already passed, at most one is missing from the seen set —
/// none while the skip is unspent.
pub open spec fn scan_inv(s: SpaceView, posn: int, seen: u32, skipped: bool) -> bool {
    pc(anchor_mask(anchors_of(s), posn) & !seen) <= (if skipped {
        1int
    } else {
        0int
    })
}

/// A pruned space and the brute-force space of the same dictionary: same
/// group order, candidate lists pruned versus plain, pseudovowel sets that
/// hit every dictionary word versus none at all.
pub open spec fn related_spaces(sp: SpaceView, sb: SpaceView, dict: Seq<u32>) -> bool {
    &&& sp.wf()
    &&& sb.wf()
    &&& valid_dict(dict)
    &&& anchors_of(sp) == anchors_of(sb)
    &&& forall|p: int| 0 <= p < 26 ==> #[trigger] sb.words(p) == group_words(dict, sb.letter(p))
    &&& forall|p: int|
        0 <= p < 26 ==> #[trigger] sp.words(p) == group_words(dict, sp.letter(p)).filter(
            keep_pred(anchor_mask(anchors_of(sp), p)),
        )
    &&& sp.pseudovowels != 0 ==> hits_all(sp.pseudovowels, dict)
    &&& sp.global_pseudovowels != 0 ==> hits_all(sp.global_pseudovowels, dict)
    &&& sb.pseudovowels == 0
    &&& sb.global_pseudovowels == 0
}

/// A hitting set over the dictionary hits every word the brute space offers.
proof fn lemma_sb_words_hit(sb: SpaceView, dict: Seq<u32>, hitter: u32)
    requires
        forall|p: int| 0 <= p < 26 ==> #[trigger] sb.words(p) == group_words(dict, sb.letter(p)),
        hits_all(hitter, dict),
    ensures
        forall|x: u32| sb.has_word(x) ==> x & hitter != 0,
{
    assert forall|x: u32| sb.has_word(x) implies x & hitter != 0 by {
        let p = choose|p: int| 0 <= p < 26 && #[trigger] sb.words(p).contains(x);
        let j = choose|j: int| 0 <= j < sb.words(p).len() && sb.words(p)[j] == x;
        lemma_filter_is_subset(dict, has_letter_pred(sb.letter(p)));
        assert(group_words(dict, sb.letter(p))[j] == x);
        assert(dict.contains(x));
        let di = choose|di: int| 0 <= di < dict.len() && dict[di] == x;
        assert(dict[di] & hitter != 0);
    }
}

/// Passing a group whose anchor is already seen preserves the invariant.
proof fn lemma_inv_scan(s: SpaceView, posn: int, seen: u32, skipped: bool)
    requires
        s.wf(),
        scan_inv(s, posn, seen, skipped),
        0 <= posn < 26,
        seen & (1u32 << s.letter(posn)) != 0,
    ensures
        scan_inv(s, posn + 1, seen, skipped),
{
    let letters = anchors_of(s);
    let m = anchor_mask(letters, posn);
    let c = s.letter(posn);
    assert(letters[posn] == c);
    lemma_bit_absorbed(seen, 0, c);
    lemma_or_mask_drop(m, 1u32 << c, seen);
}

/// Taking a word of the group preserves the invariant: the word carries the
/// group's anchor into the seen set.
proof fn lemma_inv_take(s: SpaceView, posn: int, seen: u32, skipped: bool, w: u32)
    requires
        s.wf(),
        scan_inv(s, posn, seen, skipped),
        0 <= posn < 26,
        w & (1u32 << s.letter(posn)) != 0,
    ensures
        scan_inv(s, posn + 1, seen | w, skipped),
{
    let letters = anchors_of(s);
    let m = anchor_mask(letters, posn);
    let c = s.letter(posn);
    assert(letters[posn] == c);
    lemma_bit_absorbed(seen, w, c);
    lemma_or_mask_drop(m, 1u32 << c, seen | w);
    lemma_shrink_seen(m, seen, w);
    lemma_bit_comm(m & !seen, !w);
    lemma_pc_and_le(!w, m & !seen);
}

/// Spending the skip on a group adds at most its one anchor to the missing
/// letters.
proof fn lemma_inv_skip(s: SpaceView, posn: int, seen: u32)
    requires
        s.wf(),
        scan_inv(s, posn, seen, false),
        0 <= posn < 26,
    ensures
        scan_inv(s, posn + 1, seen, true),
{
    let letters = anchors_of(s);
    let m = anchor_mask(letters, posn);
    let c = s.letter(posn);
    assert(letters[posn] == c);
    assert forall|k: int| 0 <= k < letters.len() implies #[trigger] letters[k] < 26 by {
        assert(letters[k] == s.letter(k));
    }
    lemma_anchor_mask_bit(letters, posn, c);
    assert(m & (1u32 << c) == 0) by {
        if m & (1u32 << c) != 0 {
            let r = choose|r: int| 0 <= r < posn && letters[r] == c;
            assert(s.letter(r) != s.letter(posn));
        }
    }
    lemma_or_mask_split(m, 1u32 << c, seen);
    lemma_pc_disjoint(m & !seen, (1u32 << c) & !seen);
    lemma_bit_comm(1u32 << c, !seen);
    lemma_pc_and_le(!seen, 1u32 << c);
    lemma_pc_single(c);
}

/// A word sharing two letters with the passed anchors cannot pass the
/// disjointness check: group pruning removes only doomed candidates.
proof fn lemma_prune_reject(w: u32, m: u32, seen: u32)
    requires
        pc(w & m) >= 2,
        pc(m & !seen) <= 1,
    ensures
        w & seen != 0,
{
    if w & seen == 0 {
        lemma_meet_outside(w, m, seen);
        lemma_pc_and_le(w, m & !seen);
        assert(false);
    }
}

/// The search on the pruned space equals the search on the brute space,
/// state for state, on every state satisfying the seen-letters invariant.
pub proof fn lemma_search_equiv(
    sp: SpaceView,
    sb: SpaceView,
    dict: Seq<u32>,
    prefix: Seq<u32>,
    posn: int,
    seen: u32,
    skipped: bool,
)
    requires
        related_spaces(sp, sb, dict),
        0 <= posn <= 26,
        prefix.len() <= 5,
        scan_inv(sp, posn, seen, skipped),
    ensures
        search(sp, prefix, posn, seen, skipped) == search(sb, prefix, posn, seen, skipped),
    decreases 26 - posn, 1int, 0int,
{
    if prefix.len() == 5 {
    } else if posn >= 26 {
    } else {
        let c = sp.letter(posn);
        assert(anchors_of(sp)[posn] == c && anchors_of(sb)[posn] == sb.letter(posn));
        assert(sb.letter(posn) == c);
        if seen & (1u32 << c) != 0 {
            lemma_inv_scan(sp, posn, seen, skipped);
            lemma_search_equiv(sp, sb, dict, prefix, posn + 1, seen, skipped);
        } else {
            assert(sp.words(posn).skip(0) =~= sp.words(posn));
            assert(sb.words(posn).skip(0) =~= sb.words(posn));
            lemma_words_equiv(sp, sb, dict, prefix, posn, 0, 0, seen, skipped);
            if !skipped {
                lemma_inv_skip(sp, posn, seen);
                lemma_search_equiv(sp, sb, dict, prefix, posn + 1, seen, true);
            }
        }
    }
}

proof fn lemma_words_equiv(
    sp: SpaceView,
    sb: SpaceView,
    dict: Seq<u32>,
    prefix: Seq<u32>,
    posn: int,
    i: int,
    j: int,
    seen: u32,
    skipped: bool,
)
    requires
        related_spaces(sp, sb, dict),
        0 <= posn < 26,
        prefix.len() < 5,
        scan_inv(sp, posn, seen, skipped),
        0 <= i <= sp.words(posn).len(),
        0 <= j <= sb.words(posn).len(),
        sp.words(posn).skip(i) == sb.words(posn).skip(j).filter(
            keep_pred(anchor_mask(anchors_of(sp), posn)),
        ),
    ensures
        search_words(sp, prefix, posn, i, seen, skipped) == search_words(
            sb,
            prefix,
            posn,
            j,
            seen,
            skipped,
        ),
    decreases 26 - posn, 0int, sb.words(posn).len() - j,
{
    let m = anchor_mask(anchors_of(sp), posn);
    let n = prefix.len() as int;
    if j >= sb.words(posn).len() {
        assert(sb.words(posn).skip(j) =~= Seq::<u32>::empty());
        assert(Seq::<u32>::empty().filter(keep_pred(m)) =~= Seq::<u32>::empty()) by {
            reveal(Seq::filter);
        }
        assert(sp.words(posn).skip(i).len() == 0);
        assert(i >= sp.words(posn).len());
    } else {
        let w = sb.words(posn)[j];
        let rest = sb.words(posn).skip(j + 1);
        assert(sb.words(posn).skip(j) =~= seq![w] + rest);
        Seq::filter_distributes_over_add(seq![w], rest, keep_pred(m));
        lemma_filter_single(w, keep_pred(m));
        if keep_pred(m)(w) {
            assert(sp.words(posn).skip(i) == seq![w] + rest.filter(keep_pred(m)));
            assert(sp.words(posn).skip(i).len() >= 1);
            assert(i < sp.words(posn).len());
            assert(sp.words(posn)[i] == w) by {
                assert(sp.words(posn).skip(i)[0] == sp.words(posn)[i]);
                assert((seq![w] + rest.filter(keep_pred(m)))[0] == w);
            }
            assert(sp.words(posn).skip(i + 1) =~= rest.filter(keep_pred(m))) by {
                assert(forall|x: int|
                    0 <= x < sp.words(posn).skip(i + 1).len() ==> #[trigger] sp.words(posn).skip(
                        i + 1,
                    )[x] == sp.words(posn).skip(i)[x + 1]);
            }
            assert(word_ok(sb, seen, w, n) == (seen & w == 0));
            if seen & w == 0 {
                if pv_ok(sp.pseudovowels, seen, w, n) && pv_ok(sp.global_pseudovowels, seen, w, n) {
                    lemma_inv_take(sp, posn, seen, skipped, w);
                    lemma_search_equiv(sp, sb, dict, prefix.push(w), posn + 1, seen | w, skipped);
                } else {
                    if !pv_ok(sp.pseudovowels, seen, w, n) {
                        lemma_sb_words_hit(sb, dict, sp.pseudovowels);
                        lemma_budget_empty(
                            sb,
                            sp.pseudovowels,
                            prefix.push(w),
                            posn + 1,
                            seen | w,
                            skipped,
                        );
                    } else {
                        lemma_sb_words_hit(sb, dict, sp.global_pseudovowels);
                        lemma_budget_empty(
                            sb,
                            sp.global_pseudovowels,
                            prefix.push(w),
                            posn + 1,
                            seen | w,
                            skipped,
                        );
                    }
                }
            }
            lemma_words_equiv(sp, sb, dict, prefix, posn, i + 1, j + 1, seen, skipped);
        } else {
            assert(pc(w & m) >= 2);
            lemma_prune_reject(w, m, seen);
            lemma_bit_comm(w, seen);
            assert(!word_ok(sb, seen, w, n));
            assert(sp.words(posn).skip(i) == rest.filter(keep_pred(m))) by {
                assert(Seq::<u32>::empty() + rest.filter(keep_pred(m)) =~= rest.filter(
                    keep_pred(m),
                ));
            }
            lemma_words_equiv(sp, sb, dict, prefix, posn, i, j + 1, seen, skipped);
        }
    }
}

/// Pruning soundness: for any dictionary, the engine on the space built
/// with seen-letters pruning and pseudovowel pruning enabled finds exactly
/// the solutions of the engine on the space with all pruning disabled.
pub proof fn lemma_pruning_sound(
    sp: SpaceView,
    sb: SpaceView,
    dict: Seq<u32>,
    cfg_pruned: SearchConfig,
    cfg_brute: SearchConfig,
)
    requires
        valid_dict(dict),
        sp.wf(),
        sb.wf(),
        is_space_for(sp, dict, cfg_pruned),
        is_space_for(sb, dict, cfg_brute),
        cfg_pruned.prune_groups,
        !cfg_brute.prune_groups,
        !cfg_brute.use_local_pseudovowels,
        !cfg_brute.use_global_pseudovowels,
    ensures
        search(sp, Seq::empty(), 0, 0, false) == search(sb, Seq::empty(), 0, 0, false),
{
    lemma_sorted_unique(dict, anchors_of(sp), anchors_of(sb));
    assert(related_spaces(sp, sb, dict));
    assert(scan_inv(sp, 0, 0, false)) by {
        lemma_zero_ops(!0u32);
    }
    lemma_search_equiv(sp, sb, dict, Seq::empty(), 0, 0, false);
}

} // verus!
