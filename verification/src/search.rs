//! The backtracking search engine.
//!
//! [`search`] and [`search_words`] are the mathematical mirror of the
//! recursive enumeration; [`solvify`] is the executable engine, proved to
//! produce exactly the solutions the mirror describes, in the same order.

use vstd::prelude::*;

use crate::bits::{
    lemma_and_or_zero, lemma_bit_comm, lemma_hitting_budget, lemma_mask_avoid, lemma_pc_and_le,
    lemma_pc_split, lemma_pc_zero, lemma_union_count, or_all, pairwise_disjoint, pc,
};
use crate::space::{LetterSpace, SpaceView};

verus! {

/// The pseudovowel feasibility test: after tentatively adding `word` to a
/// partial solution of `count` words, the remaining `4 - count` slots each
/// need an untouched letter of the pseudovowel set `p` (0 means no set).
pub open spec fn pv_ok(p: u32, seen: u32, word: u32, count: int) -> bool {
    p == 0 || pc(p) - pc((seen | word) & p) >= 4 - count
}

/// Whether the engine branches into candidate `w` at a state with `seen`
/// letters and `count` chosen words.
pub open spec fn word_ok(s: SpaceView, seen: u32, w: u32, count: int) -> bool {
    &&& seen & w == 0
    &&& pv_ok(s.pseudovowels, seen, w, count)
    &&& pv_ok(s.global_pseudovowels, seen, w, count)
}

/// Solutions produced by the search from a given state, in discovery order.
/// `prefix` holds the words already chosen, `seen` their letters, and
/// `skipped` whether the single permitted letter skip is spent.
pub open spec fn search(s: SpaceView, prefix: Seq<u32>, posn: int, seen: u32, skipped: bool) -> Seq<
    Seq<u32>,
>
    decreases 26 - posn, 1int, 0int,
{
    if prefix.len() == 5 {
        seq![prefix]
    } else if posn < 0 || posn >= 26 {
        Seq::empty()
    } else if seen & (1u32 << s.letter(posn)) != 0 {
        search(s, prefix, posn + 1, seen, skipped)
    } else {
        search_words(s, prefix, posn, 0, seen, skipped) + if !skipped {
            search(s, prefix, posn + 1, seen, true)
        } else {
            Seq::empty()
        }
    }
}

/// Solutions contributed by the candidates of group `posn` from index `i` on.
pub open spec fn search_words(
    s: SpaceView,
    prefix: Seq<u32>,
    posn: int,
    i: int,
    seen: u32,
    skipped: bool,
) -> Seq<Seq<u32>>
    decreases 26 - posn, 0int, s.words(posn).len() - i,
{
    if posn < 0 || posn >= 26 || i < 0 || i >= s.words(posn).len() {
        Seq::empty()
    } else {
        let w = s.words(posn)[i];
        (if word_ok(s, seen, w, prefix.len() as int) {
            search(s, prefix.push(w), posn + 1, seen | w, skipped)
        } else {
            Seq::empty()
        }) + search_words(s, prefix, posn, i + 1, seen, skipped)
    }
}

/// Views of a list of solutions.
pub open spec fn sol_views(s: Seq<Vec<u32>>) -> Seq<Seq<u32>> {
    s.map_values(|v: Vec<u32>| v@)
}

proof fn lemma_sol_views_push(s: Seq<Vec<u32>>, v: Vec<u32>)
    ensures
        sol_views(s.push(v)) == sol_views(s).push(v@),
{
    assert(sol_views(s.push(v)) =~= sol_views(s).push(v@));
}

/// Solution views distribute over concatenation.
pub proof fn lemma_sol_views_add(a: Seq<Vec<u32>>, b: Seq<Vec<u32>>)
    ensures
        sol_views(a + b) == sol_views(a) + sol_views(b),
{
    assert(sol_views(a + b) =~= sol_views(a) + sol_views(b));
}

/// Scanning past groups whose anchor is already seen does not change the
/// outcome of the search.
pub proof fn lemma_scan(s: SpaceView, prefix: Seq<u32>, posn: int, p: int, seen: u32, skipped: bool)
    requires
        0 <= posn <= p <= 26,
        prefix.len() != 5,
        forall|q: int| posn <= q < p ==> seen & (1u32 << #[trigger] s.letter(q)) != 0,
    ensures
        search(s, prefix, posn, seen, skipped) == search(s, prefix, p, seen, skipped),
    decreases p - posn,
{
    if posn < p {
        lemma_scan(s, prefix, posn + 1, p, seen, skipped);
    }
}

fn clone_solution(v: &Vec<u32>) -> (r: Vec<u32>)
    ensures
        r@ == v@,
{
    let mut r: Vec<u32> = Vec::new();
    let mut i: usize = 0;
    while i < v.len()
        invariant
            i <= v@.len(),
            r@ == v@.take(i as int),
        decreases v@.len() - i,
    {
        r.push(v[i]);
        proof {
            assert(r@ =~= v@.take(i + 1));
        }
        i = i + 1;
    }
    proof {
        assert(v@.take(v@.len() as int) =~= v@);
    }
    r
}

/// What it means for a single solution to be valid: five pairwise-disjoint
/// words whose union covers exactly 25 letters.
pub open spec fn solution_ok(sol: Seq<u32>) -> bool {
    &&& sol.len() == 5
    &&& pairwise_disjoint(sol)
    &&& pc(or_all(sol)) == 25
}

/// Structural soundness of a solution found from a given state: it extends
/// the chosen prefix with words of the space that avoid the seen letters and
/// each other.
pub open spec fn sound_from(s: SpaceView, prefix: Seq<u32>, seen: u32, sol: Seq<u32>) -> bool {
    &&& sol.len() == 5
    &&& prefix.len() <= 5
    &&& forall|i: int| 0 <= i < prefix.len() ==> #[trigger] sol[i] == prefix[i]
    &&& forall|i: int|
        prefix.len() <= i < 5 ==> s.has_word(#[trigger] sol[i]) && sol[i] & seen == 0
    &&& forall|i: int, j: int|
        prefix.len() <= i < j < 5 ==> #[trigger] sol[i] & #[trigger] sol[j] == 0
}

/// Every solution the search finds is a sound extension of its start state.
pub proof fn lemma_search_sound(s: SpaceView, prefix: Seq<u32>, posn: int, seen: u32, skipped: bool)
    requires
        prefix.len() <= 5,
    ensures
        forall|k: int|
            0 <= k < search(s, prefix, posn, seen, skipped).len() ==> sound_from(
                s,
                prefix,
                seen,
                #[trigger] search(s, prefix, posn, seen, skipped)[k],
            ),
    decreases 26 - posn, 1int, 0int,
{
    if prefix.len() == 5 {
        let r = search(s, prefix, posn, seen, skipped);
        assert(r == seq![prefix]);
        assert(r[0] == prefix);
        assert(sound_from(s, prefix, seen, prefix));
        assert(forall|k: int|
            0 <= k < r.len() ==> sound_from(s, prefix, seen, #[trigger] r[k]));
    } else if posn < 0 || posn >= 26 {
        assert(search(s, prefix, posn, seen, skipped).len() == 0);
    } else if seen & (1u32 << s.letter(posn)) != 0 {
        lemma_search_sound(s, prefix, posn + 1, seen, skipped);
        assert(search(s, prefix, posn, seen, skipped) == search(s, prefix, posn + 1, seen, skipped));
    } else {
        lemma_words_sound(s, prefix, posn, 0, seen, skipped);
        if !skipped {
            lemma_search_sound(s, prefix, posn + 1, seen, true);
        }
        let a = search_words(s, prefix, posn, 0, seen, skipped);
        let b = if !skipped {
            search(s, prefix, posn + 1, seen, true)
        } else {
            Seq::<Seq<u32>>::empty()
        };
        assert forall|k: int| 0 <= k < (a + b).len() implies sound_from(
            s,
            prefix,
            seen,
            #[trigger] (a + b)[k],
        ) by {
            if k < a.len() {
                assert((a + b)[k] == a[k]);
            } else {
                assert((a + b)[k] == b[k - a.len()]);
            }
        }
        assert(search(s, prefix, posn, seen, skipped) == a + b);
    }
}

proof fn lemma_words_sound(s: SpaceView, prefix: Seq<u32>, posn: int, i: int, seen: u32, skipped: bool)
    requires
        prefix.len() < 5,
    ensures
        forall|k: int|
            0 <= k < search_words(s, prefix, posn, i, seen, skipped).len() ==> sound_from(
                s,
                prefix,
                seen,
                #[trigger] search_words(s, prefix, posn, i, seen, skipped)[k],
            ),
    decreases 26 - posn, 0int, s.words(posn).len() - i,
{
    if posn < 0 || posn >= 26 || i < 0 || i >= s.words(posn).len() {
    } else {
        let w = s.words(posn)[i];
        let n = prefix.len() as int;
        lemma_words_sound(s, prefix, posn, i + 1, seen, skipped);
        if word_ok(s, seen, w, n) {
            lemma_search_sound(s, prefix.push(w), posn + 1, seen | w, skipped);
            let sub = search(s, prefix.push(w), posn + 1, seen | w, skipped);
            assert forall|k: int| 0 <= k < sub.len() implies sound_from(
                s,
                prefix,
                seen,
                #[trigger] sub[k],
            ) by {
                let sol = sub[k];
                assert(sound_from(s, prefix.push(w), seen | w, sol));
                assert(s.words(posn).contains(w));
                assert(sol[n] == prefix.push(w)[n]);
                assert(sol[n] == w);
                assert(forall|x: int| 0 <= x < n ==> #[trigger] sol[x] == prefix.push(w)[x]);
                assert forall|x: int| n <= x < 5 implies s.has_word(#[trigger] sol[x]) && sol[x]
                    & seen == 0 by {
                    if x == n {
                        assert(s.has_word(w));
                        lemma_bit_comm(seen, w);
                    } else {
                        lemma_and_or_zero(sol[x], seen, w);
                    }
                }
                assert forall|x: int, y: int| n <= x < y < 5 implies #[trigger] sol[x]
                    & #[trigger] sol[y] == 0 by {
                    if x == n {
                        lemma_and_or_zero(sol[y], seen, w);
                        lemma_bit_comm(sol[y], w);
                    }
                }
            }
        }
        let c = if word_ok(s, seen, w, n) {
            search(s, prefix.push(w), posn + 1, seen | w, skipped)
        } else {
            Seq::<Seq<u32>>::empty()
        };
        let rest = search_words(s, prefix, posn, i + 1, seen, skipped);
        assert forall|k: int| 0 <= k < (c + rest).len() implies sound_from(
            s,
            prefix,
            seen,
            #[trigger] (c + rest)[k],
        ) by {
            if k < c.len() {
                assert((c + rest)[k] == c[k]);
            } else {
                assert((c + rest)[k] == rest[k - c.len()]);
            }
        }
        assert(search_words(s, prefix, posn, i, seen, skipped) == c + rest);
    }
}

/// Every solution of a well-formed space is five pairwise-disjoint
/// five-letter words covering exactly 25 letters.
pub proof fn lemma_solutions_valid(s: SpaceView, prefix: Seq<u32>, posn: int, seen: u32, skipped: bool)
    requires
        s.wf(),
        prefix.len() == 0,
    ensures
        forall|k: int|
            0 <= k < search(s, prefix, posn, seen, skipped).len() ==> solution_ok(
                #[trigger] search(s, prefix, posn, seen, skipped)[k],
            ),
{
    lemma_search_sound(s, prefix, posn, seen, skipped);
    let r = search(s, prefix, posn, seen, skipped);
    assert forall|k: int| 0 <= k < r.len() implies solution_ok(#[trigger] r[k]) by {
        let sol = r[k];
        assert(sound_from(s, prefix, seen, sol));
        assert forall|x: int| 0 <= x < 5 implies pc(#[trigger] sol[x]) == 5 by {
            assert(s.has_word(sol[x]));
            let p = choose|p: int| 0 <= p < 26 && #[trigger] s.words(p).contains(sol[x]);
            let j = choose|j: int| 0 <= j < s.words(p).len() && s.words(p)[j] == sol[x];
            assert(s.words(p)[j] == sol[x]);
        }
        lemma_union_count(sol);
    }
}

/// When too few letters of a hitting set remain untouched, no solution can
/// be completed: the branch is provably barren.  This is the soundness of
/// pseudovowel pruning.
pub proof fn lemma_budget_empty(
    s: SpaceView,
    hitter: u32,
    prefix: Seq<u32>,
    posn: int,
    seen: u32,
    skipped: bool,
)
    requires
        prefix.len() <= 5,
        hitter != 0,
        forall|w: u32| s.has_word(w) ==> w & hitter != 0,
        pc(hitter) - pc(seen & hitter) < 5 - prefix.len(),
    ensures
        search(s, prefix, posn, seen, skipped) == Seq::<Seq<u32>>::empty(),
{
    let r = search(s, prefix, posn, seen, skipped);
    lemma_search_sound(s, prefix, posn, seen, skipped);
    lemma_pc_and_le(seen, hitter);
    lemma_bit_comm(hitter, seen);
    if r.len() > 0 {
        let sol = r[0];
        assert(sound_from(s, prefix, seen, sol));
        let n = prefix.len() as int;
        let ext = sol.subrange(n, 5);
        let avail = hitter & !seen;
        assert forall|x: int| 0 <= x < ext.len() implies #[trigger] ext[x] & avail != 0 by {
            assert(ext[x] == sol[n + x]);
            lemma_mask_avoid(sol[n + x], seen, hitter);
            assert(sol[n + x] & (hitter & !seen) == sol[n + x] & hitter);
            assert(sol[n + x] & hitter != 0) by {
                lemma_and_comm_nonzero(sol[n + x], hitter);
            }
        }
        assert(pairwise_disjoint(ext)) by {
            assert forall|x: int, y: int| 0 <= x < y < ext.len() implies ext[x] & ext[y] == 0 by {
                assert(ext[x] == sol[n + x] && ext[y] == sol[n + y]);
            }
        }
        lemma_hitting_budget(ext, avail);
        lemma_pc_split(hitter, seen);
        assert(false);
    }
    assert(r =~= Seq::<Seq<u32>>::empty());
}

proof fn lemma_and_comm_nonzero(a: u32, b: u32)
    ensures
        (a & b != 0) == (b & a != 0),
{
    lemma_bit_comm(a, b);
}

/// The recursive backtracking step.  Ensures exactly one word of each
/// not-yet-skipped letter group joins the solution, allowing the one
/// permitted skip, and appends every solution reachable from this state to
/// `solns` — no more, no fewer, in discovery order.
#[verifier::loop_isolation(false)]
pub fn solvify(
    space: &LetterSpace,
    cur: &mut Vec<u32>,
    solns: &mut Vec<Vec<u32>>,
    posn: usize,
    count: usize,
    seen: u32,
    skipped: bool,
)
    requires
        space@.wf(),
        old(cur)@.len() == count,
        count <= 5,
    ensures
        final(cur)@ == old(cur)@,
        sol_views(final(solns)@) == sol_views(old(solns)@) + search(
            space@,
            old(cur)@,
            posn as int,
            seen,
            skipped,
        ),
    decreases 26 - posn,
{
    let ghost prefix = cur@;
    let ghost solns0 = solns@;

    // A complete solution: record it and end this branch.
    if count == 5 {
        let snap = clone_solution(cur);
        solns.push(snap);
        proof {
            lemma_sol_views_push(solns0, snap);
            assert(sol_views(solns@) =~= sol_views(solns0) + seq![prefix]);
        }
        return ;
    }

    // Past the last group: this branch dead-ends.
    if posn >= 26 {
        proof {
            assert(sol_views(solns@) =~= sol_views(solns0) + Seq::<Seq<u32>>::empty());
        }
        return ;
    }

    // Scan forward to the next group whose anchor letter is unused.
    let mut p = posn;
    #[verifier::loop_isolation(true)]
    loop
        invariant
            space@.wf(),
            posn <= p <= 26,
            forall|q: int| posn <= q < p ==> seen & (1u32 << #[trigger] space@.letter(q)) != 0,
        ensures
            posn <= p <= 26,
            forall|q: int| posn <= q < p ==> seen & (1u32 << #[trigger] space@.letter(q)) != 0,
            p == 26 || seen & (1u32 << space@.letter(p as int)) == 0,
        decreases 26 - p,
    {
        if p == 26 {
            break ;
        }
        let c = space.groups[p].letter;
        proof {
            assert(space@.letter(p as int) == c);
            assert(c < 26);
        }
        if seen & (1u32 << c) == 0 {
            break ;
        }
        p = p + 1;
    }
    if p == 26 {
        proof {
            lemma_scan(space@, prefix, posn as int, 26, seen, skipped);
            assert(sol_views(solns@) =~= sol_views(solns0) + Seq::<Seq<u32>>::empty());
        }
        return ;
    }
    proof {
        lemma_scan(space@, prefix, posn as int, p as int, seen, skipped);
    }

    // Try extending the current solution with each candidate of the group.
    let pvs = space.pseudovowels;
    let npvs = crate::bits::count_bits(pvs);
    let gpvs = space.global_pseudovowels;
    let ngpvs = crate::bits::count_bits(gpvs);
    let nwords = space.groups[p].words.len();
    let mut i: usize = 0;
    while i < nwords
        invariant
            i <= nwords,
            cur@ == prefix,
            sol_views(solns@) + search_words(space@, prefix, p as int, i as int, seen, skipped)
                == sol_views(solns0) + search_words(space@, prefix, p as int, 0, seen, skipped),
        decreases nwords - i,
    {
        let ghost solns_i = solns@;
        let w = space.groups[p].words[i];
        let mut take_it = false;
        if seen & w == 0 {
            let mut ok = true;
            if pvs != 0 {
                let pu = crate::bits::count_bits((seen | w) & pvs);
                proof {
                    lemma_pc_and_le(seen | w, pvs);
                }
                if npvs - pu < 4 - (count as u32) {
                    ok = false;
                }
            }
            if gpvs != 0 {
                let gu = crate::bits::count_bits((seen | w) & gpvs);
                proof {
                    lemma_pc_and_le(seen | w, gpvs);
                }
                if ngpvs - gu < 4 - (count as u32) {
                    ok = false;
                }
            }
            take_it = ok;
        }
        assert(take_it == word_ok(space@, seen, w, count as int));
        if take_it {
            cur.push(w);
            solvify(space, cur, solns, p + 1, count + 1, seen | w, skipped);
            let _popped = cur.pop();
            proof {
                assert(cur@ =~= prefix);
                assert(sol_views(solns@) =~= sol_views(solns_i) + search(
                    space@,
                    prefix.push(w),
                    p as int + 1,
                    seen | w,
                    skipped,
                ));
            }
        }
        proof {
            assert(search_words(space@, prefix, p as int, i as int, seen, skipped)
                == (if word_ok(space@, seen, w, count as int) {
                    search(space@, prefix.push(w), p as int + 1, seen | w, skipped)
                } else {
                    Seq::<Seq<u32>>::empty()
                }) + search_words(space@, prefix, p as int, i as int + 1, seen, skipped));
            if !take_it {
                assert(sol_views(solns@) =~= sol_views(solns_i));
            }
        }
        i = i + 1;
    }
    proof {
        assert(search_words(space@, prefix, p as int, nwords as int, seen, skipped)
            =~= Seq::<Seq<u32>>::empty());
        assert(sol_views(solns@) =~= sol_views(solns0) + search_words(
            space@,
            prefix,
            p as int,
            0,
            seen,
            skipped,
        ));
    }

    // If the one permitted skip is still available, also search on without
    // using this group's letter.
    if !skipped {
        let ghost solns_b = solns@;
        solvify(space, cur, solns, p + 1, count, seen, true);
        proof {
            assert(sol_views(solns@) =~= sol_views(solns0) + (search_words(
                space@,
                prefix,
                p as int,
                0,
                seen,
                skipped,
            ) + search(space@, prefix, p as int + 1, seen, true)));
        }
    } else {
        proof {
            assert(search(space@, prefix, p as int, seen, skipped) == search_words(
                space@,
                prefix,
                p as int,
                0,
                seen,
                skipped,
            ) + Seq::<Seq<u32>>::empty());
            assert(sol_views(solns@) =~= sol_views(solns0) + search(
                space@,
                prefix,
                p as int,
                seen,
                skipped,
            ));
        }
    }
}

/// Run the whole search sequentially from the initial state and return
/// every solution: five pairwise-disjoint five-letter words covering
/// exactly 25 letters, in discovery order.
pub fn solve_sequential(space: &LetterSpace) -> (solns: Vec<Vec<u32>>)
    requires
        space@.wf(),
    ensures
        sol_views(solns@) == search(space@, Seq::empty(), 0, 0, false),
        forall|k: int| 0 <= k < solns@.len() ==> solution_ok(#[trigger] solns@[k]@),
{
    let mut cur: Vec<u32> = Vec::new();
    let mut solns: Vec<Vec<u32>> = Vec::new();
    solvify(space, &mut cur, &mut solns, 0, 0, 0, false);
    proof {
        assert(sol_views(solns@) =~= Seq::<Seq<u32>>::empty() + search(
            space@,
            Seq::empty(),
            0,
            0,
            false,
        ));
        assert(sol_views(solns@) =~= search(space@, Seq::empty(), 0, 0, false));
        lemma_solutions_valid(space@, Seq::empty(), 0, 0, false);
        assert forall|k: int| 0 <= k < solns@.len() implies solution_ok(#[trigger] solns@[k]@) by {
            assert(solns@[k]@ == sol_views(solns@)[k]);
        }
    }
    solns
}

} // verus!
