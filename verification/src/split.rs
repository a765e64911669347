//! Parallel decomposition of the search.
//!
//! The top level of the traversal is split on the first group's candidate
//! list plus one synthetic "skip the first group's letter" task.  Running
//! the tasks in order and concatenating their results is proved to produce
//! exactly the sequential result, and the merged multiset of solutions is
//! proved independent of the order the per-task result lists arrive in —
//! so a work-stealing scheduler may merge them in any order.

use vstd::multiset::Multiset;
use vstd::prelude::*;

use crate::bits::lemma_zero_ops;
use crate::search::{
    lemma_solutions_valid, search, search_words, sol_views, solution_ok, solvify, word_ok,
    lemma_sol_views_add,
};
use crate::space::{LetterSpace, SpaceView};

use rayon::iter::{IntoParallelRefIterator, ParallelIterator};

verus! {

/// One independent unit of the split search: seed with a word of the first
/// group, or spend the skip on the first group's letter.
#[derive(Clone, Copy, PartialEq, Eq, Structural)]
pub enum BranchTask {
    Word(u32),
    SkipFirst,
}

/// Whether the root state branches into candidate `w` of the first group.
pub open spec fn root_ok(s: SpaceView, w: u32) -> bool {
    word_ok(s, 0, w, 0)
}

/// The word tasks of the first group from index `i` on.
pub open spec fn word_tasks(s: SpaceView, i: int) -> Seq<BranchTask>
    decreases s.words(0).len() - i,
{
    if i < 0 || i >= s.words(0).len() {
        Seq::empty()
    } else {
        (if root_ok(s, s.words(0)[i]) {
            seq![BranchTask::Word(s.words(0)[i])]
        } else {
            Seq::empty()
        }) + word_tasks(s, i + 1)
    }
}

/// Every task of the split: the accepted candidates of the first group,
/// then the skip task.
pub open spec fn branch_tasks_spec(s: SpaceView) -> Seq<BranchTask> {
    word_tasks(s, 0) + seq![BranchTask::SkipFirst]
}

/// The solutions one task contributes.
pub open spec fn task_result(s: SpaceView, t: BranchTask) -> Seq<Seq<u32>> {
    match t {
        BranchTask::Word(w) => search(s, seq![w], 1, w, false),
        BranchTask::SkipFirst => search(s, Seq::empty(), 1, 0, true),
    }
}

/// Concatenation of the tasks' results, in task order.
pub open spec fn concat_results(s: SpaceView, ts: Seq<BranchTask>) -> Seq<Seq<u32>>
    decreases ts.len(),
{
    if ts.len() == 0 {
        Seq::empty()
    } else {
        task_result(s, ts[0]) + concat_results(s, ts.drop_first())
    }
}

proof fn lemma_concat_add(s: SpaceView, a: Seq<BranchTask>, b: Seq<BranchTask>)
    ensures
        concat_results(s, a + b) == concat_results(s, a) + concat_results(s, b),
    decreases a.len(),
{
    if a.len() == 0 {
        assert(a + b =~= b);
        assert(concat_results(s, a) + concat_results(s, b) =~= concat_results(s, b));
    } else {
        assert((a + b).drop_first() =~= a.drop_first() + b);
        lemma_concat_add(s, a.drop_first(), b);
        assert(concat_results(s, a + b) =~= concat_results(s, a) + concat_results(s, b));
    }
}

proof fn lemma_concat_single(s: SpaceView, t: BranchTask)
    ensures
        concat_results(s, seq![t]) == task_result(s, t),
{
    assert(seq![t].drop_first() =~= Seq::<BranchTask>::empty());
    assert(concat_results(s, Seq::<BranchTask>::empty()) =~= Seq::<Seq<u32>>::empty());
    assert(concat_results(s, seq![t]) =~= task_result(s, t));
}

proof fn lemma_concat_take_step(s: SpaceView, ts: Seq<BranchTask>, i: int)
    requires
        0 <= i < ts.len(),
    ensures
        concat_results(s, ts.take(i + 1)) == concat_results(s, ts.take(i)) + task_result(
            s,
            ts[i],
        ),
    decreases ts.len(),
{
    assert(ts.take(i + 1) =~= ts.take(i) + seq![ts[i]]);
    lemma_concat_add(s, ts.take(i), seq![ts[i]]);
    lemma_concat_single(s, ts[i]);
}

/// The sequential search is exactly the concatenation, in task order, of
/// the split tasks' results: the parallel decomposition is complete and
/// introduces no duplicates.
pub proof fn lemma_split_equals_sequential(s: SpaceView)
    requires
        s.wf(),
    ensures
        search(s, Seq::empty(), 0, 0, false) == concat_results(s, branch_tasks_spec(s)),
{
    let c = s.letter(0);
    lemma_zero_ops(1u32 << c);
    assert(search(s, Seq::empty(), 0, 0, false) == search_words(s, Seq::empty(), 0, 0, 0, false)
        + search(s, Seq::empty(), 1, 0, true));
    lemma_words_split(s, 0);
    lemma_concat_add(s, word_tasks(s, 0), seq![BranchTask::SkipFirst]);
    lemma_concat_single(s, BranchTask::SkipFirst);
    assert(concat_results(s, branch_tasks_spec(s)) =~= search_words(s, Seq::empty(), 0, 0, 0, false)
        + search(s, Seq::empty(), 1, 0, true));
}

proof fn lemma_words_split(s: SpaceView, i: int)
    ensures
        search_words(s, Seq::empty(), 0, i, 0, false) == concat_results(s, word_tasks(s, i)),
    decreases s.words(0).len() - i,
{
    if i < 0 || i >= s.words(0).len() {
    } else {
        let w = s.words(0)[i];
        lemma_zero_ops(w);
        lemma_words_split(s, i + 1);
        assert(Seq::<u32>::empty().push(w) =~= seq![w]);
        if root_ok(s, w) {
            assert(word_tasks(s, i) == seq![BranchTask::Word(w)] + word_tasks(s, i + 1));
            assert(word_tasks(s, i).drop_first() =~= word_tasks(s, i + 1));
            assert(word_tasks(s, i)[0] == BranchTask::Word(w));
            assert(concat_results(s, word_tasks(s, i)) == task_result(s, BranchTask::Word(w))
                + concat_results(s, word_tasks(s, i + 1)));
        } else {
            assert(word_tasks(s, i) =~= word_tasks(s, i + 1));
        }
    }
}

/// Enumerate the split tasks: each candidate of the first group that passes
/// the root-state checks, plus the one skip task.
#[verifier::loop_isolation(false)]
pub fn branch_tasks(space: &LetterSpace) -> (tasks: Vec<BranchTask>)
    requires
        space@.wf(),
    ensures
        tasks@ == branch_tasks_spec(space@),
{
    let mut tasks: Vec<BranchTask> = Vec::new();
    let pvs = space.pseudovowels;
    let npvs = crate::bits::count_bits(pvs);
    let gpvs = space.global_pseudovowels;
    let ngpvs = crate::bits::count_bits(gpvs);
    let nwords = space.groups[0].words.len();
    let mut i: usize = 0;
    while i < nwords
        invariant
            i <= nwords,
            word_tasks(space@, 0) == tasks@ + word_tasks(space@, i as int),
        decreases nwords - i,
    {
        let ghost tasks0 = tasks@;
        let w = space.groups[0].words[i];
        let mut ok = true;
        if pvs != 0 {
            let pu = crate::bits::count_bits(w & pvs);
            proof {
                lemma_zero_ops(w);
                crate::bits::lemma_pc_and_le(w, pvs);
            }
            if npvs - pu < 4 {
                ok = false;
            }
        }
        if gpvs != 0 {
            let gu = crate::bits::count_bits(w & gpvs);
            proof {
                lemma_zero_ops(w);
                crate::bits::lemma_pc_and_le(w, gpvs);
            }
            if ngpvs - gu < 4 {
                ok = false;
            }
        }
        proof {
            lemma_zero_ops(w);
            assert(ok == root_ok(space@, w));
        }
        if ok {
            tasks.push(BranchTask::Word(w));
        }
        proof {
            assert(word_tasks(space@, i as int) == (if root_ok(space@, w) {
                seq![BranchTask::Word(w)]
            } else {
                Seq::<BranchTask>::empty()
            }) + word_tasks(space@, i as int + 1));
            if ok {
                assert(tasks@ =~= tasks0 + seq![BranchTask::Word(w)]);
                assert(tasks0 + (seq![BranchTask::Word(w)] + word_tasks(space@, i as int + 1))
                    =~= (tasks0 + seq![BranchTask::Word(w)]) + word_tasks(space@, i as int + 1));
            } else {
                assert(Seq::<BranchTask>::empty() + word_tasks(space@, i as int + 1)
                    =~= word_tasks(space@, i as int + 1));
            }
        }
        i = i + 1;
    }
    let ghost tdone = tasks@;
    tasks.push(BranchTask::SkipFirst);
    proof {
        assert(word_tasks(space@, nwords as int) =~= Seq::<BranchTask>::empty());
        assert(tdone + Seq::<BranchTask>::empty() =~= tdone);
        assert(tasks@ =~= word_tasks(space@, 0) + seq![BranchTask::SkipFirst]);
    }
    tasks
}

/// Run the remainder of the traversal for one task of the split.
pub fn solve_task(space: &LetterSpace, task: BranchTask) -> (solns: Vec<Vec<u32>>)
    requires
        space@.wf(),
    ensures
        sol_views(solns@) == task_result(space@, task),
{
    let mut solns: Vec<Vec<u32>> = Vec::new();
    match task {
        BranchTask::Word(w) => {
            let mut cur: Vec<u32> = Vec::new();
            cur.push(w);
            proof {
                assert(Seq::<u32>::empty().push(w) =~= seq![w]);
            }
            solvify(space, &mut cur, &mut solns, 1, 1, w, false);
            proof {
                assert(sol_views(solns@) =~= Seq::<Seq<u32>>::empty() + search(
                    space@,
                    seq![w],
                    1,
                    w,
                    false,
                ));
                assert(sol_views(solns@) =~= search(space@, seq![w], 1, w, false));
            }
        },
        BranchTask::SkipFirst => {
            let mut cur: Vec<u32> = Vec::new();
            solvify(space, &mut cur, &mut solns, 1, 0, 0, true);
            proof {
                assert(sol_views(solns@) =~= Seq::<Seq<u32>>::empty() + search(
                    space@,
                    Seq::empty(),
                    1,
                    0,
                    true,
                ));
                assert(sol_views(solns@) =~= search(space@, Seq::empty(), 1, 0, true));
            }
        },
    }
    solns
}

/// Run the split search task by task and concatenate the result lists in
/// task order: the worker-pool decomposition, executed on one thread.
#[verifier::loop_isolation(false)]
pub fn solve_split(space: &LetterSpace) -> (solns: Vec<Vec<u32>>)
    requires
        space@.wf(),
    ensures
        sol_views(solns@) == search(space@, Seq::empty(), 0, 0, false),
        forall|k: int| 0 <= k < solns@.len() ==> solution_ok(#[trigger] solns@[k]@),
{
    let tasks = branch_tasks(space);
    let mut solns: Vec<Vec<u32>> = Vec::new();
    proof {
        assert(sol_views(Seq::<Vec<u32>>::empty()) =~= Seq::<Seq<u32>>::empty());
        assert(tasks@.take(0) =~= Seq::<BranchTask>::empty());
    }
    let mut i: usize = 0;
    while i < tasks.len()
        invariant
            i <= tasks@.len(),
            sol_views(solns@) == concat_results(space@, tasks@.take(i as int)),
        decreases tasks@.len() - i,
    {
        let ghost solns0 = solns@;
        let mut part = solve_task(space, tasks[i]);
        let ghost partv = part@;
        solns.append(&mut part);
        proof {
            lemma_sol_views_add(solns0, partv);
            lemma_concat_take_step(space@, tasks@, i as int);
        }
        i = i + 1;
    }
    proof {
        assert(tasks@.take(tasks@.len() as int) =~= tasks@);
        lemma_split_equals_sequential(space@);
        lemma_solutions_valid(space@, Seq::empty(), 0, 0, false);
        assert forall|k: int| 0 <= k < solns@.len() implies solution_ok(#[trigger] solns@[k]@) by {
            assert(solns@[k]@ == sol_views(solns@)[k]);
        }
    }
    solns
}

/// The multiset of solutions contributed by a list of tasks.
pub open spec fn result_multiset(s: SpaceView, ts: Seq<BranchTask>) -> Multiset<Seq<u32>>
    decreases ts.len(),
{
    if ts.len() == 0 {
        Multiset::empty()
    } else {
        task_result(s, ts[0]).to_multiset().add(result_multiset(s, ts.drop_first()))
    }
}

proof fn lemma_concat_multiset(s: SpaceView, ts: Seq<BranchTask>)
    ensures
        concat_results(s, ts).to_multiset() == result_multiset(s, ts),
    decreases ts.len(),
{
    broadcast use vstd::seq_lib::group_to_multiset_ensures;

    if ts.len() == 0 {
        assert(concat_results(s, ts).to_multiset() =~= Multiset::empty());
    } else {
        vstd::seq_lib::lemma_multiset_commutative(
            task_result(s, ts[0]),
            concat_results(s, ts.drop_first()),
        );
        lemma_concat_multiset(s, ts.drop_first());
    }
}

proof fn lemma_result_multiset_remove(s: SpaceView, ts: Seq<BranchTask>, k: int)
    requires
        0 <= k < ts.len(),
    ensures
        result_multiset(s, ts) == task_result(s, ts[k]).to_multiset().add(
            result_multiset(s, ts.remove(k)),
        ),
    decreases ts.len(),
{
    if k == 0 {
        assert(ts.remove(0) =~= ts.drop_first());
    } else {
        assert(ts.remove(k).drop_first() =~= ts.drop_first().remove(k - 1));
        assert(ts.drop_first()[k - 1] == ts[k]);
        lemma_result_multiset_remove(s, ts.drop_first(), k - 1);
        assert(ts.remove(k)[0] == ts[0]);
        assert(result_multiset(s, ts) =~= task_result(s, ts[k]).to_multiset().add(
            result_multiset(s, ts.remove(k)),
        ));
    }
}

/// Merging the per-task result lists in any order yields the same multiset
/// of solutions: the reduce step of the data-parallel strategy is
/// order-independent, so a work-stealing scheduler may combine partial
/// results in whatever order they finish.
pub proof fn lemma_merge_any_order(s: SpaceView, ts1: Seq<BranchTask>, ts2: Seq<BranchTask>)
    requires
        ts1.to_multiset() == ts2.to_multiset(),
    ensures
        concat_results(s, ts1).to_multiset() == concat_results(s, ts2).to_multiset(),
    decreases ts1.len(),
{
    broadcast use vstd::seq_lib::group_to_multiset_ensures;

    lemma_concat_multiset(s, ts1);
    lemma_concat_multiset(s, ts2);
    ts1.to_multiset_ensures();
    ts2.to_multiset_ensures();
    if ts1.len() == 0 {
        assert(ts2.len() == 0);
    } else {
        let t = ts1[0];
        assert(ts1.contains(t));
        assert(ts1.to_multiset().count(t) > 0);
        assert(ts2.contains(t));
        let k = choose|k: int| 0 <= k < ts2.len() && ts2[k] == t;
        lemma_result_multiset_remove(s, ts2, k);
        assert(ts1.drop_first() =~= ts1.remove(0));
        assert(ts1.remove(0).to_multiset() =~= ts1.to_multiset().remove(t));
        assert(ts2.remove(k).to_multiset() =~= ts2.to_multiset().remove(t));
        lemma_merge_any_order(s, ts1.drop_first(), ts2.remove(k));
        lemma_concat_multiset(s, ts1.drop_first());
        lemma_concat_multiset(s, ts2.remove(k));
        assert(result_multiset(s, ts1) =~= result_multiset(s, ts2));
    }
}

/// Relies on rayon's `par_iter().map(f).collect::<Vec<_>>()`: `f` is
/// applied once to each element and the images are collected in the order
/// of the input list.
#[verifier::external_body]
fn par_solve_tasks(space: &LetterSpace, tasks: &Vec<BranchTask>) -> (parts: Vec<Vec<Vec<u32>>>)
    requires
        space@.wf(),
    ensures
        parts@.len() == tasks@.len(),
        forall|i: int|
            0 <= i < tasks@.len() ==> sol_views(#[trigger] parts@[i]@) == task_result(
                space@,
                tasks@[i],
            ),
{
    tasks.par_iter().map(|t| solve_task(space, *t)).collect()
}

/// Run the split tasks on a work-stealing thread pool and concatenate the
/// per-task result lists in task order: the data-parallel strategy, with
/// the same output as the sequential solver.
#[verifier::loop_isolation(false)]
pub fn solve_parallel(space: &LetterSpace) -> (solns: Vec<Vec<u32>>)
    requires
        space@.wf(),
    ensures
        sol_views(solns@) == search(space@, Seq::empty(), 0, 0, false),
        forall|k: int| 0 <= k < solns@.len() ==> solution_ok(#[trigger] solns@[k]@),
{
    let tasks = branch_tasks(space);
    let mut parts = par_solve_tasks(space, &tasks);
    let ghost parts0 = parts@;
    let ghost n = parts@.len();
    let mut solns: Vec<Vec<u32>> = Vec::new();
    proof {
        assert(sol_views(Seq::<Vec<u32>>::empty()) =~= Seq::<Seq<u32>>::empty());
        assert(tasks@.take(0) =~= Seq::<BranchTask>::empty());
        assert(parts@ =~= parts0.subrange(0, n as int));
    }
    let mut i: usize = 0;
    while parts.len() > 0
        invariant
            i + parts@.len() == n,
            parts@ == parts0.subrange(i as int, n as int),
            sol_views(solns@) == concat_results(space@, tasks@.take(i as int)),
        decreases parts@.len(),
    {
        let ghost parts_pre = parts@;
        let mut part = parts.remove(0);
        proof {
            assert(part@ == parts0.subrange(i as int, n as int)[0]@);
            assert(part@ == parts0[i as int]@);
            assert(parts@ =~= parts0.subrange(i as int + 1, n as int)) by {
                assert(parts@ == parts_pre.remove(0));
                assert(parts_pre.remove(0) =~= parts0.subrange(i as int + 1, n as int));
            }
        }
        let ghost solns0 = solns@;
        let ghost partv = part@;
        solns.append(&mut part);
        proof {
            lemma_sol_views_add(solns0, partv);
            lemma_concat_take_step(space@, tasks@, i as int);
        }
        i = i + 1;
    }
    proof {
        assert(i == n);
        assert(tasks@.take(tasks@.len() as int) =~= tasks@);
        lemma_split_equals_sequential(space@);
        lemma_solutions_valid(space@, Seq::empty(), 0, 0, false);
        assert forall|k: int| 0 <= k < solns@.len() implies solution_ok(#[trigger] solns@[k]@) by {
            assert(solns@[k]@ == sol_views(solns@)[k]);
        }
    }
    solns
}

} // verus!
