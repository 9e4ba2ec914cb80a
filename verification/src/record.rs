//! What a whole run orders for files that have several names.

use vstd::prelude::*;

use crate::care::{
    busy, candidate_of, collected, finished, invariant_of, op_for, sendable, sent_for, shared,
    stems, unshared_file,
};
use crate::course::{
    lemma_between_entries, lemma_counts, lemma_entry_keeps, lemma_reading_step, next_run, step_of,
};
use crate::protocol::{Candidate, Command, Event, Operation};
use crate::replica::{
    lemma_at_start, lemma_ending, lemma_every_run, lemma_every_step, lemma_stepping, lemma_terms,
};
use crate::sync::SyncView;
use crate::work::{lemma_work_keeps_invariant, lemma_work_leaves_the_walk};
use crate::world::{
    after, at_start, carried_out, faithful, feasible, fit, linked, sound, target_for, truthful,
    turned, Plan, Run, Tree, Turn, Work,
};

verus! {

/// Whether an order to announce a size is on record with one of the first `n`
/// entries.
spec fn on_record(plan: Plan, order: (int, Command<Seq<u8>>), n: int) -> bool {
    match order.1 {
        Command::Size(_) => 0 <= order.0 < n,
        _ => true,
    }
}

/// What is true of what a run has ordered so far.
spec fn accounted(plan: Plan, run: Run) -> bool {
    let orders = run.orders;
    &&& forall|a: int|
        0 <= a < orders.len() ==> on_record(plan, #[trigger] orders[a], finished(run))
    &&& forall|a: int, b: int|
        0 <= a < b < orders.len() && (#[trigger] orders[a]).1 is Size && (
        #[trigger] orders[b]).1 is Size ==> !linked(plan, orders[a].0, orders[b].0)
    &&& collected(plan, run.w.candidates, plan.entries.len() as int)
}

/// Sizes are announced only where a file is written.
proof fn lemma_written_orders(w: SyncView, event: Event<Seq<u8>>)
    ensures
        ({
            let (next, reply) = step_of(w, event);
            let commands = reply.commands;
            forall|i: int|
                0 <= i < commands.len() ==> match #[trigger] commands[i] {
                    Command::Size(_) => {
                        w.phase is FileWritable && next.phase is Walking && i == commands.len() - 2
                    },
                    _ => true,
                }
        }),
{
    reveal(step_of);
}

/// What is in place stays counted as such.
proof fn lemma_finished_grows(plan: Plan, run: Run, turn: Turn)
    requires
        sound(plan),
        invariant_of(plan, run),
        truthful(plan, run, turn.event),
    ensures
        finished(run) <= finished(next_run(plan, run, turn)),
        busy(run.w.phase) && next_run(plan, run, turn).w.phase is Walking ==> finished(
            next_run(plan, run, turn),
        ) == run.met,
{
    lemma_counts(plan, run, turn);
    lemma_stepping(plan, run, turn);
    if busy(run.w.phase) {
        lemma_entry_keeps(run.w, turn.event);
    } else if run.w.phase is Reading {
    } else if (run.w.phase is Surveying && turn.event == Event::<Seq<u8>>::Answer(false)) || (
    run.w.phase is Listing && turn.event is End) {
        lemma_ending(run.w, turn.event);
    } else {
        lemma_between_entries(run.w, turn.event);
    }
}

/// What was on record with the first entries is on record with more of them.
proof fn lemma_stays_on_record(plan: Plan, candidates: Seq<Candidate<Seq<u8>>>, n: int, m: int)
    requires
        n <= m,
        collected(plan, candidates, n),
    ensures
        collected(plan, candidates, m),
{
    assert forall|i: int| 0 <= i < candidates.len() implies stems(
        plan,
        #[trigger] candidates[i],
        m,
    ) by {
        assert(stems(plan, candidates[i], n));
        let j = choose|j: int|
            0 <= j < n && j < plan.entries.len() && candidates[i] == candidate_of(plan, j)
                && #[trigger] unshared_file(plan, j);
        assert(unshared_file(plan, j));
    }
}

/// The orders of a run one answer further.
proof fn lemma_orders(plan: Plan, run: Run, turn: Turn)
    ensures
        ({
            let commands = step_of(run.w, turn.event).1.commands;
            let orders = next_run(plan, run, turn).orders;
            &&& orders.len() == run.orders.len() + commands.len()
            &&& forall|a: int| 0 <= a < run.orders.len() ==> #[trigger] orders[a] == run.orders[a]
            &&& forall|a: int|
                run.orders.len() <= a < orders.len() ==> #[trigger] orders[a] == (
                    run.met - 1,
                    commands[a - run.orders.len()],
                )
        }),
{
    reveal(step_of);
    reveal(next_run);
}

/// Every turn keeps the record.
proof fn lemma_accounted_step(plan: Plan, run: Run, turn: Turn)
    requires
        sound(plan),
        invariant_of(plan, run),
        truthful(plan, run, turn.event),
        !plan.config.dry_run,
        accounted(plan, run),
        invariant_of(plan, next_run(plan, run, turn)),
    ensures
        accounted(plan, next_run(plan, run, turn)),
{
    let k = run.met - 1;
    let n = run.orders.len();
    let then = next_run(plan, run, turn);
    let commands = step_of(run.w, turn.event).1.commands;
    let orders = then.orders;
    lemma_written_orders(run.w, turn.event);
    lemma_finished_grows(plan, run, turn);
    lemma_orders(plan, run, turn);
    lemma_stepping(plan, run, turn);
    assert forall|a: int| 0 <= a < orders.len() implies on_record(
        plan,
        #[trigger] orders[a],
        finished(then),
    ) by {
        if a < n {
            assert(on_record(plan, run.orders[a], finished(run)));
        } else {
            let c = commands[a - n];
            assert(orders[a] == (k, c));
        }
    }
    assert forall|a: int, b: int|
        0 <= a < b < orders.len() && (#[trigger] orders[a]).1 is Size && (
        #[trigger] orders[b]).1 is Size implies !linked(plan, orders[a].0, orders[b].0) by {
        if b < n {
            assert(orders[a] == run.orders[a] && orders[b] == run.orders[b]);
        } else {
            assert(orders[b] == (k, commands[b - n]));
            if a < n {
                assert(orders[a] == run.orders[a]);
                assert(on_record(plan, run.orders[a], finished(run)));
            } else {
                assert(orders[a] == (k, commands[a - n]));
            }
        }
    }
    if then.w.phase is Done {
        lemma_candidates_at_end(plan, run, turn);
    } else {
        lemma_stays_on_record(
            plan,
            then.w.candidates,
            finished(then),
            plan.entries.len() as int,
        );
    }
}

/// The end of a run changes nothing of what is still to be compared.
proof fn lemma_candidates_at_end(plan: Plan, run: Run, turn: Turn)
    requires
        sound(plan),
        invariant_of(plan, run),
        truthful(plan, run, turn.event),
        !plan.config.dry_run,
        next_run(plan, run, turn).w.phase is Done,
    ensures
        next_run(plan, run, turn).w.candidates == run.w.candidates,
{
    lemma_stepping(plan, run, turn);
    if busy(run.w.phase) {
        lemma_entry_keeps(run.w, turn.event);
    } else if run.w.phase is Reading {
        lemma_reading_step(plan, run, turn);
        reveal(step_of);
    } else if (run.w.phase is Surveying && turn.event == Event::<Seq<u8>>::Answer(false)) || (
    run.w.phase is Listing && turn.event is End) {
        lemma_ending(run.w, turn.event);
    } else {
        lemma_between_entries(run.w, turn.event);
    }
}

proof fn lemma_accounted_run(plan: Plan, run: Run, turns: Seq<Turn>)
    requires
        sound(plan),
        !plan.config.dry_run,
        invariant_of(plan, run),
        accounted(plan, run),
        faithful(plan, run, turns),
    ensures
        accounted(plan, after(plan, run, turns)),
    decreases turns.len(),
{
    if turns.len() > 0 {
        let turn = turns[0];
        let ready = carried_out(plan, run, turn.work);
        lemma_work_keeps_invariant(plan, run, turn.work);
        lemma_work_leaves_the_walk(plan, run, turn.work);
        lemma_every_step(plan, ready, turn);
        lemma_accounted_step(plan, ready, turn);
        lemma_terms(plan, ready, turn);
        lemma_accounted_run(plan, turned(plan, run, turn), turns.skip(1));
    }
}

/// Of the names of one file at most one has its size announced, so at most one
/// is written, in a whole run.
pub proof fn law_linked_files_are_written_once(
    plan: Plan,
    tree: Tree,
    turns: Seq<Turn>,
    a: int,
    b: int,
)
    requires
        sound(plan),
        !plan.config.dry_run,
        fit(plan, tree),
        faithful(plan, at_start(plan, tree), turns),
        ({
            let orders = after(plan, at_start(plan, tree), turns).orders;
            &&& 0 <= a < orders.len() && 0 <= b < orders.len() && a != b
            &&& orders[a].1 is Size && orders[b].1 is Size
        }),
    ensures
        ({
            let orders = after(plan, at_start(plan, tree), turns).orders;
            !linked(plan, orders[a].0, orders[b].0)
        }),
{
    lemma_at_start(plan, tree);
    lemma_accounted_run(plan, at_start(plan, tree), turns);
    let orders = after(plan, at_start(plan, tree), turns).orders;
    if a < b {
        assert(!linked(plan, orders[a].0, orders[b].0));
    } else {
        assert(!linked(plan, orders[b].0, orders[a].0));
    }
}

/// Whether two paths are those of an entry and of its mirror, and the entry is
/// none of several names that are mirrored as one file.
pub open spec fn alone(plan: Plan, from: Seq<u8>, target: Seq<u8>) -> bool {
    exists|k: int|
        0 <= k < plan.entries.len() && from == plan.entries[k].from && target == target_for(
            plan,
            plan.entries[k].place,
        ) && !#[trigger] shared(plan, k)
}

/// In a whole run, and whatever has been done besides the walk by then, what is
/// queued to be copied, and what is left to be compared after the walk, are
/// files that are mirrored on their own: a name of a file whose names are
/// mirrored together is neither.
pub proof fn law_linked_files_are_never_queued(
    plan: Plan,
    tree: Tree,
    turns: Seq<Turn>,
    order: Seq<Work>,
)
    requires
        sound(plan),
        !plan.config.dry_run,
        fit(plan, tree),
        faithful(plan, at_start(plan, tree), turns),
        feasible(plan, after(plan, at_start(plan, tree), turns), order),
    ensures
        ({
            let run = carried_out(plan, after(plan, at_start(plan, tree), turns), order);
            &&& forall|a: int|
                0 <= a < run.sent.len() ==> match #[trigger] run.sent[a] {
                    Operation::Copy(p, q) => alone(plan, p, q),
                    _ => true,
                }
            &&& forall|i: int|
                0 <= i < run.w.candidates.len() ==> alone(
                    plan,
                    (#[trigger] run.w.candidates[i]).from,
                    run.w.candidates[i].target,
                )
        }),
{
    let end = after(plan, at_start(plan, tree), turns);
    let run = carried_out(plan, end, order);
    lemma_at_start(plan, tree);
    lemma_accounted_run(plan, at_start(plan, tree), turns);
    lemma_every_run(plan, at_start(plan, tree), turns);
    lemma_work_keeps_invariant(plan, end, order);
    lemma_work_leaves_the_walk(plan, end, order);
    let n = plan.entries.len() as int;
    assert forall|a: int| 0 <= a < run.sent.len() implies match #[trigger] run.sent[a] {
        Operation::Copy(p, q) => alone(plan, p, q),
        _ => true,
    } by {
        assert(run.w.phase is Done || finished(run) <= n);
        let m = if run.w.phase is Done {
            n
        } else {
            finished(run)
        };
        assert(sent_for(plan, run.sent[a], m));
        let k = choose|k: int|
            0 <= k < m && k < plan.entries.len() && run.sent[a] == op_for(plan, k)
                && #[trigger] sendable(plan, k);
        assert(shared(plan, k) || !shared(plan, k));
    }
    assert forall|i: int| 0 <= i < run.w.candidates.len() implies alone(
        plan,
        (#[trigger] run.w.candidates[i]).from,
        run.w.candidates[i].target,
    ) by {
        assert(stems(plan, run.w.candidates[i], plan.entries.len() as int));
        let k = choose|k: int|
            0 <= k < plan.entries.len() && k < plan.entries.len() && run.w.candidates[i]
                == candidate_of(plan, k) && #[trigger] unshared_file(plan, k);
        assert(!shared(plan, k));
    }
}

} // verus!
