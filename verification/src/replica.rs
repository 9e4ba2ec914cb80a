//! What a whole run achieves: all that a walk orders and all that workers
//! carry out for it, on the tree that stands at the destination, makes the
//! tree a replica of the source.

use vstd::prelude::*;

use crate::care::{
    doomed, first_of, invariant_of, kept, lemma_firm, lemma_holders_first, op_for, places, sendable,
    sent_for,
};
use crate::checksum::blake3_digest;
use crate::course::{
    lemma_counts, lemma_entry_step, lemma_name_step, lemma_only_the_top, lemma_plain_step,
    lemma_preparing_step, lemma_reading_step, lemma_stale_grows, next_run, step_of,
};
use crate::ground::{lemma_sends_of_one, lemma_target_place};
use crate::metadata::{law_inode_key_is_exact, FileType};
use crate::path::{below, components, within};
use crate::protocol::{Command, Event};
use crate::prune::{
    covered, holder_closed, is_stale, law_counterparts_stay, law_only_stale_paths_are_removed,
    law_tops_cover_the_list, lemma_filter_holds, lemma_stale_place, stale_of, tops,
};
use crate::sync::{delete_notices, sync_step, SyncPhase, SyncView};
use crate::work::{
    lemma_all_is_done, lemma_kept_alike, lemma_work_keeps_invariant, lemma_work_leaves_the_walk,
};
use crate::world::{
    after, all_done, at_start, carried_out, faithful, feasible, fit, linked, made_meanwhile,
    node_at, place_of, proper, regular, replica, run_step, same_inode, sends, sound, sound_entry,
    target_of_op, tree_effects, truthful, turned, unused, Plan, Run, Tree, Turn, Work,
};

verus! {

/// The places of the source hold all that leads to them.
proof fn lemma_places_closed(plan: Plan)
    requires
        sound(plan),
    ensures
        holder_closed(places(plan, plan.entries.len() as int)),
{
    let all = places(plan, plan.entries.len() as int);
    assert forall|c: Seq<Seq<u8>>| #[trigger] all.contains(c) && c.len() > 0 implies all.contains(
        c.drop_last(),
    ) by {
        let k = choose|k: int|
            0 <= k < plan.entries.len() && (#[trigger] plan.entries[k]).place == c;
        let j = lemma_holders_first(plan, k, c.len() - 1);
        assert(plan.entries[j].place =~= c.drop_last());
    }
}

/// No place that the source has lies in a subtree that is to be removed.
proof fn lemma_counterpart_stays(plan: Plan, listed: Seq<Seq<u8>>, k: int)
    requires
        sound(plan),
        0 <= k < plan.entries.len(),
    ensures
        ({
            let all = places(plan, plan.entries.len() as int);
            !covered(
                components(plan.dest) + plan.entries[k].place,
                tops(stale_of(listed, plan.dest, all)),
            )
        }),
{
    let d = components(plan.dest);
    let all = places(plan, plan.entries.len() as int);
    let place = plan.entries[k].place;
    let kept_path = d + place;
    lemma_places_closed(plan);
    assert(kept_path.take(d.len() as int) =~= d);
    assert(below(kept_path, d) =~= place);
    assert(all.contains(place));
    law_counterparts_stay(listed, plan.dest, all, kept_path);
}

/// What stands at the destination lies where the source has something, or in a
/// subtree that is to be removed.
proof fn lemma_rest_has_counterparts(plan: Plan, run: Run, q: Seq<Seq<u8>>)
    requires
        sound(plan),
        regular(plan, run.tree),
        forall|i: int|
            0 <= i < run.sent.len() ==> sent_for(
                plan,
                #[trigger] run.sent[i],
                plan.entries.len() as int,
            ),
        run.tree.contains_key(seq![]) && run.tree[seq![]].meta.kind == FileType::Dir
            ==> forall|p: Seq<Seq<u8>>| #[trigger]
            run.tree.contains_key(p) ==> made_meanwhile(plan, run, p) || exists|i: int|
                0 <= i < run.listed.len() && place_of(plan.dest, #[trigger] run.listed[i])
                    == Some(p),
        run.tree.contains_key(q),
    ensures
        covered(
            components(plan.dest) + q,
            tops(stale_of(run.listed, plan.dest, places(plan, plan.entries.len() as int))),
        ) || exists|k: int|
            0 <= k < plan.entries.len() && (#[trigger] plan.entries[k]).place == q,
{
    let n = plan.entries.len();
    let d = components(plan.dest);
    let all = places(plan, n as int);
    let listed = run.listed;
    let stale = stale_of(listed, plan.dest, all);
    let keep = |path: Seq<u8>| is_stale(path, plan.dest, all);
    assert(plan.entries[0].place =~= seq![]);
    if q.len() == 0 {
        assert(q =~= seq![]);
    } else {
        lemma_only_the_top(run.tree, q);
        if made_meanwhile(plan, run, q) {
            let i = choose|i: int|
                0 <= i < run.sent.len() && place_of(
                    plan.dest,
                    target_of_op(#[trigger] run.sent[i]),
                ) == Some(q);
            assert(sent_for(plan, run.sent[i], n as int));
            let k = choose|k: int|
                0 <= k < n && k < plan.entries.len() && run.sent[i] == op_for(plan, k)
                    && #[trigger] sendable(plan, k);
            assert(sound_entry(plan, k));
            lemma_target_place(plan, plan.entries[k].place);
            assert(plan.entries[k].place == q);
        } else {
            let i = choose|i: int|
                0 <= i < listed.len() && place_of(plan.dest, #[trigger] listed[i]) == Some(q);
            let p = components(listed[i]);
            assert(p =~= d + q) by {
                assert(p =~= p.take(d.len() as int) + p.skip(d.len() as int));
            }
            if !all.contains(q) {
                lemma_stale_place(listed[i], plan.dest, all);
                assert(listed.contains(listed[i]));
                lemma_filter_holds(listed, keep, listed[i]);
                let j = stale.index_of(listed[i]);
                law_tops_cover_the_list(stale, j);
            }
        }
    }
}

/// What the walk does at its end.
pub(crate) proof fn lemma_ending(w: SyncView, event: Event<Seq<u8>>)
    requires
        match (w.phase, event) {
            (SyncPhase::Surveying, Event::Answer(is_dir)) => !is_dir,
            (SyncPhase::Listing, Event::End) => true,
            _ => false,
        },
    ensures
        ({
            let (next, reply) = step_of(w, event);
            &&& next == SyncView { phase: SyncPhase::Done, ..w }
            &&& reply.next is Finished
            &&& reply.verify == w.candidates
            &&& w.config.dry_run ==> reply.delete.len() == 0 && reply.commands == delete_notices(
                tops(w.stale),
            )
            &&& !w.config.dry_run ==> reply.delete == tops(w.stale) && reply.commands.len() == 0
        }),
{
    reveal(step_of);
}

/// What a step makes of a run, and what it leaves to be done.
pub(crate) proof fn lemma_stepping(plan: Plan, run: Run, turn: Turn)
    ensures
        ({
            let (next, reply) = step_of(run.w, turn.event);
            let then = next_run(plan, run, turn);
            &&& then.w == next
            &&& then.tree == tree_effects(reply.commands, plan, turn.made, run.tree)
            &&& then.sent == run.sent + sends(reply.commands)
            &&& then.delete == run.delete + reply.delete
            &&& then.verify == run.verify + reply.verify
        }),
{
    reveal(step_of);
    reveal(next_run);
}

/// The last step of the walk leaves every entry taken care of.
proof fn lemma_last_step(plan: Plan, run: Run, turn: Turn)
    requires
        sound(plan),
        !plan.config.dry_run,
        invariant_of(plan, run),
        (run.w.phase is Surveying && turn.event == Event::<Seq<u8>>::Answer(false)) || (
        run.w.phase is Listing && turn.event is End),
        truthful(plan, run, turn.event),
    ensures
        invariant_of(plan, next_run(plan, run, turn)),
        step_of(run.w, turn.event).1.next is Finished,
{
    let n = plan.entries.len();
    let d = components(plan.dest);
    let then = next_run(plan, run, turn);
    lemma_stale_grows(seq![], seq![], plan.dest, run.w.seen);
    lemma_ending(run.w, turn.event);
    lemma_stepping(plan, run, turn);
    lemma_counts(plan, run, turn);
    let all = places(plan, n as int);
    let roots = tops(stale_of(run.listed, plan.dest, all));
    assert(then.delete =~= roots);
    assert(then.verify =~= run.w.candidates);
    lemma_sends_of_one(Command::Size(0));
    assert(step_of(run.w, turn.event).1.commands =~= seq![]);
    assert(then.sent =~= run.sent);
    assert(then.tree == run.tree);
    assert forall|i: int| 0 <= i < then.delete.len() implies within(
        components(#[trigger] then.delete[i]),
        d,
    ) by {
        law_only_stale_paths_are_removed(run.listed, plan.dest, all, i);
    }
    assert forall|k: int| 0 <= k < n implies !doomed(
        plan,
        then,
        (#[trigger] plan.entries[k]).place,
    ) by {
        lemma_counterpart_stays(plan, run.listed, k);
    }
    assert forall|k: int| 0 <= k < n implies #[trigger] kept(plan, then, then.verify, k) by {
        assert(kept(plan, run, run.w.candidates, k));
        lemma_kept_alike(plan, run, then, run.w.candidates, k);
    }
    assert forall|q: Seq<Seq<u8>>| #[trigger] then.tree.contains_key(q) implies doomed(
        plan,
        then,
        q,
    ) || exists|k: int| 0 <= k < n && (#[trigger] plan.entries[k]).place == q by {
        lemma_rest_has_counterparts(plan, run, q);
    }
}

/// At every turn of a run that is told the truth, what is behind the walk is
/// mirrored and what is ahead can still be; the walk asks on or is finished,
/// and never fails.
pub(crate) proof fn lemma_every_step(plan: Plan, run: Run, turn: Turn)
    requires
        sound(plan),
        !plan.config.dry_run,
        invariant_of(plan, run),
        truthful(plan, run, turn.event),
        unused(run.tree, turn.made),
    ensures
        invariant_of(plan, next_run(plan, run, turn)),
        step_of(run.w, turn.event).1.next is Ask || step_of(run.w, turn.event).1.next is Finished,
{
    match run.w.phase {
        SyncPhase::Preparing => lemma_preparing_step(plan, run, turn),
        SyncPhase::Reading(_, _) => lemma_reading_step(plan, run, turn),
        SyncPhase::Surveying => {
            if turn.event == Event::<Seq<u8>>::Answer(true) {
                lemma_plain_step(plan, run, turn);
            } else {
                lemma_last_step(plan, run, turn);
            }
        },
        SyncPhase::Listing => {
            if turn.event is End {
                lemma_last_step(plan, run, turn);
            } else {
                lemma_plain_step(plan, run, turn);
            }
        },
        SyncPhase::Ready => lemma_plain_step(plan, run, turn),
        SyncPhase::Opening => lemma_plain_step(plan, run, turn),
        SyncPhase::Walking => lemma_plain_step(plan, run, turn),
        SyncPhase::Resolving(_) => lemma_plain_step(plan, run, turn),
        SyncPhase::OpeningList => lemma_plain_step(plan, run, turn),
        SyncPhase::Done => {},
        _ => {
            if first_of(run.w.phase) is Some {
                lemma_name_step(plan, run, turn);
            } else {
                lemma_entry_step(plan, run, turn);
            }
        },
    }
}

/// The terms of their own are what they stand for.
pub(crate) proof fn lemma_terms(plan: Plan, run: Run, turn: Turn)
    ensures
        next_run(plan, run, turn) == run_step(plan, run, turn),
        step_of(run.w, turn.event) == sync_step(run.w, turn.event),
{
    reveal(step_of);
    reveal(next_run);
}

pub(crate) proof fn lemma_every_run(plan: Plan, run: Run, turns: Seq<Turn>)
    requires
        sound(plan),
        !plan.config.dry_run,
        invariant_of(plan, run),
        faithful(plan, run, turns),
    ensures
        invariant_of(plan, after(plan, run, turns)),
        after(plan, run, turns).start == run.start,
    decreases turns.len(),
{
    if turns.len() > 0 {
        let turn = turns[0];
        let ready = carried_out(plan, run, turn.work);
        lemma_work_keeps_invariant(plan, run, turn.work);
        lemma_work_leaves_the_walk(plan, run, turn.work);
        lemma_every_step(plan, ready, turn);
        lemma_counts(plan, ready, turn);
        lemma_terms(plan, ready, turn);
        lemma_every_run(plan, turned(plan, run, turn), turns.skip(1));
    }
}

/// A run begins in order.
pub(crate) proof fn lemma_at_start(plan: Plan, tree: Tree)
    requires
        sound(plan),
        fit(plan, tree),
    ensures
        invariant_of(plan, at_start(plan, tree)),
{
    let start = at_start(plan, tree);
    assert(start.w.seen =~= places(plan, 0));
}

/// A run that is told the truth from its beginning to its end makes the
/// destination a replica of the source, whatever stood there before, if no
/// special file stands in the place of a file. What is left to workers may be
/// done at any time, during the walk or after it, in any order, and so may the
/// removals and comparisons after the walk: once nothing is left to be done,
/// the replica is there.
pub proof fn law_run_makes_a_replica(
    plan: Plan,
    tree: Tree,
    turns: Seq<Turn>,
    order: Seq<Work>,
)
    requires
        sound(plan),
        !plan.config.dry_run,
        fit(plan, tree),
        faithful(plan, at_start(plan, tree), turns),
        after(plan, at_start(plan, tree), turns).w.phase is Done,
        feasible(plan, after(plan, at_start(plan, tree), turns), order),
        all_done(carried_out(plan, after(plan, at_start(plan, tree), turns), order)),
    ensures
        replica(
            plan,
            tree,
            carried_out(plan, after(plan, at_start(plan, tree), turns), order).tree,
        ),
{
    let run = after(plan, at_start(plan, tree), turns);
    lemma_at_start(plan, tree);
    lemma_every_run(plan, at_start(plan, tree), turns);
    lemma_work_keeps_invariant(plan, run, order);
    lemma_work_leaves_the_walk(plan, run, order);
    lemma_all_is_done(plan, carried_out(plan, run, order));
}

/// Once its walk is over, and before what is queued is carried out, a run has
/// all names of a file whose names are mirrored together in place, as names of
/// one file.
pub proof fn law_names_are_linked_by_the_walk(
    plan: Plan,
    tree: Tree,
    turns: Seq<Turn>,
    i: int,
    j: int,
)
    requires
        sound(plan),
        !plan.config.dry_run,
        fit(plan, tree),
        faithful(plan, at_start(plan, tree), turns),
        after(plan, at_start(plan, tree), turns).w.phase is Done,
        0 <= i < plan.entries.len(),
        0 <= j < plan.entries.len(),
        linked(plan, i, j),
    ensures
        ({
            let t = after(plan, at_start(plan, tree), turns).tree;
            let a = node_at(t, plan.entries[i].place);
            let b = node_at(t, plan.entries[j].place);
            &&& a is Some && a->0.meta.kind == FileType::File
            &&& b is Some && b->0.meta.kind == FileType::File
            &&& same_inode(a->0, b->0)
        }),
{
    let run = after(plan, at_start(plan, tree), turns);
    lemma_at_start(plan, tree);
    lemma_every_run(plan, at_start(plan, tree), turns);
    assert(kept(plan, run, run.verify, i) && kept(plan, run, run.verify, j));
    lemma_firm(plan, run, run.verify, i);
    lemma_firm(plan, run, run.verify, j);
    law_inode_key_is_exact(
        plan.entries[i].node.meta.dev,
        plan.entries[i].node.meta.ino,
        plan.entries[j].node.meta.dev,
        plan.entries[j].node.meta.ino,
    );
}

/// After a run that mirrors permissions, every file and every directory has
/// the mode of the source's, and every file has its size, whatever stood there
/// before.
pub proof fn law_modes_are_those_of_the_source(
    plan: Plan,
    tree: Tree,
    turns: Seq<Turn>,
    order: Seq<Work>,
    k: int,
)
    requires
        sound(plan),
        !plan.config.dry_run,
        plan.separate,
        fit(plan, tree),
        faithful(plan, at_start(plan, tree), turns),
        after(plan, at_start(plan, tree), turns).w.phase is Done,
        feasible(plan, after(plan, at_start(plan, tree), turns), order),
        all_done(carried_out(plan, after(plan, at_start(plan, tree), turns), order)),
        0 <= k < plan.entries.len(),
        plan.entries[k].node.meta.kind == FileType::File || plan.entries[k].node.meta.kind
            == FileType::Dir,
    ensures
        ({
            let source = plan.entries[k].node.meta;
            let slot = node_at(
                carried_out(plan, after(plan, at_start(plan, tree), turns), order).tree,
                plan.entries[k].place,
            );
            &&& slot is Some && slot->0.meta.kind == source.kind
            &&& plan.config.no_perms || slot->0.meta.mode == source.mode
            &&& source.kind == FileType::File ==> slot->0.meta.len == source.len
        }),
{
    law_run_makes_a_replica(plan, tree, turns, order);
}

/// After a run with content checks, every file has contents of the same digest
/// as the source's, also where it was found unchanged by its metadata.
pub proof fn law_checked_files_have_the_source_digest(
    plan: Plan,
    tree: Tree,
    turns: Seq<Turn>,
    order: Seq<Work>,
    k: int,
)
    requires
        sound(plan),
        !plan.config.dry_run,
        plan.separate,
        plan.config.checksum,
        fit(plan, tree),
        faithful(plan, at_start(plan, tree), turns),
        after(plan, at_start(plan, tree), turns).w.phase is Done,
        feasible(plan, after(plan, at_start(plan, tree), turns), order),
        all_done(carried_out(plan, after(plan, at_start(plan, tree), turns), order)),
        0 <= k < plan.entries.len(),
        plan.entries[k].node.meta.kind == FileType::File,
    ensures
        ({
            let slot = node_at(
                carried_out(plan, after(plan, at_start(plan, tree), turns), order).tree,
                plan.entries[k].place,
            );
            &&& slot is Some
            &&& blake3_digest(slot->0.data) == blake3_digest(plan.entries[k].node.data)
        }),
{
    law_run_makes_a_replica(plan, tree, turns, order);
}

/// Whether the walk is at the entry of the source that it has met last.
spec fn keeps_up(plan: Plan, run: Run) -> bool {
    &&& run.w.source == plan.source && run.w.dest == plan.dest && run.w.config == plan.config
    &&& run.met <= plan.entries.len()
    &&& match run.w.phase {
        SyncPhase::Resolving(path) => run.met > 0 && path == plan.entries[run.met - 1].path,
        SyncPhase::Reading(path, _) => run.met > 0 && path == plan.entries[run.met - 1].path,
        _ => true,
    }
}

proof fn lemma_walk_keeps_up(plan: Plan, run: Run, turn: Turn)
    requires
        sound(plan),
        keeps_up(plan, run),
        truthful(plan, run, turn.event),
    ensures
        keeps_up(plan, run_step(plan, run, turn)),
        ({
            let next = sync_step(run.w, turn.event).1.next;
            next is Ask || next is Finished
        }),
{
    if run.w.phase is Reading {
        let k = run.met - 1;
        assert(sound_entry(plan, k));
        lemma_target_place(plan, plan.entries[k].place);
    }
}

proof fn lemma_run_keeps_up(plan: Plan, run: Run, turns: Seq<Turn>)
    requires
        sound(plan),
        keeps_up(plan, run),
        faithful(plan, run, turns),
    ensures
        keeps_up(plan, after(plan, run, turns)),
    decreases turns.len(),
{
    if turns.len() > 0 {
        lemma_work_leaves_the_walk(plan, run, turns[0].work);
        lemma_walk_keeps_up(plan, carried_out(plan, run, turns[0].work), turns[0]);
        lemma_run_keeps_up(plan, turned(plan, run, turns[0]), turns.skip(1));
    }
}

/// Told the truth, a run never fails, dry or not: every reply asks on or
/// finishes.
pub proof fn law_truthful_run_never_fails(plan: Plan, tree: Tree, turns: Seq<Turn>, turn: Turn)
    requires
        sound(plan),
        faithful(plan, at_start(plan, tree), turns),
        proper(plan, after(plan, at_start(plan, tree), turns), turn),
    ensures
        ({
            let next = sync_step(after(plan, at_start(plan, tree), turns).w, turn.event).1.next;
            next is Ask || next is Finished
        }),
{
    let run = after(plan, at_start(plan, tree), turns);
    lemma_run_keeps_up(plan, at_start(plan, tree), turns);
    lemma_work_leaves_the_walk(plan, run, turn.work);
    lemma_walk_keeps_up(plan, carried_out(plan, run, turn.work), turn);
}

} // verus!
