//! Runs that have nothing left to do.

use vstd::prelude::*;

use crate::care::{
    busy, candidate_of, collected, doomed, first_of, invariant_of, kept, key_of, moved, places,
    shared, site_at, stems, stepped, unshared_file,
};
use crate::conduct::at_once;
use crate::config::Config;
use crate::course::{
    lemma_between_entries, lemma_counts, lemma_entry_commands, lemma_entry_goes_on,
    lemma_entry_keeps, lemma_first_known, lemma_held, lemma_next_run, lemma_orders_are_local,
    lemma_passing_over, lemma_plain_step, lemma_preparing_step, lemma_reading_step,
    lemma_setting_out, lemma_stale_grows, lemma_told_truly, next_run, sending, step_of,
};
use crate::entry::{placed, Entry};
use crate::ground::{
    lemma_all_prompt, lemma_idle_commands, lemma_reads, lemma_sends_of_one, lemma_target_place,
    local, site_of,
};
use crate::metadata::FileType;
use crate::mirror::{
    effects, law_mirrored_is_settled, law_settled_entry_is_left_alone, let_be, on_course, pending,
    possible, settled, tending, true_answer, undisturbed, Node, Site,
};
use crate::path::{below, components, text_of};
use crate::protocol::{Candidate, Command, Event, ReplyView};
use crate::prune::{is_stale, lemma_filter_holds, lemma_stale_place, stale_of, tops};
use crate::replica::{
    law_run_makes_a_replica, lemma_at_start, lemma_ending, lemma_every_run, lemma_stepping,
    lemma_terms,
};
use crate::sync::{sync_step, SyncView};
use crate::work::{lemma_kept_alike, lemma_work_keeps_invariant, lemma_work_leaves_the_walk};
use crate::world::{
    after, agrees, all_done, apart, at_start, carried_out, copied_special, faithful, feasible, fit,
    linked, look, mirrorable, node_at, one_each, proper, regular, replica, same_inode, sends, sound,
    sound_entry, target_for, tree_effects, truthful, turned, unused, yields, Plan, Run, Tree, Turn,
    Work,
};

verus! {

/// Whether nothing is left to do: the tree holds for each entry of the source
/// what is settled there, nothing else, and names of one file are names of one
/// file. Nothing is said of the places of special files.
pub open spec fn at_rest(plan: Plan, tree: Tree) -> bool {
    let n = plan.entries.len();
    &&& forall|q: Seq<Seq<u8>>| #[trigger]
        tree.contains_key(q) ==> exists|k: int|
            0 <= k < n && (#[trigger] plan.entries[k]).place == q
    &&& forall|k: int|
        0 <= k < n && mirrorable((#[trigger] plan.entries[k]).node.meta.kind) ==> settled(
            plan.entries[k].node,
            plan.config,
            node_at(tree, plan.entries[k].place),
        )
    &&& forall|i: int, j: int|
        0 <= i < n && 0 <= j < n && #[trigger] linked(plan, i, j) ==> same_inode(
            tree[plan.entries[i].place],
            tree[plan.entries[j].place],
        )
}

/// Whether the run copies no special file. One that is copied is copied again
/// by every run.
pub open spec fn nothing_special(plan: Plan) -> bool {
    forall|k: int| 0 <= k < plan.entries.len() ==> !(#[trigger] copied_special(plan, k))
}

/// A replica that was made with its timestamps is at rest, where different
/// files have different files.
pub proof fn law_replica_is_at_rest(plan: Plan, start: Tree, tree: Tree)
    requires
        replica(plan, start, tree),
        plan.separate,
        !plan.config.no_timestamps,
    ensures
        at_rest(plan, tree),
{
    assert forall|k: int|
        0 <= k < plan.entries.len() && mirrorable(
            (#[trigger] plan.entries[k]).node.meta.kind,
        ) implies settled(
        plan.entries[k].node,
        plan.config,
        node_at(tree, plan.entries[k].place),
    ) by {
        law_mirrored_is_settled(
            plan.entries[k].node,
            plan.config,
            node_at(tree, plan.entries[k].place),
        );
    }
}

/// A tree at rest is a replica, whatever stood there before.
pub proof fn law_rest_is_replica(plan: Plan, start: Tree, tree: Tree)
    requires
        nothing_special(plan),
        at_rest(plan, tree),
    ensures
        replica(plan, start, tree),
{
    assert forall|k: int| 0 <= k < plan.entries.len() implies !(#[trigger] copied_special(
        plan,
        k,
    )) by {}
}

/// Whether the walk has found nothing to do for the entry it is at, has queued
/// nothing, and has listed only what is there.
spec fn idle(plan: Plan, run: Run) -> bool {
    &&& run.sent.len() == 0
    &&& busy(run.w.phase) ==> undisturbed(
        run.w,
        site_at(plan, run, plan.entries[run.met - 1].node),
        node_at(run.tree, plan.entries[run.met - 1].place),
    )
    &&& forall|i: int|
        0 <= i < run.listed.len() ==> look(plan.dest, run.tree, #[trigger] run.listed[i]) is Some
}

/// What a settled entry is ordered, as a term of its own.
proof fn lemma_let_be(w: SyncView, site: Site, slot: Option<Node>, event: Event<Seq<u8>>)
    requires
        possible(site),
        busy(w.phase),
        on_course(w, site, slot),
        undisturbed(w, site, slot),
        true_answer(pending(w.phase), event, site, slot),
    ensures
        let_be(w, site, slot, step_of(w, event).0, step_of(w, event).1),
{
    reveal(step_of);
    law_settled_entry_is_left_alone(w, site, slot, event);
}

/// Extended attributes are no part of what stands at a target.
proof fn lemma_no_effects(
    commands: Seq<Command<Seq<u8>>>,
    site: Site,
    config: Config,
    slot: Option<Node>,
)
    requires
        forall|i: int| 0 <= i < commands.len() ==> #[trigger] commands[i] is SyncXattrs,
    ensures
        effects(commands, site, config, slot) == slot,
    decreases commands.len(),
{
    if commands.len() > 0 {
        let front = commands.drop_last();
        assert forall|i: int| 0 <= i < front.len() implies #[trigger] front[i] is SyncXattrs by {
            assert(front[i] == commands[i]);
        }
        lemma_no_effects(front, site, config, slot);
        assert(commands[commands.len() - 1] is SyncXattrs);
    }
}

/// Whether a tree is another one in which only the directory at `r` has
/// changed.
spec fn retouched(tree: Tree, t: Tree, r: Seq<Seq<u8>>) -> bool {
    &&& t.contains_key(r) && same_inode(t[r], tree[r]) && t[r].meta.kind == FileType::Dir
    &&& forall|q: Seq<Seq<u8>>| #[trigger] t.contains_key(q) <==> tree.contains_key(q)
    &&& forall|q: Seq<Seq<u8>>| #[trigger] t.contains_key(q) && q != r ==> t[q] == tree[q]
}

/// What refreshes a directory changes nothing else.
proof fn lemma_tending(
    commands: Seq<Command<Seq<u8>>>,
    plan: Plan,
    k: int,
    site: Site,
    made: Node,
    tree: Tree,
)
    requires
        sound(plan),
        0 <= k < plan.entries.len(),
        site == site_of(plan, k, site.first, site.peer, made),
        one_each(tree),
        tree.contains_key(plan.entries[k].place),
        tree[plan.entries[k].place].meta.kind == FileType::Dir,
        forall|i: int| 0 <= i < commands.len() ==> local(#[trigger] commands[i], site),
        forall|i: int| 0 <= i < commands.len() ==> tending(#[trigger] commands[i]),
    ensures
        retouched(tree, tree_effects(commands, plan, made, tree), plan.entries[k].place),
    decreases commands.len(),
{
    let r = plan.entries[k].place;
    if commands.len() > 0 {
        let front = commands.drop_last();
        assert forall|i: int| 0 <= i < front.len() implies local(#[trigger] front[i], site)
            && tending(front[i]) by {
            assert(front[i] == commands[i]);
        }
        lemma_tending(front, plan, k, site, made, tree);
        let c = commands.last();
        assert(c == commands[commands.len() - 1]);
        assert(local(c, site) && tending(c));
        assert(sound_entry(plan, k));
        lemma_target_place(plan, r);
        let mid = tree_effects(front, plan, made, tree);
        let t = tree_effects(commands, plan, made, tree);
        assert forall|q: Seq<Seq<u8>>| #[trigger] t.contains_key(q) && q != r implies t[q]
            == tree[q] by {
            assert(mid.contains_key(q));
            assert(tree.contains_key(q) && tree.contains_key(r));
        }
    }
}

/// A tree at rest stays so where only a settled directory of it has changed.
proof fn lemma_rest_of_directory(plan: Plan, k: int, tree: Tree, t: Tree)
    requires
        sound(plan),
        0 <= k < plan.entries.len(),
        at_rest(plan, tree),
        retouched(tree, t, plan.entries[k].place),
        settled(plan.entries[k].node, plan.config, node_at(t, plan.entries[k].place)),
    ensures
        at_rest(plan, t),
{
    let n = plan.entries.len();
    let r = plan.entries[k].place;
    assert forall|j: int|
        0 <= j < n && mirrorable((#[trigger] plan.entries[j]).node.meta.kind) implies settled(
        plan.entries[j].node,
        plan.config,
        node_at(t, plan.entries[j].place),
    ) by {
        assert(tree.contains_key(plan.entries[j].place));
        assert(t.contains_key(plan.entries[j].place));
    }
    assert forall|i: int, j: int| 0 <= i < n && 0 <= j < n && #[trigger] linked(plan, i, j) implies
        same_inode(t[plan.entries[i].place], t[plan.entries[j].place]) by {
        let p = plan.entries[i].place;
        let q = plan.entries[j].place;
        assert(settled(plan.entries[i].node, plan.config, node_at(tree, p)));
        assert(settled(plan.entries[j].node, plan.config, node_at(tree, q)));
        assert(t.contains_key(p) && t.contains_key(q));
    }
}

/// What refreshes a settled directory keeps the tree at rest.
proof fn lemma_resting_directory(plan: Plan, run: Run, turn: Turn)
    requires
        sound(plan),
        !plan.config.dry_run,
        invariant_of(plan, run),
        at_rest(plan, run.tree),
        busy(run.w.phase),
        plan.entries[run.met - 1].node.meta.kind == FileType::Dir,
        truthful(plan, run, turn.event),
        unused(run.tree, turn.made),
        let_be(
            run.w,
            site_at(plan, run, turn.made),
            node_at(run.tree, plan.entries[run.met - 1].place),
            step_of(run.w, turn.event).0,
            step_of(run.w, turn.event).1,
        ),
    ensures
        ({
            let commands = step_of(run.w, turn.event).1.commands;
            let t = tree_effects(commands, plan, turn.made, run.tree);
            let r = plan.entries[run.met - 1].place;
            &&& at_rest(plan, t)
            &&& sends(commands).len() == 0
            &&& stepped(plan, run.met - 1, run.tree, t)
            &&& node_at(t, r) == effects(
                commands,
                site_at(plan, run, turn.made),
                plan.config,
                node_at(run.tree, r),
            )
        }),
{
    let k = run.met - 1;
    let r = plan.entries[k].place;
    let site = site_at(plan, run, turn.made);
    let slot = node_at(run.tree, r);
    let commands = step_of(run.w, turn.event).1.commands;
    let t = tree_effects(commands, plan, turn.made, run.tree);
    lemma_told_truly(plan, run, turn);
    lemma_entry_keeps(run.w, turn.event);
    assert(settled(plan.entries[k].node, plan.config, slot));
    lemma_held(plan, run);
    assert(!sending(run.w.phase));
    lemma_orders_are_local(run.w, site, slot, turn.event);
    lemma_all_prompt(commands, site, plan.config, slot);
    lemma_entry_commands(commands, plan, k, site, turn.made, run.tree);
    lemma_tending(commands, plan, k, site, turn.made, run.tree);
    lemma_rest_of_directory(plan, k, run.tree, t);
}

/// An entry of a tree at rest is let be.
proof fn lemma_resting_entry(plan: Plan, run: Run, turn: Turn)
    requires
        sound(plan),
        invariant_of(plan, run),
        at_rest(plan, run.tree),
        idle(plan, run),
        busy(run.w.phase),
        truthful(plan, run, turn.event),
        unused(run.tree, turn.made),
    ensures
        ({
            let (next, reply) = step_of(run.w, turn.event);
            let site = site_at(plan, run, turn.made);
            let r = plan.entries[run.met - 1].place;
            let slot = node_at(run.tree, r);
            let t = tree_effects(reply.commands, plan, turn.made, run.tree);
            &&& let_be(run.w, site, slot, next, reply)
            &&& at_rest(plan, t)
            &&& sends(reply.commands).len() == 0
            &&& stepped(plan, run.met - 1, run.tree, t)
            &&& node_at(t, r) == effects(reply.commands, site, plan.config, slot)
            &&& plan.entries[run.met - 1].node.meta.kind == FileType::Dir || t == run.tree
        }),
{
    let k = run.met - 1;
    let r = plan.entries[k].place;
    let site = site_at(plan, run, turn.made);
    let slot = node_at(run.tree, r);
    let commands = step_of(run.w, turn.event).1.commands;
    lemma_told_truly(plan, run, turn);
    lemma_let_be(run.w, site, slot, turn.event);
    if plan.entries[k].node.meta.kind == FileType::Dir && !plan.config.dry_run {
        lemma_resting_directory(plan, run, turn);
    } else {
        lemma_idle_commands(commands, plan, turn.made, run.tree);
        lemma_no_effects(commands, site, plan.config, slot);
        lemma_all_prompt(commands, site, plan.config, slot);
        assert forall|j: int| 0 <= j < k implies #[trigger] moved(
            plan,
            run.tree,
            run.tree,
            j,
        ) by {}
    }
}

/// What a run on a tree at rest keeps to, at every turn.
spec fn resting(plan: Plan, run: Run, reply: ReplyView, then: Run) -> bool {
    &&& invariant_of(plan, then) && at_rest(plan, then.tree) && idle(plan, then)
    &&& restful(plan, run.tree, reply)
}

/// Whether a reply orders nothing but to refresh what is not compared, and to
/// compare contents that agree.
pub open spec fn restful(plan: Plan, tree: Tree, reply: ReplyView) -> bool {
    &&& forall|i: int| 0 <= i < reply.commands.len() ==> tending(#[trigger] reply.commands[i])
    &&& plan.config.dry_run || (!plan.config.ownership && !plan.config.copy_xattrs)
        ==> reply.commands.len() == 0
    &&& reply.delete.len() == 0
    &&& !plan.config.checksum ==> reply.verify.len() == 0
    &&& forall|i: int|
        0 <= i < reply.verify.len() ==> agrees(#[trigger] reply.verify[i], plan, tree)
}

/// A step of an entry of a tree at rest.
proof fn lemma_resting_entry_step(plan: Plan, run: Run, turn: Turn)
    requires
        sound(plan),
        invariant_of(plan, run),
        at_rest(plan, run.tree),
        idle(plan, run),
        busy(run.w.phase),
        truthful(plan, run, turn.event),
        unused(run.tree, turn.made),
    ensures
        resting(plan, run, step_of(run.w, turn.event).1, next_run(plan, run, turn)),
{
    let k = run.met - 1;
    let then = next_run(plan, run, turn);
    lemma_told_truly(plan, run, turn);
    lemma_resting_entry(plan, run, turn);
    lemma_entry_keeps(run.w, turn.event);
    lemma_next_run(plan, run, turn);
    assert(then.sent =~= run.sent);
    assert(sound_entry(plan, k));
    if first_of(run.w.phase) is Some {
        assert(plan.entries[k].node.meta.kind == FileType::File);
        assert(then.tree == run.tree);
        assert(node_at(run.tree, plan.entries[k].place) == look(
            plan.dest,
            run.tree,
            first_of(run.w.phase)->0,
        ));
    }
    if at_once(run.w.phase) {
        assert(settled(
            plan.entries[k].node,
            plan.config,
            node_at(then.tree, plan.entries[k].place),
        ));
    }
    lemma_entry_goes_on(plan, run, then);
    assert(idle(plan, then));
}

/// An entry of a tree at rest is met with nothing to do.
proof fn lemma_resting_entry_is_met(plan: Plan, run: Run, turn: Turn)
    requires
        sound(plan),
        nothing_special(plan),
        invariant_of(plan, run),
        at_rest(plan, run.tree),
        idle(plan, run),
        run.w.phase is Reading,
        truthful(plan, run, turn.event),
    ensures
        resting(plan, run, step_of(run.w, turn.event).1, next_run(plan, run, turn)),
{
    let k = run.met - 1;
    let entry = plan.entries[k];
    let r = entry.place;
    let e = Entry { from: entry.from, target: target_for(plan, r), meta: entry.node.meta };
    let then = next_run(plan, run, turn);
    assert(!copied_special(plan, k));
    lemma_sends_of_one(Command::Size(0));
    lemma_reading_step(plan, run, turn);
    assert(sound_entry(plan, k));
    lemma_target_place(plan, r);
    assert(placed(plan.source, plan.dest, entry.path) == Some((text_of(r), e.target)));
    if mirrorable(entry.node.meta.kind) {
        lemma_setting_out(run.w, entry.path, e, text_of(r));
        lemma_next_run(plan, run, turn);
        assert(step_of(run.w, turn.event).1.commands =~= seq![]);
        assert(then.sent =~= run.sent);
        assert(settled(entry.node, plan.config, node_at(run.tree, r)));
        if shared(plan, k) && run.w.first_names.contains_key(key_of(plan, k)) {
            let i = lemma_first_known(plan, run);
            assert(linked(plan, i, k));
            assert(settled(
                plan.entries[i].node,
                plan.config,
                node_at(run.tree, plan.entries[i].place),
            ));
        }
    } else {
        lemma_passing_over(run.w, entry.path, e, text_of(r));
        lemma_next_run(plan, run, turn);
        assert(step_of(run.w, turn.event).1.commands =~= seq![]);
        assert(then.sent =~= run.sent);
    }
}

/// Of a tree at rest nothing is removed.
proof fn lemma_nothing_stale(plan: Plan, tree: Tree, listed: Seq<Seq<u8>>)
    requires
        sound(plan),
        at_rest(plan, tree),
        forall|i: int|
            0 <= i < listed.len() ==> look(plan.dest, tree, #[trigger] listed[i]) is Some,
    ensures
        tops(stale_of(listed, plan.dest, places(plan, plan.entries.len() as int))).len() == 0,
{
    let all = places(plan, plan.entries.len() as int);
    let stale = stale_of(listed, plan.dest, all);
    if stale.len() > 0 {
        let path = stale[0];
        assert(stale.contains(path));
        lemma_filter_holds(listed, |path: Seq<u8>| is_stale(path, plan.dest, all), path);
        lemma_stale_place(path, plan.dest, all);
        let i = listed.index_of(path);
        assert(look(plan.dest, tree, listed[i]) is Some);
        assert(tree.contains_key(below(components(path), components(plan.dest))));
    }
    reveal(Seq::filter);
    assert(stale =~= seq![]);
}

/// What is to be compared at the end of a run on a tree at rest agrees.
proof fn lemma_all_agree(plan: Plan, tree: Tree, list: Seq<Candidate<Seq<u8>>>, i: int)
    requires
        sound(plan),
        at_rest(plan, tree),
        collected(plan, list, plan.entries.len() as int),
        plan.config.checksum,
        0 <= i < list.len(),
    ensures
        agrees(list[i], plan, tree),
{
    assert(stems(plan, list[i], plan.entries.len() as int));
    let k = choose|k: int|
        0 <= k < plan.entries.len() && k < plan.entries.len() && list[i] == candidate_of(plan, k)
            && #[trigger] unshared_file(plan, k);
    assert(sound_entry(plan, k));
    assert(settled(plan.entries[k].node, plan.config, node_at(tree, plan.entries[k].place)));
    lemma_target_place(plan, plan.entries[k].place);
    lemma_reads(plan, k);
}

/// The last step of a run on a tree at rest.
proof fn lemma_resting_end(plan: Plan, run: Run, turn: Turn)
    requires
        sound(plan),
        nothing_special(plan),
        invariant_of(plan, run),
        at_rest(plan, run.tree),
        idle(plan, run),
        (run.w.phase is Surveying && turn.event == Event::<Seq<u8>>::Answer(false)) || (
        run.w.phase is Listing && turn.event is End),
    ensures
        resting(plan, run, step_of(run.w, turn.event).1, next_run(plan, run, turn)),
{
    lemma_stale_grows(seq![], seq![], plan.dest, run.w.seen);
    lemma_nothing_stale(plan, run.tree, run.listed);
    lemma_ending(run.w, turn.event);
    lemma_stepping(plan, run, turn);
    lemma_counts(plan, run, turn);
    let then = next_run(plan, run, turn);
    let reply = step_of(run.w, turn.event).1;
    lemma_sends_of_one(Command::Size(0));
    assert(reply.commands =~= seq![]);
    assert(then.sent =~= run.sent);
    assert(then.delete =~= seq![]);
    assert(then.verify =~= run.w.candidates);
    assert(then.tree == run.tree);
    assert forall|i: int| 0 <= i < reply.verify.len() implies agrees(
        #[trigger] reply.verify[i],
        plan,
        run.tree,
    ) by {
        lemma_all_agree(plan, run.tree, run.w.candidates, i);
    }
    assert forall|k: int| 0 <= k < plan.entries.len() implies #[trigger] kept(
        plan,
        then,
        then.verify,
        k,
    ) by {
        assert(kept(plan, run, run.w.candidates, k));
        lemma_kept_alike(plan, run, then, run.w.candidates, k);
    }
    assert forall|q: Seq<Seq<u8>>| !(#[trigger] doomed(plan, then, q)) by {}
}

/// A step of a run on a tree at rest between entries.
proof fn lemma_resting_between(plan: Plan, run: Run, turn: Turn)
    requires
        sound(plan),
        invariant_of(plan, run),
        at_rest(plan, run.tree),
        idle(plan, run),
        !busy(run.w.phase),
        !(run.w.phase is Reading),
        !(run.w.phase is Surveying && turn.event == Event::<Seq<u8>>::Answer(false)),
        !(run.w.phase is Listing && turn.event is End),
        truthful(plan, run, turn.event),
        unused(run.tree, turn.made),
    ensures
        resting(plan, run, step_of(run.w, turn.event).1, next_run(plan, run, turn)),
{
    lemma_between_entries(run.w, turn.event);
    lemma_next_run(plan, run, turn);
    lemma_counts(plan, run, turn);
    if run.w.phase is Preparing {
        lemma_preparing_step(plan, run, turn);
        assert(plan.entries[0].place =~= seq![]);
        assert(settled(plan.entries[0].node, plan.config, node_at(run.tree, seq![])));
        lemma_sends_of_one(Command::Size(0));
        assert(step_of(run.w, turn.event).1.commands =~= seq![]);
        assert(next_run(plan, run, turn).sent =~= run.sent);
    } else {
        lemma_plain_step(plan, run, turn);
        lemma_sends_of_one(Command::Size(0));
        assert(step_of(run.w, turn.event).1.commands =~= seq![]);
        assert(next_run(plan, run, turn).sent =~= run.sent);
    }
}

/// At every turn of a run on a tree at rest, at most owners and extended
/// attributes are refreshed, and the tree stays at rest.
proof fn lemma_resting_step(plan: Plan, run: Run, turn: Turn)
    requires
        sound(plan),
        nothing_special(plan),
        invariant_of(plan, run),
        at_rest(plan, run.tree),
        idle(plan, run),
        truthful(plan, run, turn.event),
        unused(run.tree, turn.made),
    ensures
        resting(plan, run, step_of(run.w, turn.event).1, next_run(plan, run, turn)),
{
    if busy(run.w.phase) {
        lemma_resting_entry_step(plan, run, turn);
    } else if run.w.phase is Reading {
        lemma_resting_entry_is_met(plan, run, turn);
    } else if (run.w.phase is Surveying && turn.event == Event::<Seq<u8>>::Answer(false)) || (
    run.w.phase is Listing && turn.event is End) {
        lemma_resting_end(plan, run, turn);
    } else {
        lemma_resting_between(plan, run, turn);
    }
}

/// On a tree at rest nothing is left to be done besides the walk.
proof fn lemma_nothing_besides(plan: Plan, run: Run, turn: Turn)
    requires
        invariant_of(plan, run),
        idle(plan, run),
        proper(plan, run, turn),
    ensures
        carried_out(plan, run, turn.work) == run,
        truthful(plan, run, turn.event),
        unused(run.tree, turn.made),
{
    lemma_work_leaves_the_walk(plan, run, turn.work);
    assert(!(run.w.phase is Done));
    assert(turn.work.len() == 0);
}

proof fn lemma_resting_run(plan: Plan, run: Run, turns: Seq<Turn>)
    requires
        sound(plan),
        nothing_special(plan),
        invariant_of(plan, run),
        at_rest(plan, run.tree),
        idle(plan, run),
        faithful(plan, run, turns),
    ensures
        invariant_of(plan, after(plan, run, turns)),
        at_rest(plan, after(plan, run, turns).tree),
        idle(plan, after(plan, run, turns)),
    decreases turns.len(),
{
    if turns.len() > 0 {
        lemma_nothing_besides(plan, run, turns[0]);
        lemma_resting_step(plan, run, turns[0]);
        lemma_terms(plan, run, turns[0]);
        lemma_resting_run(plan, turned(plan, run, turns[0]), turns.skip(1));
    }
}

/// A run on a tree at rest, dry or not, changes nothing of it: whatever the
/// run has been told so far, it orders nothing but to refresh owners and
/// extended attributes where they are mirrored, it removes nothing, it
/// compares only contents that agree, and the tree is still at rest. A dry run
/// says nothing.
pub proof fn law_rest_is_not_disturbed(plan: Plan, tree: Tree, turns: Seq<Turn>, turn: Turn)
    requires
        sound(plan),
        nothing_special(plan),
        fit(plan, tree),
        at_rest(plan, tree),
        faithful(plan, at_start(plan, tree), turns),
        proper(plan, after(plan, at_start(plan, tree), turns), turn),
    ensures
        ({
            let run = after(plan, at_start(plan, tree), turns);
            &&& restful(plan, run.tree, sync_step(run.w, turn.event).1)
            &&& at_rest(plan, run.tree)
            &&& at_rest(plan, turned(plan, run, turn).tree)
        }),
{
    let start = at_start(plan, tree);
    lemma_at_start(plan, tree);
    lemma_resting_run(plan, start, turns);
    lemma_nothing_besides(plan, after(plan, start, turns), turn);
    lemma_resting_step(plan, after(plan, start, turns), turn);
    lemma_terms(plan, after(plan, start, turns), turn);
}

/// The same run, dry or not.
pub open spec fn repeated(plan: Plan, dry_run: bool) -> Plan {
    Plan { config: Config { dry_run, ..plan.config }, ..plan }
}

/// What is at rest for a run is at rest for the same run, dry or not.
proof fn lemma_repeated(plan: Plan, made: Tree, dry_run: bool)
    requires
        sound(plan),
        nothing_special(plan),
        regular(plan, made),
        at_rest(plan, made),
    ensures
        sound(repeated(plan, dry_run)),
        nothing_special(repeated(plan, dry_run)),
        fit(repeated(plan, dry_run), made),
        at_rest(repeated(plan, dry_run), made),
{
    let second = repeated(plan, dry_run);
    assert(nothing_special(second)) by {
        assert forall|k: int| 0 <= k < second.entries.len() implies !(#[trigger] copied_special(
            second,
            k,
        )) by {
            assert(!copied_special(plan, k));
        }
    }
    assert(sound(second)) by {
        assert forall|k: int| 0 <= k < second.entries.len() implies #[trigger] sound_entry(
            second,
            k,
        ) by {
            assert(sound_entry(plan, k));
        }
        assert forall|i: int, j: int|
            #![trigger second.entries[i], second.entries[j]]
            0 <= i < second.entries.len() && 0 <= j < second.entries.len() implies {
            let a = second.entries[i];
            let b = second.entries[j];
            &&& i != j ==> a.place != b.place
            &&& a.from == b.from ==> a.node == b.node
            &&& a.node.meta.kind == FileType::File && b.node.meta.kind == FileType::File
                && same_inode(a.node, b.node) ==> a.node == b.node
            &&& a.from != target_for(second, b.place)
        } by {
            assert(plan.entries[i] == second.entries[i] && plan.entries[j] == second.entries[j]);
        }
    }
    assert(fit(second, made)) by {
        assert(plan.separate ==> apart(second, made));
        assert forall|k: int| 0 <= k < second.entries.len() implies #[trigger] yields(
            second,
            made,
            k,
        ) by {
            assert(sound_entry(plan, k));
            assert(plan.entries[k] == second.entries[k]);
        }
    }
    assert(at_rest(second, made)) by {
        assert forall|i: int, j: int|
            0 <= i < second.entries.len() && 0 <= j < second.entries.len() && #[trigger] linked(
                second,
                i,
                j,
            ) implies same_inode(
            made[second.entries[i].place],
            made[second.entries[j].place],
        ) by {
            assert(linked(plan, i, j));
        }
        assert forall|k: int|
            0 <= k < second.entries.len() && mirrorable(
                (#[trigger] second.entries[k]).node.meta.kind,
            ) implies settled(
            second.entries[k].node,
            second.config,
            node_at(made, second.entries[k].place),
        ) by {
            assert(settled(
                plan.entries[k].node,
                plan.config,
                node_at(made, plan.entries[k].place),
            ));
        }
    }
}

/// What a complete run leaves is at rest.
proof fn lemma_first_run_rests(plan: Plan, tree: Tree, turns: Seq<Turn>, order: Seq<Work>)
    requires
        sound(plan),
        !plan.config.dry_run,
        plan.separate,
        !plan.config.no_timestamps,
        fit(plan, tree),
        faithful(plan, at_start(plan, tree), turns),
        after(plan, at_start(plan, tree), turns).w.phase is Done,
        feasible(plan, after(plan, at_start(plan, tree), turns), order),
        all_done(carried_out(plan, after(plan, at_start(plan, tree), turns), order)),
    ensures
        ({
            let end = carried_out(plan, after(plan, at_start(plan, tree), turns), order);
            regular(plan, end.tree) && at_rest(plan, end.tree)
        }),
{
    let run = after(plan, at_start(plan, tree), turns);
    lemma_at_start(plan, tree);
    lemma_every_run(plan, at_start(plan, tree), turns);
    lemma_work_keeps_invariant(plan, run, order);
    law_run_makes_a_replica(plan, tree, turns, order);
    law_replica_is_at_rest(plan, tree, carried_out(plan, run, order).tree);
}

/// A run on what is at rest for the same run, dry or not, finds nothing to do.
proof fn lemma_repeated_is_restful(
    plan: Plan,
    second: Plan,
    made: Tree,
    again: Seq<Turn>,
    turn: Turn,
)
    requires
        sound(plan),
        nothing_special(plan),
        regular(plan, made),
        at_rest(plan, made),
        second == repeated(plan, second.config.dry_run),
        faithful(second, at_start(second, made), again),
        proper(second, after(second, at_start(second, made), again), turn),
    ensures
        ({
            let run = after(second, at_start(second, made), again);
            restful(second, run.tree, sync_step(run.w, turn.event).1)
        }),
{
    lemma_repeated(plan, made, second.config.dry_run);
    law_rest_is_not_disturbed(second, made, again, turn);
}

/// A run that comes after one that is complete, dry or not, finds nothing to
/// do: at every turn it orders at most what a tree at rest is ordered.
pub proof fn law_second_run_finds_nothing_to_do(
    plan: Plan,
    tree: Tree,
    turns: Seq<Turn>,
    order: Seq<Work>,
    made: Tree,
    second: Plan,
    again: Seq<Turn>,
    turn: Turn,
)
    requires
        sound(plan),
        nothing_special(plan),
        !plan.config.dry_run,
        plan.separate,
        !plan.config.no_timestamps,
        fit(plan, tree),
        faithful(plan, at_start(plan, tree), turns),
        after(plan, at_start(plan, tree), turns).w.phase is Done,
        feasible(plan, after(plan, at_start(plan, tree), turns), order),
        all_done(carried_out(plan, after(plan, at_start(plan, tree), turns), order)),
        made == carried_out(plan, after(plan, at_start(plan, tree), turns), order).tree,
        second == repeated(plan, second.config.dry_run),
        faithful(second, at_start(second, made), again),
        proper(second, after(second, at_start(second, made), again), turn),
    ensures
        ({
            let run = after(second, at_start(second, made), again);
            restful(second, run.tree, sync_step(run.w, turn.event).1)
        }),
{
    lemma_first_run_rests(plan, tree, turns, order);
    lemma_repeated_is_restful(plan, second, made, again, turn);
}

} // verus!
