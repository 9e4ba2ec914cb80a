//! Every step of a walk that is told the truth keeps what is true of a run.

use vstd::prelude::*;

use crate::care::{
    busy, candidate_of, covered_by, eased, filing, finished, first_of, fresh, in_order, in_place,
    invariant_of, kept, key_of, known, lemma_collected_grows, lemma_earlier_lies_outside,
    lemma_firm, lemma_holder_stands, lemma_kept_under_names, lemma_loosened_is_kept,
    lemma_moved_is_kept, lemma_ordered_is_behind, lemma_sent_grows, lemma_still_ordered,
    lemma_unlocked, lemma_unlocked_spares, loosened, moved, no_more, op_for, ordered, owed, places,
    sendable, sent_for, shared, site_at, stepped, sure, unshared_file, well_under_way,
};
use crate::conduct::at_once;
use crate::entry::{placed, Entry};
use crate::ground::{
    lemma_all_prompt, lemma_created, lemma_cut, lemma_idle_commands, lemma_local_commands,
    lemma_reads, lemma_removed, lemma_sends_append, lemma_sends_of_one, lemma_target_place,
    lemma_tree_effects_append, lemma_tree_effects_of_one, lemma_writing, local, prompt_effects,
    site_of, spare, writing,
};
use crate::metadata::{inode_key, law_inode_key_is_exact, locked, FileType, Metadata};
use crate::mirror::{
    alike, assured, effects, law_at_once_is_assured, law_entry_sets_out, law_entry_stays_on_course,
    law_further_names_are_linked, law_written_file_is_a_copy, met, meta_of, mirrored, on_course,
    pending, possible, true_answer, Node, Site,
};
use crate::path::{below, components, text_of};
use crate::protocol::{given, unlocking, Candidate, Command, Event, Notice, Operation, ReplyView};
use crate::prune::{is_stale, removal, stale_of};
use crate::sync::{sync_step, SyncPhase, SyncView};
use crate::world::{
    can_hold, closed, copied_special, linked, look, mirrorable, new_dir, node_at, place_of, regular,
    run_step, same_inode, sends, sound, sound_entry, target_for, tree_effect, tree_effects,
    truthful, unused, waits, yields, Plan, Run, Tree, Turn,
};

verus! {

/// Whether the commands spare what shares an inode with the target: nothing
/// does, or the target is removed first, or nothing is done, or the target is
/// a file that mirrors the source in the end.
pub open spec fn considerate(
    commands: Seq<Command<Seq<u8>>>,
    plan: Plan,
    k: int,
    site: Site,
    tree: Tree,
) -> bool {
    let r = plan.entries[k].place;
    ||| !tree.contains_key(r)
    ||| tree[r].meta.kind == FileType::Dir
    ||| commands.len() > 0 && commands[0] == Command::RemoveFile(target_for(plan, r))
    ||| forall|i: int| 0 <= i < commands.len() ==> #[trigger] commands[i] is SyncXattrs
    ||| {
        &&& tree[r].meta.kind == FileType::File
        &&& plan.entries[k].node.meta.kind == FileType::File
        &&& forall|i: int| 0 <= i < commands.len() ==> writing(#[trigger] commands[i])
        &&& mirrored(
            plan.entries[k].node,
            plan.config,
            prompt_effects(commands, site, plan.config, Some(tree[r])),
        )
        &&& assured(
            plan.entries[k].node,
            plan.config,
            prompt_effects(commands, site, plan.config, Some(tree[r])),
        )
    }
}

/// What the walk does on an event, as a term of its own.
#[verifier::opaque]
pub open spec fn step_of(w: SyncView, event: Event<Seq<u8>>) -> (SyncView, ReplyView) {
    sync_step(w, event)
}

/// The run one answer further, as a term of its own.
#[verifier::opaque]
pub open spec fn next_run(plan: Plan, run: Run, turn: Turn) -> Run {
    run_step(plan, run, turn)
}

/// The run one answer further, where nothing is removed or compared.
pub(crate) proof fn lemma_next_run(plan: Plan, run: Run, turn: Turn)
    requires
        step_of(run.w, turn.event).1.delete.len() == 0,
        step_of(run.w, turn.event).1.verify.len() == 0,
    ensures
        ({
            let (next, reply) = step_of(run.w, turn.event);
            let then = next_run(plan, run, turn);
            &&& then.w == next
            &&& then.tree == tree_effects(reply.commands, plan, turn.made, run.tree)
            &&& !(run.w.phase is Walking) ==> then.met == run.met
            &&& !(run.w.phase is Listing) ==> then.listed == run.listed
            &&& then.orders == run.orders + reply.commands.map_values(
                |c: Command<Seq<u8>>| (run.met - 1, c),
            )
            &&& then.sent == run.sent + sends(reply.commands)
            &&& then.done == run.done && then.start == run.start
            &&& then.delete == run.delete && then.verify == run.verify
        }),
{
    reveal(step_of);
    reveal(next_run);
    let reply = sync_step(run.w, turn.event).1;
    assert(run.delete + reply.delete =~= run.delete);
    assert(run.verify + reply.verify =~= run.verify);
}

pub(crate) proof fn lemma_entry_commands(
    commands: Seq<Command<Seq<u8>>>,
    plan: Plan,
    k: int,
    site: Site,
    made: Node,
    tree: Tree,
)
    requires
        sound(plan),
        0 <= k < plan.entries.len(),
        site == site_of(plan, k, site.first, site.peer, made),
        regular(plan, tree),
        can_hold(tree, plan.entries[k].place),
        spare(tree, made, plan.entries[k].place),
        forall|i: int| 0 <= i < commands.len() ==> local(#[trigger] commands[i], site),
        considerate(commands, plan, k, site, tree),
    ensures
        ({
            let t = tree_effects(commands, plan, made, tree);
            &&& stepped(plan, k, tree, t)
            &&& node_at(t, plan.entries[k].place) == prompt_effects(
                commands,
                site,
                plan.config,
                node_at(tree, plan.entries[k].place),
            )
        }),
{
    let r = plan.entries[k].place;
    let t = tree_effects(commands, plan, made, tree);
    lemma_local_commands(commands, plan, k, site, made, tree);
    assert(sound_entry(plan, k));
    lemma_target_place(plan, r);
    assert forall|j: int| 0 <= j < k implies #[trigger] moved(plan, tree, t, j) by {
        let place = plan.entries[j].place;
        lemma_earlier_lies_outside(plan, j, k);
        assert(t.contains_key(place) ==> tree.contains_key(place));
        if tree.contains_key(place) && tree.contains_key(r) && tree[r].meta.kind != FileType::Dir {
            if commands.len() > 0 && commands[0] == Command::RemoveFile(site.target) {
                let rest = commands.skip(1);
                assert(commands =~= seq![commands[0]] + rest);
                lemma_tree_effects_append(seq![commands[0]], rest, plan, made, tree);
                lemma_tree_effects_of_one(commands[0], plan, made, tree);
                let cleared = tree.remove(r);
                assert(tree_effect(commands[0], plan, made, tree) == cleared);
                lemma_removed(plan, made, tree, r);
                assert forall|i: int| 0 <= i < rest.len() implies local(
                    #[trigger] rest[i],
                    site,
                ) by {
                    assert(rest[i] == commands[i + 1]);
                }
                lemma_local_commands(rest, plan, k, site, made, cleared);
            } else if forall|i: int|
                0 <= i < commands.len() ==> #[trigger] commands[i] is SyncXattrs {
                lemma_idle_commands(commands, plan, made, tree);
            } else if t[place] != tree[place] {
                assert(same_inode(tree[place], tree[r]));
                assert(tree[place] == tree[r]);
                lemma_writing(commands, plan, k, site, made, tree);
                assert(t[place] == t[r]);
            }
        }
    }
}

/// The phases in which the next answer leads to an operation.
pub open spec fn sending(phase: SyncPhase<Seq<u8>>) -> bool {
    phase is FileWritable && !at_once(phase) || phase is LinkClear
}

/// What the walk orders for an entry concerns its target only. Where something
/// stands there, it is a directory, or it is removed first, or it is let be,
/// or it is a file that is written.
pub(crate) proof fn lemma_orders_are_local(
    w: SyncView,
    site: Site,
    slot: Option<Node>,
    event: Event<Seq<u8>>,
)
    requires
        !w.config.dry_run,
        busy(w.phase),
        first_of(w.phase) is None,
        !sending(w.phase),
        on_course(w, site, slot),
        true_answer(pending(w.phase), event, site, slot),
    ensures
        ({
            let commands = step_of(w, event).1.commands;
            &&& forall|i: int| 0 <= i < commands.len() ==> local(#[trigger] commands[i], site)
            &&& forall|i: int| 0 <= i < commands.len() ==> !(#[trigger] commands[i] is Send)
            &&& {
                ||| slot is None
                ||| slot->0.meta.kind == FileType::Dir
                ||| commands.len() > 0 && commands[0] == Command::RemoveFile(site.target)
                ||| forall|i: int| 0 <= i < commands.len() ==> #[trigger] commands[i] is SyncXattrs
                ||| {
                    &&& w.phase is FileWritable && slot->0.meta.kind == FileType::File
                    &&& forall|i: int| 0 <= i < commands.len() ==> writing(#[trigger] commands[i])
                }
            }
        }),
{
    reveal(step_of);
    let commands = sync_step(w, event).1.commands;
    match w.phase {
        SyncPhase::FileTarget(_, _) => {
            assert(commands.len() <= 1);
        },
        _ => {},
    }
}

/// The place of the entry that is being mirrored lies in a directory that is
/// in place.
pub(crate) proof fn lemma_held(plan: Plan, run: Run)
    requires
        sound(plan),
        in_order(plan, run),
        run.met > 0,
        finished(run) == run.met - 1,
    ensures
        can_hold(run.tree, plan.entries[run.met - 1].place),
{
    lemma_holder_stands(plan, run, run.w.candidates, run.met - 1);
}

/// A known first name of an entry in place is that of an entry in place.
proof fn lemma_first_in_place(plan: Plan, run: Run, j: int) -> (i: int)
    requires
        sound(plan),
        in_order(plan, run),
        run.met > 0,
        busy(run.w.phase),
        well_under_way(plan, run),
        0 <= j < run.met - 1,
        shared(plan, j),
    ensures
        0 <= i < run.met - 1,
        run.w.first_names.contains_key(key_of(plan, j)),
        run.w.first_names[key_of(plan, j)] == target_for(plan, plan.entries[i].place),
{
    let k = run.met - 1;
    let names = run.w.first_names;
    let key = key_of(plan, j);
    assert(kept(plan, run, run.w.candidates, j));
    lemma_firm(plan, run, run.w.candidates, j);
    let i = choose|i: int|
        0 <= i < run.met && i < plan.entries.len() && #[trigger] shared(plan, i) && key_of(plan, i)
            == key && names[key] == target_for(plan, plan.entries[i].place);
    if i == k {
        law_inode_key_is_exact(
            plan.entries[j].node.meta.dev,
            plan.entries[j].node.meta.ino,
            plan.entries[k].node.meta.dev,
            plan.entries[k].node.meta.ino,
        );
        assert(linked(plan, j, k));
        choose|i: int|
            0 <= i < k && #[trigger] shared(plan, i) && first_of(run.w.phase)->0 == target_for(
                plan,
                plan.entries[i].place,
            )
    } else {
        i
    }
}

/// The first name of a file still leads to the same inode while an entry is
/// mirrored.
proof fn lemma_first_stays(plan: Plan, run: Run, t: Tree, j: int)
    requires
        sound(plan),
        in_order(plan, run),
        run.met > 0,
        busy(run.w.phase),
        well_under_way(plan, run),
        eased(plan, run.met - 1, run.tree, t),
        0 <= j < run.met - 1,
        shared(plan, j),
    ensures
        ({
            let first = run.w.first_names[key_of(plan, j)];
            let was = look(plan.dest, run.tree, first);
            let is = look(plan.dest, t, first);
            was is Some && is is Some && same_inode(was->0, is->0)
        }),
{
    assert(kept(plan, run, run.w.candidates, j));
    lemma_firm(plan, run, run.w.candidates, j);
    let i = lemma_first_in_place(plan, run, j);
    assert(sound_entry(plan, i));
    lemma_target_place(plan, plan.entries[i].place);
    assert(moved(plan, run.tree, t, i) || loosened(plan, run.met - 1, run.tree, t, i));
}

/// What the walk knows of the places of entries ahead stays true while an
/// entry is mirrored.
proof fn lemma_ahead_stays(plan: Plan, run: Run, then: Run)
    requires
        sound(plan),
        in_order(plan, run),
        run.met > 0,
        busy(run.w.phase),
        then.start == run.start,
        no_more(plan, run.met - 1, run.tree, then.tree),
    ensures
        forall|j: int|
            run.met <= j < plan.entries.len() ==> #[trigger] yields(plan, then.tree, j),
        forall|j: int| run.met <= j < plan.entries.len() ==> #[trigger] fresh(plan, then, j),
{
    let k = run.met - 1;
    assert forall|j: int| run.met <= j < plan.entries.len() implies #[trigger] yields(
        plan,
        then.tree,
        j,
    ) by {
        assert(yields(plan, run.tree, j));
        assert(plan.entries[j].place != plan.entries[k].place);
        if then.tree.contains_key(plan.entries[j].place) {
            assert(run.tree.contains_key(plan.entries[j].place));
        }
    }
    assert forall|j: int| run.met <= j < plan.entries.len() implies #[trigger] fresh(
        plan,
        then,
        j,
    ) by {
        assert(fresh(plan, run, j));
        assert(plan.entries[j].place != plan.entries[k].place);
    }
}

/// What is taken care of stays so while an entry is mirrored.
proof fn lemma_stays_kept(plan: Plan, run: Run, then: Run, j: int)
    requires
        sound(plan),
        in_order(plan, run),
        run.met > 0,
        busy(run.w.phase),
        well_under_way(plan, run),
        stepped(plan, run.met - 1, run.tree, then.tree),
        then.start == run.start,
        then.w.first_names == run.w.first_names,
        then.sent == run.sent,
        then.done == run.done,
        forall|c: Candidate<Seq<u8>>|
            run.w.candidates.contains(c) ==> #[trigger] then.w.candidates.contains(c),
        0 <= j < run.met - 1,
    ensures
        kept(plan, then, then.w.candidates, j),
{
    assert(kept(plan, run, run.w.candidates, j));
    assert(moved(plan, run.tree, then.tree, j));
    assert(eased(plan, run.met - 1, run.tree, then.tree));
    if shared(plan, j) {
        lemma_first_stays(plan, run, then.tree, j);
    }
    if ordered(plan, run, j) {
        lemma_still_ordered(plan, run, then, j);
    }
    assert forall|i: int| #[trigger]
        covered_by(plan, run, j, i) && then.tree[plan.entries[j].place]
            == run.tree[plan.entries[j].place] implies covered_by(plan, then, j, i) by {
        lemma_still_ordered(plan, run, then, i);
        lemma_covering_stays(plan, run, then, j, i);
    }
    lemma_moved_is_kept(plan, run, then, run.w.candidates, then.w.candidates, j);
}

/// A file that a queued copy is to write stays that file.
proof fn lemma_covering_stays(plan: Plan, run: Run, then: Run, j: int, i: int)
    requires
        sound(plan),
        in_order(plan, run),
        run.met > 0,
        busy(run.w.phase),
        stepped(plan, run.met - 1, run.tree, then.tree),
        0 <= j < run.met - 1,
        covered_by(plan, run, j, i),
        ordered(plan, then, i),
        run.tree.contains_key(plan.entries[j].place),
        then.tree[plan.entries[j].place] == run.tree[plan.entries[j].place],
    ensures
        covered_by(plan, then, j, i),
{
    lemma_ordered_is_behind(plan, run, run.met - 1, i);
    assert(moved(plan, run.tree, then.tree, i));
    assert(moved(plan, run.tree, then.tree, j));
}

/// What is taken care of stays so where the copy of an entry is queued.
proof fn lemma_stays_kept_meanwhile(plan: Plan, run: Run, then: Run, j: int)
    requires
        sound(plan),
        in_order(plan, run),
        run.met > 0,
        busy(run.w.phase),
        well_under_way(plan, run),
        sendable(plan, run.met - 1),
        eased(plan, run.met - 1, run.tree, then.tree),
        unshared_file(plan, run.met - 1) || stepped(
            plan,
            run.met - 1,
            run.tree,
            then.tree,
        ),
        then.start == run.start,
        then.w.first_names == run.w.first_names,
        then.w.candidates == run.w.candidates,
        then.sent == run.sent.push(op_for(plan, run.met - 1)),
        then.done == run.done,
        run.done.subset_of(Set::new(|i: int| 0 <= i < run.sent.len())),
        0 <= j < run.met - 1,
    ensures
        kept(plan, then, then.w.candidates, j),
{
    let k = run.met - 1;
    assert(waits(then, run.sent.len() as int));
    assert(ordered(plan, then, k));
    assert(kept(plan, run, run.w.candidates, j));
    if shared(plan, j) {
        lemma_first_stays(plan, run, then.tree, j);
    }
    if moved(plan, run.tree, then.tree, j) {
        if ordered(plan, run, j) {
            lemma_still_ordered(plan, run, then, j);
        }
        assert forall|i: int| #[trigger]
            covered_by(plan, run, j, i) && then.tree[plan.entries[j].place]
                == run.tree[plan.entries[j].place] implies covered_by(plan, then, j, i) by {
            lemma_still_ordered(plan, run, then, i);
            lemma_ordered_is_behind(plan, run, k, i);
            assert(moved(plan, run.tree, then.tree, i) || loosened(
                plan,
                k,
                run.tree,
                then.tree,
                i,
            ));
        }
        lemma_moved_is_kept(plan, run, then, run.w.candidates, then.w.candidates, j);
    } else {
        lemma_loosened_is_kept(plan, run, then, run.w.candidates, k, j);
    }
}

/// What the walk of an entry is told is true of its site.
pub(crate) proof fn lemma_told_truly(plan: Plan, run: Run, turn: Turn)
    requires
        sound(plan),
        invariant_of(plan, run),
        busy(run.w.phase),
        truthful(plan, run, turn.event),
    ensures
        ({
            let site = site_at(plan, run, turn.made);
            let slot = node_at(run.tree, plan.entries[run.met - 1].place);
            &&& possible(site)
            &&& on_course(run.w, site, slot)
            &&& true_answer(pending(run.w.phase), turn.event, site, slot)
        }),
{
    let k = run.met - 1;
    let r = plan.entries[k].place;
    let site = site_at(plan, run, turn.made);
    assert(sound_entry(plan, k));
    lemma_target_place(plan, r);
    lemma_reads(plan, k);
    assert(plan.entries[k].from != target_for(plan, r));
    match first_of(run.w.phase) {
        Some(first) => {
            let j = choose|j: int|
                0 <= j < k && #[trigger] shared(plan, j) && first == target_for(
                    plan,
                    plan.entries[j].place,
                );
            assert(sound_entry(plan, j));
            lemma_target_place(plan, plan.entries[j].place);
            assert(plan.entries[j].place != r);
        },
        None => {},
    }
}

/// While an entry is mirrored, the walk changes nothing of what it knows but
/// the files that are still to be compared.
pub(crate) proof fn lemma_entry_keeps(w: SyncView, event: Event<Seq<u8>>)
    requires
        busy(w.phase),
    ensures
        ({
            let (next, reply) = step_of(w, event);
            &&& next.source == w.source && next.dest == w.dest && next.config == w.config
            &&& next.seen == w.seen && next.first_names == w.first_names && next.stale == w.stale
            &&& reply.delete.len() == 0 && reply.verify.len() == 0
            &&& busy(next.phase) || next.phase is Walking
            &&& busy(next.phase) ==> first_of(next.phase) == first_of(w.phase)
            &&& filing(next.phase) ==> filing(w.phase) && at_once(next.phase) == at_once(w.phase)
            &&& next.candidates == w.candidates || {
                &&& w.phase is FileTarget && !at_once(w.phase) && next.phase is Walking
                &&& w.config.checksum
                &&& next.candidates == w.candidates.push(
                    Candidate {
                        from: w.phase->FileTarget_0.from,
                        target: w.phase->FileTarget_0.target,
                        len: w.phase->FileTarget_0.meta.len,
                    },
                )
            }
        }),
{
    reveal(step_of);
}

/// What a true answer makes of the entry that is being mirrored.
proof fn lemma_stays_on_course(
    w: SyncView,
    site: Site,
    slot: Option<Node>,
    event: Event<Seq<u8>>,
)
    requires
        !w.config.dry_run,
        busy(w.phase),
        possible(site),
        on_course(w, site, slot),
        true_answer(pending(w.phase), event, site, slot),
    ensures
        ({
            let (next, reply) = step_of(w, event);
            let left = effects(reply.commands, site, w.config, slot);
            &&& on_course(next, site, left)
            &&& reply.next is Ask
            &&& at_once(w.phase) && next.phase is Walking ==> assured(site.source, w.config, left)
            &&& first_of(w.phase) is Some && next.phase is Walking ==> left == site.peer
            &&& w.phase is FileWritable ==> {
                &&& mirrored(site.source, w.config, left)
                &&& assured(site.source, w.config, left)
            }
        }),
{
    reveal(step_of);
    law_entry_stays_on_course(w, site, slot, event);
    if at_once(w.phase) {
        law_at_once_is_assured(w, site, slot, event);
    }
    if first_of(w.phase) is Some {
        law_further_names_are_linked(w, site, slot, event);
    }
    if w.phase is FileWritable {
        law_written_file_is_a_copy(w, site, slot, event);
    }
}

/// An entry that is mirrored in the end is in place.
proof fn lemma_now_in_place(plan: Plan, run: Run, t: Tree)
    requires
        sound(plan),
        in_order(plan, run),
        run.met > 0,
        well_under_way(plan, run),
        busy(run.w.phase),
        stepped(plan, run.met - 1, run.tree, t),
        ({
            let node = plan.entries[run.met - 1].node;
            let slot = node_at(t, plan.entries[run.met - 1].place);
            &&& alike(node, slot)
            &&& plan.separate ==> mirrored(node, plan.config, slot)
            &&& plan.separate && shared(plan, run.met - 1) ==> assured(node, plan.config, slot)
            &&& first_of(run.w.phase) is Some ==> slot == look(
                plan.dest,
                run.tree,
                first_of(run.w.phase)->0,
            )
        }),
    ensures
        in_place(plan, run.w.first_names, t, run.met - 1),
{
    let k = run.met - 1;
    let r = plan.entries[k].place;
    assert(sound_entry(plan, k));
    lemma_target_place(plan, r);
    if first_of(run.w.phase) is Some {
        let first = first_of(run.w.phase)->0;
        let j = choose|j: int|
            0 <= j < k && #[trigger] shared(plan, j) && key_of(plan, j) == key_of(plan, k) && first
                == target_for(plan, plan.entries[j].place);
        assert(sound_entry(plan, j));
        lemma_target_place(plan, plan.entries[j].place);
        assert(kept(plan, run, run.w.candidates, j));
        lemma_firm(plan, run, run.w.candidates, j);
        assert(moved(plan, run.tree, t, j));
    }
}

/// Where the walk of an entry stays on course, the invariant is kept.
pub(crate) proof fn lemma_entry_goes_on(plan: Plan, run: Run, then: Run)
    requires
        sound(plan),
        in_order(plan, run),
        run.met > 0,
        well_under_way(plan, run),
        busy(run.w.phase),
        run.w.stale == Seq::<Seq<u8>>::empty(),
        run.listed == Seq::<Seq<u8>>::empty(),
        then.met == run.met,
        then.listed == run.listed,
        then.w.source == run.w.source,
        then.w.dest == run.w.dest,
        then.w.config == run.w.config,
        then.w.seen == run.w.seen,
        then.w.first_names == run.w.first_names,
        then.w.stale == run.w.stale,
        then.sent == run.sent,
        then.done == run.done,
        then.start == run.start,
        then.delete == run.delete,
        then.verify == run.verify,
        then.w.candidates == run.w.candidates || {
            &&& then.w.candidates == run.w.candidates.push(candidate_of(plan, run.met - 1))
            &&& unshared_file(plan, run.met - 1) && plan.config.checksum && then.w.phase is Walking
        },
        stepped(plan, run.met - 1, run.tree, then.tree),
        on_course(
            then.w,
            site_at(plan, run, plan.entries[run.met - 1].node),
            node_at(then.tree, plan.entries[run.met - 1].place),
        ),
        busy(then.w.phase) || then.w.phase is Walking,
        busy(then.w.phase) ==> first_of(then.w.phase) == first_of(run.w.phase),
        filing(then.w.phase) ==> filing(run.w.phase) && at_once(then.w.phase) == at_once(
            run.w.phase,
        ),
        busy(then.w.phase) && first_of(run.w.phase) is Some ==> then.tree == run.tree,
        then.w.phase is Walking && first_of(run.w.phase) is Some ==> node_at(
            then.tree,
            plan.entries[run.met - 1].place,
        ) == look(plan.dest, run.tree, first_of(run.w.phase)->0),
        then.w.phase is Walking && at_once(run.w.phase) && plan.separate ==> assured(
            plan.entries[run.met - 1].node,
            plan.config,
            node_at(then.tree, plan.entries[run.met - 1].place),
        ),
    ensures
        invariant_of(plan, then),
{
    let k = run.met - 1;
    let t = then.tree;
    lemma_ahead_stays(plan, run, then);
    lemma_collected_grows(plan, run.w.candidates, then.w.candidates, k);
    assert forall|j: int| 0 <= j < k implies #[trigger] kept(
        plan,
        then,
        then.w.candidates,
        j,
    ) by {
        lemma_stays_kept(plan, run, then, j);
    }
    assert(yields(plan, run.tree, k));
    assert(sound_entry(plan, k));
    if busy(then.w.phase) {
        assert(yields(plan, t, k));
        assert(fresh(plan, then, k));
        assert(well_under_way(plan, then));
        assert(in_order(plan, then));
    } else {
        lemma_now_in_place(plan, run, t);
        assert(sure(plan, then.w.candidates, t, k));
        assert(kept(plan, then, then.w.candidates, k));
        lemma_sent_grows(plan, run.sent, k, k + 1);
        assert(in_order(plan, then));
    }
}

/// Where the operation of an entry is queued, the invariant is kept.
proof fn lemma_entry_is_handed_over(plan: Plan, run: Run, then: Run)
    requires
        sound(plan),
        in_order(plan, run),
        run.met > 0,
        well_under_way(plan, run),
        busy(run.w.phase),
        run.w.stale == Seq::<Seq<u8>>::empty(),
        run.listed == Seq::<Seq<u8>>::empty(),
        then.met == run.met,
        then.listed == run.listed,
        then.w == (SyncView { phase: SyncPhase::Walking, ..run.w }),
        sendable(plan, run.met - 1),
        mirrorable(plan.entries[run.met - 1].node.meta.kind),
        then.sent == run.sent.push(op_for(plan, run.met - 1)),
        then.done == run.done,
        then.start == run.start,
        then.delete == run.delete,
        then.verify == run.verify,
        eased(plan, run.met - 1, run.tree, then.tree),
        unshared_file(plan, run.met - 1) || stepped(plan, run.met - 1, run.tree, then.tree),
        ({
            let slot = node_at(then.tree, plan.entries[run.met - 1].place);
            slot is Some ==> {
                &&& unshared_file(plan, run.met - 1)
                &&& slot->0.meta.kind == FileType::File && !locked(slot->0.meta)
            }
        }),
    ensures
        invariant_of(plan, then),
{
    let k = run.met - 1;
    lemma_ahead_stays(plan, run, then);
    lemma_collected_grows(plan, run.w.candidates, then.w.candidates, k);
    assert forall|j: int| 0 <= j < k implies #[trigger] kept(
        plan,
        then,
        then.w.candidates,
        j,
    ) by {
        lemma_stays_kept_meanwhile(plan, run, then, j);
    }
    assert(sound_entry(plan, k));
    assert(waits(then, run.sent.len() as int));
    assert(ordered(plan, then, k));
    assert(kept(plan, then, then.w.candidates, k)) by {
        if then.tree.contains_key(plan.entries[k].place) {
            if plan.separate {
                assert(covered_by(plan, then, k, k));
                assert(owed(plan, then, k));
            }
        }
    }
    lemma_sent_grows(plan, run.sent, k, k + 1);
    assert forall|i: int| 0 <= i < then.sent.len() implies sent_for(
        plan,
        #[trigger] then.sent[i],
        k + 1,
    ) by {
        if i < run.sent.len() {
            assert(then.sent[i] == run.sent[i]);
        } else {
            assert(sendable(plan, k));
        }
    }
    assert(in_order(plan, then));
}

/// What an order for an entry that is not a further name leaves of the tree.
proof fn lemma_entry_tree(plan: Plan, run: Run, turn: Turn)
    requires
        sound(plan),
        !plan.config.dry_run,
        invariant_of(plan, run),
        busy(run.w.phase),
        first_of(run.w.phase) is None,
        !sending(run.w.phase),
        truthful(plan, run, turn.event),
        unused(run.tree, turn.made),
    ensures
        ({
            let commands = step_of(run.w, turn.event).1.commands;
            let t = tree_effects(commands, plan, turn.made, run.tree);
            let r = plan.entries[run.met - 1].place;
            &&& stepped(plan, run.met - 1, run.tree, t)
            &&& sends(commands).len() == 0
            &&& node_at(t, r) == effects(
                commands,
                site_at(plan, run, turn.made),
                plan.config,
                node_at(run.tree, r),
            )
        }),
{
    let k = run.met - 1;
    let site = site_at(plan, run, turn.made);
    let slot = node_at(run.tree, plan.entries[k].place);
    lemma_told_truly(plan, run, turn);
    lemma_held(plan, run);
    lemma_stays_on_course(run.w, site, slot, turn.event);
    lemma_orders_are_local(run.w, site, slot, turn.event);
    lemma_all_prompt(step_of(run.w, turn.event).1.commands, site, plan.config, slot);
    lemma_entry_commands(
        step_of(run.w, turn.event).1.commands,
        plan,
        k,
        site,
        turn.made,
        run.tree,
    );
}

/// What the walk orders where a copy is queued.
proof fn lemma_copy_is_queued(w: SyncView, site: Site, slot: Option<Node>, event: Event<Seq<u8>>)
    requires
        w.phase is FileWritable,
        !at_once(w.phase),
        possible(site),
        on_course(w, site, slot),
        true_answer(pending(w.phase), event, site, slot),
    ensures
        ({
            let (next, reply) = step_of(w, event);
            &&& next == SyncView { phase: SyncPhase::Walking, ..w }
            &&& reply.commands == unlocking(site.target, meta_of(slot)) + seq![
                Command::Size(site.source.meta.len),
                Command::Send(Operation::Copy(site.from, site.target)),
            ]
            &&& reply.next is Ask
        }),
{
    reveal(step_of);
}

/// What the walk orders where a symlink is queued.
proof fn lemma_link_is_queued(w: SyncView, site: Site, slot: Option<Node>, event: Event<Seq<u8>>)
    requires
        w.phase is LinkClear,
        possible(site),
        on_course(w, site, slot),
        true_answer(pending(w.phase), event, site, slot),
    ensures
        ({
            let (next, reply) = step_of(w, event);
            &&& next == SyncView { phase: SyncPhase::Walking, ..w }
            &&& reply.commands == removal(site.target, meta_of(slot)) + seq![
                Command::Send(Operation::Link(site.source.text, site.target)),
            ]
            &&& reply.next is Ask
        }),
{
    reveal(step_of);
}

/// What queues a symlink clears its place and leaves all that came before.
proof fn lemma_cleared(plan: Plan, k: int, made: Node, tree: Tree)
    requires
        sound(plan),
        regular(plan, tree),
        0 <= k < plan.entries.len(),
        plan.entries[k].node.meta.kind == FileType::Symlink,
        can_hold(tree, plan.entries[k].place),
        unused(tree, made),
    ensures
        ({
            let r = plan.entries[k].place;
            let target = target_for(plan, r);
            let commands = removal(target, meta_of(node_at(tree, r))) + seq![
                Command::Send(Operation::Link(plan.entries[k].node.text, target)),
            ];
            let t = tree_effects(commands, plan, made, tree);
            &&& sends(commands) == seq![op_for(plan, k)]
            &&& stepped(plan, k, tree, t)
            &&& !t.contains_key(r)
        }),
{
    let r = plan.entries[k].place;
    let target = target_for(plan, r);
    let slot = node_at(tree, r);
    let clearing = removal(target, meta_of(slot));
    let link = Command::Send(Operation::Link(plan.entries[k].node.text, target));
    let commands = clearing + seq![link];
    assert(sound_entry(plan, k));
    lemma_target_place(plan, r);
    assert(commands.drop_last() =~= clearing);
    lemma_sends_of_one(Command::RemoveFile(target));
    lemma_sends_of_one(Command::RemoveDirAll(target));
    lemma_sends_of_one(link);
    lemma_sends_append(clearing, seq![link]);
    assert(sends(commands) =~= seq![op_for(plan, k)]);
    let t = tree_effects(commands, plan, made, tree);
    assert(t == tree_effects(clearing, plan, made, tree));
    assert(spare(tree, made, r));
    lemma_tree_effects_of_one(Command::RemoveFile(target), plan, made, tree);
    lemma_tree_effects_of_one(Command::RemoveDirAll(target), plan, made, tree);
    if slot is Some {
        if slot->0.meta.kind == FileType::Dir {
            lemma_cut(plan, made, tree, r);
        } else {
            lemma_removed(plan, made, tree, r);
        }
    }
    assert forall|j: int| 0 <= j < k implies #[trigger] moved(plan, tree, t, j) by {
        lemma_earlier_lies_outside(plan, j, k);
    }
}

/// A step that queues the operation of an entry keeps the invariant.
proof fn lemma_sending_step(plan: Plan, run: Run, turn: Turn)
    requires
        sound(plan),
        !plan.config.dry_run,
        invariant_of(plan, run),
        busy(run.w.phase),
        sending(run.w.phase),
        truthful(plan, run, turn.event),
        unused(run.tree, turn.made),
    ensures
        invariant_of(plan, next_run(plan, run, turn)),
        step_of(run.w, turn.event).1.next is Ask,
{
    let k = run.met - 1;
    let r = plan.entries[k].place;
    let site = site_at(plan, run, turn.made);
    let slot = node_at(run.tree, r);
    let then = next_run(plan, run, turn);
    lemma_entry_keeps(run.w, turn.event);
    lemma_next_run(plan, run, turn);
    lemma_told_truly(plan, run, turn);
    if run.w.phase is FileWritable {
        lemma_copy_is_queued(run.w, site, slot, turn.event);
        lemma_unlocked(plan, k, site.source.meta.len, turn.made, run.tree);
        assert forall|j: int| 0 <= j < k implies #[trigger] moved(plan, run.tree, then.tree, j)
            || loosened(plan, k, run.tree, then.tree, j) by {
            lemma_unlocked_spares(plan, k, run.tree, then.tree, j);
        }
        assert(eased(plan, k, run.tree, then.tree)) by {
            assert forall|q: Seq<Seq<u8>>| #[trigger]
                then.tree.contains_key(q) && q != r implies run.tree.contains_key(q)
                && run.tree[q].meta.kind == then.tree[q].meta.kind by {
                assert(run.tree.contains_key(q));
                if run.tree.contains_key(r) && same_inode(run.tree[q], run.tree[r]) {
                    assert(run.tree[q] == run.tree[r]);
                }
            }
        }
    } else {
        lemma_link_is_queued(run.w, site, slot, turn.event);
        lemma_held(plan, run);
        lemma_cleared(plan, k, turn.made, run.tree);
        assert(eased(plan, k, run.tree, then.tree));
    }
    assert(run.sent + seq![op_for(plan, k)] =~= run.sent.push(op_for(plan, k)));
    lemma_entry_is_handed_over(plan, run, then);
}

/// A step of an entry that is not a further name keeps the invariant.
pub(crate) proof fn lemma_entry_step(plan: Plan, run: Run, turn: Turn)
    requires
        sound(plan),
        !plan.config.dry_run,
        invariant_of(plan, run),
        busy(run.w.phase),
        first_of(run.w.phase) is None,
        truthful(plan, run, turn.event),
        unused(run.tree, turn.made),
    ensures
        invariant_of(plan, next_run(plan, run, turn)),
        step_of(run.w, turn.event).1.next is Ask,
{
    if sending(run.w.phase) {
        lemma_sending_step(plan, run, turn);
    } else {
        let k = run.met - 1;
        let site = site_at(plan, run, turn.made);
        let slot = node_at(run.tree, plan.entries[k].place);
        lemma_entry_keeps(run.w, turn.event);
        lemma_next_run(plan, run, turn);
        lemma_told_truly(plan, run, turn);
        lemma_stays_on_course(run.w, site, slot, turn.event);
        lemma_entry_tree(plan, run, turn);
        assert(run.sent + sends(step_of(run.w, turn.event).1.commands) =~= run.sent);
        lemma_entry_goes_on(plan, run, next_run(plan, run, turn));
    }
}

/// Making a place another name of a file in place keeps the tree regular.
proof fn lemma_named(plan: Plan, tree: Tree, k: int, i: int)
    requires
        sound(plan),
        0 <= i < k < plan.entries.len(),
        linked(plan, i, k),
        regular(plan, tree),
        can_hold(tree, plan.entries[k].place),
        !tree.contains_key(plan.entries[k].place),
        tree.contains_key(plan.entries[i].place),
        tree[plan.entries[i].place].meta.kind == FileType::File,
    ensures
        regular(plan, tree.insert(plan.entries[k].place, tree[plan.entries[i].place])),
{
    let r = plan.entries[k].place;
    let f = plan.entries[i].place;
    let peer = tree[f];
    let t = tree.insert(r, peer);
    assert forall|q: Seq<Seq<u8>>| #[trigger] t.contains_key(q) implies can_hold(t, q) by {
        if q != r {
            assert(tree.contains_key(q));
            assert(can_hold(tree, q));
        }
    }
    assert forall|p: Seq<Seq<u8>>, q: Seq<Seq<u8>>|
        #![trigger t.contains_key(p), t.contains_key(q)]
        t.contains_key(p) && t.contains_key(q) && p != q && same_inode(t[p], t[q]) implies t[p]
        == t[q] && t[p].meta.kind != FileType::Dir by {
        if p != r {
            assert(tree.contains_key(p));
        }
        if q != r {
            assert(tree.contains_key(q));
        }
    }
    if plan.separate {
        assert forall|a: int, b: int|
            #![trigger plan.entries[a], plan.entries[b]]
            {
                let x = plan.entries[a];
                let y = plan.entries[b];
                &&& 0 <= a < plan.entries.len() && 0 <= b < plan.entries.len() && a != b
                &&& t.contains_key(x.place) && t.contains_key(y.place)
                &&& same_inode(t[x.place], t[y.place])
                &&& t[x.place].meta.kind == FileType::File
                &&& x.node.meta.kind == FileType::File && y.node.meta.kind == FileType::File
            } implies plan.entries[a].node == plan.entries[b].node by {
            let x = plan.entries[a];
            let y = plan.entries[b];
            assert(plan.entries[k].place == r && plan.entries[i].place == f);
            if a == k {
                assert(y.place != r);
                assert(tree.contains_key(y.place));
                if b != i {
                    assert(plan.entries[i].node == y.node);
                }
            } else if b == k {
                assert(x.place != r);
                assert(tree.contains_key(x.place));
                if a != i {
                    assert(x.node == plan.entries[i].node);
                }
            } else {
                assert(x.place != r && y.place != r);
                assert(tree.contains_key(x.place) && tree.contains_key(y.place));
            }
        }
    }
}

/// What clears the target and makes it another name of the first one leaves
/// what stands there at the target.
proof fn lemma_name_commands(
    plan: Plan,
    k: int,
    i: int,
    made: Node,
    tree: Tree,
)
    requires
        sound(plan),
        0 <= i < k < plan.entries.len(),
        linked(plan, i, k),
        regular(plan, tree),
        can_hold(tree, plan.entries[k].place),
        spare(tree, made, plan.entries[k].place),
        tree.contains_key(plan.entries[i].place),
        tree[plan.entries[i].place].meta.kind == FileType::File,
    ensures
        ({
            let r = plan.entries[k].place;
            let f = plan.entries[i].place;
            let target = target_for(plan, r);
            let commands = removal(target, meta_of(node_at(tree, r))) + seq![
                Command::HardLink(target_for(plan, f), target),
            ];
            let t = tree_effects(commands, plan, made, tree);
            &&& stepped(plan, k, tree, t)
            &&& node_at(t, r) == node_at(tree, f)
        }),
{
    let r = plan.entries[k].place;
    let f = plan.entries[i].place;
    let target = target_for(plan, r);
    let slot = node_at(tree, r);
    let clearing = removal(target, meta_of(slot));
    let linking = Command::HardLink(target_for(plan, f), target);
    assert(sound_entry(plan, k));
    assert(sound_entry(plan, i));
    lemma_target_place(plan, r);
    lemma_target_place(plan, f);
    lemma_earlier_lies_outside(plan, i, k);
    lemma_tree_effects_append(clearing, seq![linking], plan, made, tree);
    let cleared = tree_effects(clearing, plan, made, tree);
    lemma_tree_effects_of_one(linking, plan, made, cleared);
    lemma_tree_effects_of_one(Command::RemoveFile(target), plan, made, tree);
    lemma_tree_effects_of_one(Command::RemoveDirAll(target), plan, made, tree);
    if slot is Some {
        if slot->0.meta.kind == FileType::Dir {
            lemma_cut(plan, made, tree, r);
        } else {
            lemma_removed(plan, made, tree, r);
        }
    }
    assert(!cleared.contains_key(r));
    assert(cleared.contains_key(f) && cleared[f] == tree[f]);
    lemma_named(plan, cleared, k, i);
    let t = cleared.insert(r, cleared[f]);
    assert(tree_effects(clearing + seq![linking], plan, made, tree) == t);
    assert forall|j: int| 0 <= j < k implies #[trigger] moved(plan, tree, t, j) by {
        lemma_earlier_lies_outside(plan, j, k);
    }
}

/// Making a further name queues nothing.
proof fn lemma_names_are_not_queued(target: Seq<u8>, found: Option<Metadata>, first: Seq<u8>)
    ensures
        sends(removal(target, found) + seq![Command::HardLink(first, target)]).len() == 0,
{
    let linking = Command::HardLink(first, target);
    lemma_sends_of_one(Command::RemoveFile(target));
    lemma_sends_of_one(Command::RemoveDirAll(target));
    lemma_sends_of_one(linking);
    lemma_sends_append(removal(target, found), seq![linking]);
}

/// What a further name is ordered while nothing is to be linked yet.
proof fn lemma_name_orders(w: SyncView, event: Event<Seq<u8>>, found: Option<Metadata>)
    requires
        !w.config.dry_run,
        first_of(w.phase) is Some,
        event == Event::<Seq<u8>>::Meta(found),
    ensures
        ({
            let (next, reply) = step_of(w, event);
            match w.phase {
                SyncPhase::NameClear(e, first) => {
                    &&& next.phase is Walking
                    &&& reply.commands == removal(e.target, found) + seq![
                        Command::HardLink(first, e.target),
                    ]
                },
                _ => reply.commands.len() == 0,
            }
        }),
{
    reveal(step_of);
}

/// The first name that a further name is mirrored by is in place.
pub(crate) proof fn lemma_peer(plan: Plan, run: Run) -> (i: int)
    requires
        sound(plan),
        in_order(plan, run),
        run.met > 0,
        busy(run.w.phase),
        well_under_way(plan, run),
        first_of(run.w.phase) is Some,
    ensures
        0 <= i < run.met - 1,
        first_of(run.w.phase)->0 == target_for(plan, plan.entries[i].place),
        linked(plan, i, run.met - 1),
        look(plan.dest, run.tree, first_of(run.w.phase)->0) == node_at(
            run.tree,
            plan.entries[i].place,
        ),
        run.tree.contains_key(plan.entries[i].place),
        run.tree[plan.entries[i].place].meta.kind == FileType::File,
{
    let k = run.met - 1;
    let i = choose|i: int|
        0 <= i < k && #[trigger] shared(plan, i) && key_of(plan, i) == key_of(plan, k) && first_of(
            run.w.phase,
        )->0 == target_for(plan, plan.entries[i].place);
    assert(sound_entry(plan, i));
    assert(kept(plan, run, run.w.candidates, i));
    lemma_firm(plan, run, run.w.candidates, i);
    lemma_target_place(plan, plan.entries[i].place);
    law_inode_key_is_exact(
        plan.entries[i].node.meta.dev,
        plan.entries[i].node.meta.ino,
        plan.entries[k].node.meta.dev,
        plan.entries[k].node.meta.ino,
    );
    i
}

/// What an order for a further name leaves of the tree.
proof fn lemma_name_tree(plan: Plan, run: Run, turn: Turn)
    requires
        sound(plan),
        !plan.config.dry_run,
        invariant_of(plan, run),
        busy(run.w.phase),
        first_of(run.w.phase) is Some,
        truthful(plan, run, turn.event),
        unused(run.tree, turn.made),
    ensures
        ({
            let (next, reply) = step_of(run.w, turn.event);
            let t = tree_effects(reply.commands, plan, turn.made, run.tree);
            let r = plan.entries[run.met - 1].place;
            &&& stepped(plan, run.met - 1, run.tree, t)
            &&& node_at(t, r) == effects(
                reply.commands,
                site_at(plan, run, turn.made),
                plan.config,
                node_at(run.tree, r),
            )
            &&& busy(next.phase) ==> t == run.tree
            &&& sends(reply.commands).len() == 0
        }),
{
    let k = run.met - 1;
    let r = plan.entries[k].place;
    let site = site_at(plan, run, turn.made);
    let slot = node_at(run.tree, r);
    lemma_told_truly(plan, run, turn);
    lemma_entry_keeps(run.w, turn.event);
    let found = turn.event->Meta_0;
    lemma_name_orders(run.w, turn.event, found);
    let i = lemma_peer(plan, run);
    if run.w.phase is NameClear {
        lemma_held(plan, run);
        lemma_name_commands(plan, k, i, turn.made, run.tree);
        lemma_names_are_not_queued(site.target, found, first_of(run.w.phase)->0);
        lemma_stays_on_course(run.w, site, slot, turn.event);
    } else {
        assert forall|j: int| 0 <= j < k implies #[trigger] moved(
            plan,
            run.tree,
            run.tree,
            j,
        ) by {}
    }
}

/// A step of a further name keeps the invariant.
pub(crate) proof fn lemma_name_step(plan: Plan, run: Run, turn: Turn)
    requires
        sound(plan),
        !plan.config.dry_run,
        invariant_of(plan, run),
        busy(run.w.phase),
        first_of(run.w.phase) is Some,
        truthful(plan, run, turn.event),
        unused(run.tree, turn.made),
    ensures
        invariant_of(plan, next_run(plan, run, turn)),
        step_of(run.w, turn.event).1.next is Ask,
{
    let k = run.met - 1;
    let site = site_at(plan, run, turn.made);
    let slot = node_at(run.tree, plan.entries[k].place);
    lemma_entry_keeps(run.w, turn.event);
    lemma_next_run(plan, run, turn);
    lemma_told_truly(plan, run, turn);
    lemma_stays_on_course(run.w, site, slot, turn.event);
    lemma_name_tree(plan, run, turn);
    assert(run.sent + sends(step_of(run.w, turn.event).1.commands) =~= run.sent);
    lemma_entry_goes_on(plan, run, next_run(plan, run, turn));
}

/// What the walk knows once it sets out to mirror an entry.
pub(crate) proof fn lemma_setting_out(
    w: SyncView,
    path: Seq<u8>,
    e: Entry<Seq<u8>>,
    rel: Seq<u8>,
)
    requires
        w.phase == SyncPhase::Reading(path, e.from),
        placed(w.source, w.dest, path) == Some((rel, e.target)),
        mirrorable(e.meta.kind),
    ensures
        ({
            let (next, reply) = step_of(w, Event::Meta(Some(e.meta)));
            let key = inode_key(e.meta.dev, e.meta.ino);
            let shared = w.config.preserve_hardlinks && e.meta.kind == FileType::File
                && e.meta.nlink > 1;
            &&& next.source == w.source && next.dest == w.dest && next.config == w.config
            &&& next.seen == w.seen.insert(components(rel)) && next.stale == w.stale
            &&& next.candidates == w.candidates
            &&& reply.commands.len() == 0 && reply.delete.len() == 0 && reply.verify.len() == 0
            &&& reply.next is Ask
            &&& next.first_names == if shared && !w.first_names.contains_key(key) {
                w.first_names.insert(key, e.target)
            } else {
                w.first_names
            }
            &&& next.phase == match e.meta.kind {
                FileType::Dir => SyncPhase::DirTarget(e),
                FileType::Symlink => SyncPhase::LinkText(e),
                _ => if shared && w.first_names.contains_key(key) {
                    SyncPhase::NameTarget(e, w.first_names[key])
                } else {
                    SyncPhase::FileTarget(e, shared)
                },
            }
        }),
{
    reveal(step_of);
}

/// What the walk knows once it has met a special file.
pub(crate) proof fn lemma_passing_over(
    w: SyncView,
    path: Seq<u8>,
    e: Entry<Seq<u8>>,
    rel: Seq<u8>,
)
    requires
        w.phase == SyncPhase::Reading(path, e.from),
        placed(w.source, w.dest, path) == Some((rel, e.target)),
        !mirrorable(e.meta.kind),
        e.meta.kind != FileType::Other,
    ensures
        ({
            let (next, reply) = step_of(w, Event::Meta(Some(e.meta)));
            &&& next == SyncView {
                seen: w.seen.insert(components(rel)),
                phase: SyncPhase::Walking,
                ..w
            }
            &&& reply.delete.len() == 0 && reply.verify.len() == 0
            &&& reply.commands == given(
                w.config.copy_special,
                seq![
                    if w.config.dry_run {
                        Command::Notice(Notice::CopySpecial(e.from, e.target))
                    } else {
                        Command::Send(Operation::Special(e.from, e.target))
                    },
                ],
            )
            &&& reply.next is Ask
        }),
{
    reveal(step_of);
}

/// A further name has its first name in place.
pub(crate) proof fn lemma_first_known(plan: Plan, run: Run) -> (i: int)
    requires
        sound(plan),
        in_order(plan, run),
        run.met > 0,
        run.w.phase is Reading,
        shared(plan, run.met - 1),
        run.w.first_names.contains_key(key_of(plan, run.met - 1)),
    ensures
        0 <= i < run.met - 1,
        shared(plan, i),
        key_of(plan, i) == key_of(plan, run.met - 1),
        run.w.first_names[key_of(plan, run.met - 1)] == target_for(plan, plan.entries[i].place),
        plan.entries[i].node == plan.entries[run.met - 1].node,
        plan.entries[i].place != plan.entries[run.met - 1].place,
        place_of(plan.dest, target_for(plan, plan.entries[i].place)) == Some(
            plan.entries[i].place,
        ),
        in_place(plan, run.w.first_names, run.tree, i),
        sure(plan, run.w.candidates, run.tree, i),
{
    let k = run.met - 1;
    let key = key_of(plan, k);
    let names = run.w.first_names;
    let i = choose|i: int|
        0 <= i < k && i < plan.entries.len() && #[trigger] shared(plan, i) && key_of(plan, i)
            == key && names[key] == target_for(plan, plan.entries[i].place);
    assert(sound_entry(plan, i));
    lemma_target_place(plan, plan.entries[i].place);
    law_inode_key_is_exact(
        plan.entries[i].node.meta.dev,
        plan.entries[i].node.meta.ino,
        plan.entries[k].node.meta.dev,
        plan.entries[k].node.meta.ino,
    );
    assert(kept(plan, run, run.w.candidates, i));
    lemma_firm(plan, run, run.w.candidates, i);
    assert(plan.entries[i].node == plan.entries[k].node);
    assert(plan.entries[i].place != plan.entries[k].place);
    i
}

/// The walk knows the first names of all it has met, also once it sets out.
proof fn lemma_names_after(plan: Plan, run: Run, names: Map<u128, Seq<u8>>)
    requires
        sound(plan),
        in_order(plan, run),
        run.met > 0,
        run.w.phase is Reading,
        ({
            let k = run.met - 1;
            let key = key_of(plan, k);
            names == if shared(plan, k) && !run.w.first_names.contains_key(key) {
                run.w.first_names.insert(key, target_for(plan, plan.entries[k].place))
            } else {
                run.w.first_names
            }
        }),
    ensures
        known(plan, names, run.met as int),
        forall|j: int|
            0 <= j < run.met - 1 && #[trigger] in_place(
                plan,
                run.w.first_names,
                run.tree,
                j,
            ) ==> in_place(plan, names, run.tree, j),
        !run.w.first_names.contains_key(key_of(plan, run.met - 1)) ==> forall|j: int|
            0 <= j < run.met - 1 ==> !(#[trigger] linked(plan, j, run.met - 1)),
        !shared(plan, run.met - 1) ==> forall|j: int|
            0 <= j < run.met - 1 ==> !(#[trigger] linked(plan, j, run.met - 1)),
{
    let k = run.met - 1;
    let entry = plan.entries[k];
    let was = run.w.first_names;
    assert forall|j: int| 0 <= j < k && linked(plan, j, k) implies was.contains_key(
        key_of(plan, k),
    ) && shared(plan, k) by {
        law_inode_key_is_exact(
            plan.entries[j].node.meta.dev,
            plan.entries[j].node.meta.ino,
            entry.node.meta.dev,
            entry.node.meta.ino,
        );
        assert(kept(plan, run, run.w.candidates, j));
        lemma_firm(plan, run, run.w.candidates, j);
    }
    assert forall|x: u128| #[trigger] names.contains_key(x) implies exists|j: int|
        0 <= j < run.met && j < plan.entries.len() && #[trigger] shared(plan, j) && key_of(plan, j)
            == x && names[x] == target_for(plan, plan.entries[j].place) by {
        if was.contains_key(x) {
            let j = choose|j: int|
                0 <= j < k && j < plan.entries.len() && #[trigger] shared(plan, j) && key_of(
                    plan,
                    j,
                ) == x && was[x] == target_for(plan, plan.entries[j].place);
            assert(shared(plan, j));
        } else {
            assert(shared(plan, k) && key_of(plan, k) == x);
        }
    }
}

/// The site of an entry whose metadata the walk is about to read.
pub open spec fn site_ahead(plan: Plan, run: Run) -> Site {
    let k = run.met - 1;
    let entry = plan.entries[k];
    let names = run.w.first_names;
    let key = key_of(plan, k);
    if shared(plan, k) && names.contains_key(key) {
        site_of(plan, k, names[key], look(plan.dest, run.tree, names[key]), entry.node)
    } else {
        site_of(plan, k, entry.from, None, entry.node)
    }
}

/// What the walk knows of an entry that it is about to mirror is true.
proof fn lemma_met(plan: Plan, run: Run)
    requires
        sound(plan),
        in_order(plan, run),
        run.met > 0,
        run.w.phase is Reading,
        mirrorable(plan.entries[run.met - 1].node.meta.kind),
    ensures
        met(
            run.w,
            site_ahead(plan, run),
            node_at(run.tree, plan.entries[run.met - 1].place),
        ),
{
    let k = run.met - 1;
    assert(sound_entry(plan, k));
    assert(yields(plan, run.tree, k));
    if shared(plan, k) && run.w.first_names.contains_key(key_of(plan, k)) {
        let i = lemma_first_known(plan, run);
    }
}

/// Where the walk has set out to mirror an entry, the invariant is kept.
proof fn lemma_set_out(plan: Plan, run: Run, then: Run)
    requires
        sound(plan),
        invariant_of(plan, run),
        run.w.phase is Reading,
        then.tree == run.tree,
        then.met == run.met,
        then.listed == run.listed,
        then.sent == run.sent,
        then.done == run.done,
        then.start == run.start,
        then.delete == run.delete,
        then.verify == run.verify,
        then.w.source == run.w.source,
        then.w.dest == run.w.dest,
        then.w.config == run.w.config,
        then.w.stale == run.w.stale,
        then.w.candidates == run.w.candidates,
        then.w.seen == run.w.seen.insert(plan.entries[run.met - 1].place),
        on_course(
            then.w,
            site_ahead(plan, run),
            node_at(run.tree, plan.entries[run.met - 1].place),
        ),
        busy(then.w.phase),
        ({
            let k = run.met - 1;
            let key = key_of(plan, k);
            let entry = plan.entries[k];
            let further = shared(plan, k) && run.w.first_names.contains_key(key);
            &&& then.w.first_names == if shared(plan, k) && !run.w.first_names.contains_key(key) {
                run.w.first_names.insert(key, target_for(plan, entry.place))
            } else {
                run.w.first_names
            }
            &&& first_of(then.w.phase) == if further {
                Some(run.w.first_names[key])
            } else {
                None
            }
            &&& filing(then.w.phase) ==> at_once(then.w.phase) == shared(plan, k)
        }),
    ensures
        invariant_of(plan, then),
{
    let k = run.met - 1;
    let key = key_of(plan, k);
    lemma_names_after(plan, run, then.w.first_names);
    assert(yields(plan, run.tree, k));
    assert(then.w.seen =~= places(plan, run.met as int));
    assert(fresh(plan, run, k) && fresh(plan, then, k));
    assert forall|j: int| run.met <= j < plan.entries.len() implies #[trigger] fresh(
        plan,
        then,
        j,
    ) by {
        assert(fresh(plan, run, j));
    }
    assert forall|j: int| 0 <= j < k implies #[trigger] kept(
        plan,
        then,
        then.w.candidates,
        j,
    ) by {
        lemma_kept_under_names(plan, run, then, j);
    }
    assert(in_order(plan, then));
    if shared(plan, k) && run.w.first_names.contains_key(key) {
        let i = lemma_first_known(plan, run);
        assert(shared(plan, i));
    }
    assert(site_at(plan, then, plan.entries[k].node) == site_ahead(plan, run));
    assert(well_under_way(plan, then));
}

/// Setting out to mirror an entry, as a term of its own.
proof fn lemma_sets_out(
    w: SyncView,
    site: Site,
    slot: Option<Node>,
    path: Seq<u8>,
    rel: Seq<u8>,
)
    requires
        w.phase == SyncPhase::Reading(path, site.from),
        placed(w.source, w.dest, path) == Some((rel, site.target)),
        met(w, site, slot),
    ensures
        on_course(step_of(w, Event::Meta(Some(site.source.meta))).0, site, slot),
{
    reveal(step_of);
    law_entry_sets_out(w, site, slot, path, rel);
}

/// Passing over an entry that is not mirrored keeps the invariant.
proof fn lemma_passed_over(plan: Plan, run: Run, then: Run)
    requires
        sound(plan),
        invariant_of(plan, run),
        run.w.phase is Reading,
        !mirrorable(plan.entries[run.met - 1].node.meta.kind),
        then.tree == run.tree,
        then.met == run.met,
        then.listed == run.listed,
        then.sent == if copied_special(plan, run.met - 1) && !plan.config.dry_run {
            run.sent.push(op_for(plan, run.met - 1))
        } else {
            run.sent
        },
        plan.config.dry_run ==> !copied_special(plan, run.met - 1),
        then.done == run.done,
        then.start == run.start,
        then.delete == run.delete,
        then.verify == run.verify,
        then.w == (SyncView {
            seen: run.w.seen.insert(plan.entries[run.met - 1].place),
            phase: SyncPhase::Walking,
            ..run.w
        }),
    ensures
        invariant_of(plan, then),
{
    let k = run.met - 1;
    assert(then.w.seen =~= places(plan, run.met as int));
    lemma_collected_grows(plan, run.w.candidates, then.w.candidates, k);
    assert(fresh(plan, run, k));
    assert(yields(plan, run.tree, k));
    assert forall|j: int| run.met <= j < plan.entries.len() implies #[trigger] fresh(
        plan,
        then,
        j,
    ) by {
        assert(fresh(plan, run, j));
    }
    assert forall|j: int| 0 <= j < k implies #[trigger] kept(
        plan,
        then,
        then.w.candidates,
        j,
    ) by {
        assert(kept(plan, run, run.w.candidates, j));
        lemma_kept_under_names(plan, run, then, j);
    }
    if copied_special(plan, k) {
        assert(waits(then, run.sent.len() as int));
        assert(ordered(plan, then, k));
    }
    assert(kept(plan, then, then.w.candidates, k));
    lemma_sent_grows(plan, run.sent, k, k + 1);
    assert forall|i: int| 0 <= i < then.sent.len() implies sent_for(
        plan,
        #[trigger] then.sent[i],
        k + 1,
    ) by {
        if i < run.sent.len() {
            assert(then.sent[i] == run.sent[i]);
        } else {
            assert(sendable(plan, k));
        }
    }
    assert(known(plan, then.w.first_names, run.met as int)) by {
        assert forall|x: u128| #[trigger] then.w.first_names.contains_key(x) implies exists|j: int|
            0 <= j < run.met && j < plan.entries.len() && #[trigger] shared(plan, j) && key_of(
                plan,
                j,
            ) == x && then.w.first_names[x] == target_for(plan, plan.entries[j].place) by {
            let j = choose|j: int|
                0 <= j < k && j < plan.entries.len() && #[trigger] shared(plan, j) && key_of(
                    plan,
                    j,
                ) == x && run.w.first_names[x] == target_for(plan, plan.entries[j].place);
            assert(shared(plan, j));
        }
    }
}

/// Once the metadata of an entry is read, the walk sets out to mirror it, or
/// passes it over.
pub(crate) proof fn lemma_reading_step(plan: Plan, run: Run, turn: Turn)
    requires
        sound(plan),
        invariant_of(plan, run),
        run.w.phase is Reading,
        truthful(plan, run, turn.event),
        plan.config.dry_run ==> !copied_special(plan, run.met - 1),
    ensures
        invariant_of(plan, next_run(plan, run, turn)),
        step_of(run.w, turn.event).1.next is Ask,
        !copied_special(plan, run.met - 1) ==> step_of(run.w, turn.event).1.commands.len() == 0,
        next_run(plan, run, turn).tree == run.tree,
{
    let k = run.met - 1;
    let entry = plan.entries[k];
    let r = entry.place;
    let rel = text_of(r);
    let e = Entry { from: entry.from, target: target_for(plan, r), meta: entry.node.meta };
    assert(sound_entry(plan, k));
    lemma_target_place(plan, r);
    assert(placed(plan.source, plan.dest, entry.path) == Some((rel, e.target)));
    if mirrorable(entry.node.meta.kind) {
        lemma_setting_out(run.w, entry.path, e, rel);
        lemma_next_run(plan, run, turn);
        assert(run.sent + sends(step_of(run.w, turn.event).1.commands) =~= run.sent);
        lemma_met(plan, run);
        lemma_sets_out(run.w, site_ahead(plan, run), node_at(run.tree, r), entry.path, rel);
        lemma_set_out(plan, run, next_run(plan, run, turn));
    } else {
        lemma_passing_over(run.w, entry.path, e, rel);
        lemma_next_run(plan, run, turn);
        let commands = step_of(run.w, turn.event).1.commands;
        if copied_special(plan, k) {
            let send = Command::Send(op_for(plan, k));
            assert(commands =~= seq![send]);
            lemma_sends_of_one(send);
            lemma_tree_effects_of_one(send, plan, turn.made, run.tree);
            assert(run.sent + seq![op_for(plan, k)] =~= run.sent.push(op_for(plan, k)));
        } else {
            assert(run.sent + sends(commands) =~= run.sent);
        }
        lemma_passed_over(plan, run, next_run(plan, run, turn));
    }
}

/// In a tree whose top is no directory nothing but the top can stand.
pub(crate) proof fn lemma_only_the_top(tree: Tree, q: Seq<Seq<u8>>)
    requires
        closed(tree),
        tree.contains_key(q),
        q.len() > 0,
    ensures
        tree.contains_key(seq![]),
        tree[seq![]].meta.kind == FileType::Dir,
    decreases q.len(),
{
    let holder = q.drop_last();
    assert(can_hold(tree, q));
    if holder.len() == 0 {
        assert(holder =~= seq![]);
    } else {
        lemma_only_the_top(tree, holder);
    }
}

/// A listing that is one path longer has at most that path more to remove.
pub(crate) proof fn lemma_stale_grows(
    list: Seq<Seq<u8>>,
    path: Seq<u8>,
    dest: Seq<u8>,
    seen: Set<Seq<Seq<u8>>>,
)
    ensures
        stale_of(list.push(path), dest, seen) == if is_stale(path, dest, seen) {
            stale_of(list, dest, seen).push(path)
        } else {
            stale_of(list, dest, seen)
        },
        stale_of(seq![], dest, seen) == Seq::<Seq<u8>>::empty(),
{
    reveal(Seq::filter);
    assert(list.push(path).drop_last() =~= list);
}

/// The destination's top, once it is made, is a regular tree to begin with.
pub(crate) proof fn lemma_preparing_step(plan: Plan, run: Run, turn: Turn)
    requires
        sound(plan),
        invariant_of(plan, run),
        run.w.phase is Preparing,
        truthful(plan, run, turn.event),
        unused(run.tree, turn.made),
    ensures
        invariant_of(plan, next_run(plan, run, turn)),
        step_of(run.w, turn.event).1.next is Ask,
{
    let top: Seq<Seq<u8>> = seq![];
    let d = components(plan.dest);
    assert(d.take(d.len() as int) =~= d);
    assert(below(d, d) =~= top);
    lemma_between_entries(run.w, turn.event);
    lemma_next_run(plan, run, turn);
    lemma_tree_effects_of_one(Command::CreateDirAll(plan.dest), plan, turn.made, run.tree);
    let commands = step_of(run.w, turn.event).1.commands;
    let then = next_run(plan, run, turn);
    if commands.len() > 0 && !run.tree.contains_key(top) {
        lemma_created(plan, turn.made, run.tree, top, new_dir(turn.made));
    } else {
        assert(then.tree == run.tree);
    }
    lemma_sends_of_one(Command::CreateDirAll(plan.dest));
    assert(then.sent =~= run.sent);
    assert forall|k: int| 0 <= k < plan.entries.len() implies #[trigger] fresh(plan, then, k) by {
        assert(fresh(plan, run, k));
        assert(plan.entries[0].place =~= top);
        if k > 0 {
            assert(plan.entries[k].place != plan.entries[0].place);
        }
    }
    assert forall|k: int| 0 <= k < plan.entries.len() implies #[trigger] yields(
        plan,
        then.tree,
        k,
    ) by {
        assert(yields(plan, run.tree, k));
    }
}

/// What the walk does between entries.
pub(crate) proof fn lemma_between_entries(w: SyncView, event: Event<Seq<u8>>)
    requires
        match (w.phase, event) {
            (SyncPhase::Ready, Event::Begin) => true,
            (SyncPhase::Preparing, Event::Answer(_)) => true,
            (SyncPhase::Opening, Event::Begun) => true,
            (SyncPhase::Walking, Event::Entry(Some(_))) => true,
            (SyncPhase::Walking, Event::End) => true,
            (SyncPhase::Resolving(_), Event::Path(_)) => true,
            (SyncPhase::Surveying, Event::Answer(is_dir)) => is_dir,
            (SyncPhase::OpeningList, Event::Begun) => true,
            (SyncPhase::Listing, Event::Entry(Some(_))) => true,
            _ => false,
        },
    ensures
        ({
            let (next, reply) = step_of(w, event);
            &&& reply.next is Ask && reply.delete.len() == 0 && reply.verify.len() == 0
            &&& reply.commands == given(
                w.phase is Preparing && event == Event::<Seq<u8>>::Answer(false)
                    && !w.config.dry_run,
                seq![Command::CreateDirAll(w.dest)],
            )
            &&& next == SyncView {
                phase: match (w.phase, event) {
                    (SyncPhase::Ready, _) => SyncPhase::Preparing,
                    (SyncPhase::Preparing, _) => SyncPhase::Opening,
                    (SyncPhase::Opening, _) => SyncPhase::Walking,
                    (SyncPhase::Walking, Event::Entry(Some(path))) => if w.config.dereference {
                        SyncPhase::Resolving(path)
                    } else {
                        SyncPhase::Reading(path, path)
                    },
                    (SyncPhase::Walking, _) => SyncPhase::Surveying,
                    (SyncPhase::Resolving(path), Event::Path(from)) => SyncPhase::Reading(
                        path,
                        from,
                    ),
                    (SyncPhase::Surveying, _) => SyncPhase::OpeningList,
                    _ => SyncPhase::Listing,
                },
                stale: match (w.phase, event) {
                    (SyncPhase::Listing, Event::Entry(Some(path))) => if is_stale(
                        path,
                        w.dest,
                        w.seen,
                    ) {
                        w.stale.push(path)
                    } else {
                        w.stale
                    },
                    _ => w.stale,
                },
                ..w
            }
        }),
{
    reveal(step_of);
}

/// How a run counts what it has met and listed.
pub(crate) proof fn lemma_counts(plan: Plan, run: Run, turn: Turn)
    ensures
        ({
            let then = next_run(plan, run, turn);
            &&& then.met == if run.w.phase is Walking && turn.event is Entry {
                run.met + 1
            } else {
                run.met
            }
            &&& then.listed == match (run.w.phase, turn.event) {
                (SyncPhase::Listing, Event::Entry(Some(path))) => run.listed.push(path),
                _ => run.listed,
            }
            &&& then.done == run.done && then.start == run.start
        }),
{
    reveal(next_run);
}

/// The steps between entries keep the invariant.
pub(crate) proof fn lemma_plain_step(plan: Plan, run: Run, turn: Turn)
    requires
        sound(plan),
        invariant_of(plan, run),
        run.w.phase is Ready || run.w.phase is Opening || run.w.phase is Walking
            || run.w.phase is Resolving || run.w.phase is OpeningList || (run.w.phase is Surveying
            && turn.event == Event::<Seq<u8>>::Answer(true)) || (run.w.phase is Listing
            && turn.event is Entry),
        truthful(plan, run, turn.event),
    ensures
        invariant_of(plan, next_run(plan, run, turn)),
        step_of(run.w, turn.event).1.next is Ask,
        step_of(run.w, turn.event).1.commands.len() == 0,
        step_of(run.w, turn.event).1.delete.len() == 0,
        step_of(run.w, turn.event).1.verify.len() == 0,
        next_run(plan, run, turn).tree == run.tree,
{
    lemma_between_entries(run.w, turn.event);
    lemma_next_run(plan, run, turn);
    lemma_counts(plan, run, turn);
    let then = next_run(plan, run, turn);
    assert(then.tree == run.tree);
    match (run.w.phase, turn.event) {
        (SyncPhase::Walking, Event::Entry(Some(_))) => {
            assert(sound_entry(plan, run.met as int));
        },
        (SyncPhase::OpeningList, _) => {
            lemma_stale_grows(seq![], seq![], plan.dest, run.w.seen);
        },
        (SyncPhase::Listing, Event::Entry(Some(path))) => {
            lemma_stale_grows(run.listed, path, plan.dest, run.w.seen);
        },
        _ => {},
    }
    assert(then.sent =~= run.sent);
    assert forall|k: int| 0 <= k < finished(run) implies #[trigger] kept(
        plan,
        then,
        then.w.candidates,
        k,
    ) by {
        assert(kept(plan, run, run.w.candidates, k));
        lemma_kept_under_names(plan, run, then, k);
    }
    assert forall|k: int| finished(run) <= k < plan.entries.len() implies #[trigger] fresh(
        plan,
        then,
        k,
    ) by {
        assert(fresh(plan, run, k));
    }
}

} // verus!
