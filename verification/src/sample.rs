//! One whole run, told the truth from its beginning to its end: a directory
//! with a file and a named pipe in it is mirrored onto a directory that holds
//! something else, and what is left to workers is done after the walk, the last
//! operation first.

use vstd::prelude::*;

use crate::config::{Config, Reflink};
use crate::entry::{placed, target_of, Entry};
use crate::ground::{
    lemma_sends_append, lemma_sends_of_one, lemma_tree_effects_append, lemma_tree_effects_of_one,
};
use crate::metadata::{FileType, Metadata};
use crate::mirror::Node;
use crate::path::{components, lemma_components_of_text, plain, text_of};
use crate::protocol::{Command, Event, Operation};
use crate::replica::law_run_makes_a_replica;
use crate::sync::{sync_step, SyncPhase};
use crate::world::{
    after, all_done, at_start, can_hold, carried_out, closed, faithful, feasible, fit, held,
    lemma_place_of_target, node_at, one_each, place_of, replica, run_step, sends, sound,
    sound_entry, target_for, tree_effects, truthful, unused, waits, worked, yields, Plan, Run,
    Source, Task, Tree, Turn, Work,
};

verus! {

/// A path of one name.
spec fn name(letter: u8) -> Seq<Seq<u8>> {
    seq![seq![letter]]
}

/// The top of a tree.
spec fn top() -> Seq<Seq<u8>> {
    seq![]
}

/// What stands somewhere: an empty thing of a kind, with an inode.
spec fn node(kind: FileType, ino: u64) -> Node {
    Node {
        meta: Metadata {
            kind,
            len: 0,
            mtime: 0,
            mtime_nsec: 0,
            mode: 0o644,
            uid: 0,
            gid: 0,
            dev: 0,
            ino,
            nlink: 1,
        },
        text: seq![],
        data: seq![],
    }
}

/// An entry of the source.
spec fn entry(place: Seq<Seq<u8>>, kind: FileType, ino: u64) -> Source {
    let path = target_of(text_of(name(115)), text_of(place));
    Source { place, path, from: path, node: node(kind, ino) }
}

/// A directory with a file and a named pipe, both to be mirrored.
spec fn plan() -> Plan {
    Plan {
        source: text_of(name(115)),
        dest: text_of(name(100)),
        config: Config {
            block_size: 1,
            reflink: Reflink::Never,
            no_perms: false,
            no_timestamps: false,
            ownership: false,
            fsync: false,
            no_target_directory: false,
            dereference: false,
            no_clobber: false,
            copy_special: true,
            dry_run: false,
            copy_xattrs: false,
            preserve_hardlinks: false,
            checksum: false,
        },
        entries: seq![
            entry(top(), FileType::Dir, 1),
            entry(name(102), FileType::File, 2),
            entry(name(112), FileType::Fifo, 7),
        ],
        separate: true,
    }
}

/// A directory that holds a file of another name.
spec fn tree() -> Tree {
    map![top() => node(FileType::Dir, 3), name(120) => node(FileType::File, 4)]
}

/// A turn on which nothing is made and nothing carried out.
spec fn turn(event: Event<Seq<u8>>) -> Turn {
    Turn { work: seq![], event, made: node(FileType::File, 6) }
}

proof fn lemma_names()
    ensures
        plain(top()),
        plain(name(102)),
        plain(name(112)),
        plain(name(120)),
        components(plan().source) == name(115),
        components(plan().dest) == name(100),
        top() != name(102),
        top() != name(112),
        name(102) != name(112),
        name(112) != name(120),
        name(112).drop_last() == top(),
        top() != name(120),
        name(102) != name(120),
        name(102).drop_last() == top(),
        name(120).drop_last() == top(),
{
    assert(seq![115u8][0] != 47 && seq![115u8][0] != 46);
    assert(seq![100u8][0] != 47 && seq![100u8][0] != 46);
    assert(seq![102u8][0] != 47 && seq![102u8][0] != 46);
    assert(seq![112u8][0] != 47 && seq![112u8][0] != 46);
    assert(seq![120u8][0] != 47 && seq![120u8][0] != 46);
    lemma_components_of_text(name(115));
    lemma_components_of_text(name(100));
    assert(name(102)[0][0] != name(120)[0][0]);
    assert(name(102)[0][0] != name(112)[0][0]);
    assert(name(112)[0][0] != name(120)[0][0]);
    assert(name(112).drop_last() =~= top());
    assert(name(102).drop_last() =~= top());
    assert(name(120).drop_last() =~= top());
}

proof fn lemma_paths(place: Seq<Seq<u8>>)
    requires
        plain(place),
    ensures
        place_of(plan().dest, target_for(plan(), place)) == Some(place),
        place_of(plan().source, target_of(plan().source, text_of(place))) == Some(place),
        components(text_of(place)) == place,
        components(target_for(plan(), place))[0] == seq![100u8],
        components(target_of(plan().source, text_of(place)))[0] == seq![115u8],
{
    lemma_names();
    lemma_place_of_target(plan().dest, place);
    lemma_place_of_target(plan().source, place);
    let p = components(target_for(plan(), place));
    let q = components(target_of(plan().source, text_of(place)));
    assert(p.take(1)[0] == name(100)[0]);
    assert(q.take(1)[0] == name(115)[0]);
}

proof fn lemma_sound()
    ensures
        sound(plan()),
        fit(plan(), tree()),
{
    let p = plan();
    lemma_names();
    lemma_paths(top());
    lemma_paths(name(102));
    lemma_paths(name(112));
    assert(seq![115u8][0] != seq![100u8][0]);
    assert(p.entries[0].place == top());
    assert(held(p, 1, name(102).drop_last())) by {
        assert(p.entries[0].node.meta.kind == FileType::Dir);
    }
    assert(held(p, 2, name(112).drop_last())) by {
        assert(p.entries[0].node.meta.kind == FileType::Dir);
    }
    assert forall|k: int| 0 <= k < 3 implies #[trigger] sound_entry(p, k) by {
        assert(k == 0 || k == 1 || k == 2);
    }
    assert forall|k: int| 0 <= k < 3 implies #[trigger] yields(p, tree(), k) by {
        assert(k == 0 || k == 1 || k == 2);
    }
    assert forall|i: int, j: int|
        #![trigger p.entries[i], p.entries[j]]
        0 <= i < 3 && 0 <= j < 3 implies p.entries[i].from != target_for(p, p.entries[j].place) by {
        assert(i == 0 || i == 1 || i == 2);
        assert(j == 0 || j == 1 || j == 2);
    }
    assert(closed(tree())) by {
        assert forall|q: Seq<Seq<u8>>| #[trigger] tree().contains_key(q) implies can_hold(
            tree(),
            q,
        ) by {
            assert(q == top() || q == name(120));
        }
    }
    assert(one_each(tree())) by {
        assert forall|a: Seq<Seq<u8>>, b: Seq<Seq<u8>>|
            #![trigger tree().contains_key(a), tree().contains_key(b)]
            tree().contains_key(a) && tree().contains_key(b) && a != b implies tree()[a].meta.ino
            != tree()[b].meta.ino by {
            assert(a == top() || a == name(120));
            assert(b == top() || b == name(120));
        }
    }
}

/// The operations that the walk queues.
spec fn copy() -> Operation<Seq<u8>> {
    Operation::Copy(plan().entries[1].from, target_for(plan(), name(102)))
}

spec fn pipe() -> Operation<Seq<u8>> {
    Operation::Special(plan().entries[2].from, target_for(plan(), name(112)))
}

/// Whether a run stands at a phase, with the tree as it was before.
spec fn along(
    run: Run,
    phase: SyncPhase<Seq<u8>>,
    met: nat,
    listed: Seq<Seq<u8>>,
    sent: Seq<Operation<Seq<u8>>>,
) -> bool {
    &&& run.w.phase == phase
    &&& run.w.source == plan().source && run.w.dest == plan().dest && run.w.config == plan().config
    &&& run.w.candidates.len() == 0
    &&& run.tree == tree() && run.met == met && run.listed == listed
    &&& run.sent == sent && run.done == Set::<int>::empty() && run.verify.len() == 0
}

/// Where nothing is ordered, the tree and the queue stay as they are.
proof fn lemma_quiet(run: Run, turn: Turn)
    requires
        sync_step(run.w, turn.event).1.commands.len() == 0,
        sync_step(run.w, turn.event).1.delete.len() == 0,
        sync_step(run.w, turn.event).1.verify.len() == 0,
    ensures
        run_step(plan(), run, turn).tree == run.tree,
        run_step(plan(), run, turn).sent == run.sent,
        run_step(plan(), run, turn).done == run.done,
        run_step(plan(), run, turn).verify == run.verify,
{
    let reply = sync_step(run.w, turn.event).1;
    assert(reply.commands =~= seq![]);
    lemma_sends_of_one(Command::Size(0));
    assert(tree_effects(reply.commands, plan(), turn.made, run.tree) == run.tree);
    assert(run.delete + reply.delete =~= run.delete);
    assert(run.verify + reply.verify =~= run.verify);
    assert(run_step(plan(), run, turn).sent =~= run.sent);
}

/// Where an operation is queued last, the tree stays as it is.
proof fn lemma_queueing(run: Run, turn: Turn, n: u64, op: Operation<Seq<u8>>)
    requires
        sync_step(run.w, turn.event).1.delete.len() == 0,
        sync_step(run.w, turn.event).1.verify.len() == 0,
        sync_step(run.w, turn.event).1.commands == seq![Command::Send(op)] || sync_step(
            run.w,
            turn.event,
        ).1.commands == seq![Command::Size(n), Command::Send(op)],
    ensures
        run_step(plan(), run, turn).tree == run.tree,
        run_step(plan(), run, turn).sent == run.sent.push(op),
        run_step(plan(), run, turn).done == run.done,
        run_step(plan(), run, turn).verify == run.verify,
{
    let reply = sync_step(run.w, turn.event).1;
    let send = Command::Send(op);
    lemma_sends_of_one(send);
    lemma_tree_effects_of_one(send, plan(), turn.made, run.tree);
    if reply.commands.len() == 2 {
        let size = reply.commands[0];
        assert(reply.commands =~= seq![size] + seq![send]);
        lemma_sends_of_one(size);
        lemma_sends_append(seq![size], seq![send]);
        lemma_tree_effects_append(seq![size], seq![send], plan(), turn.made, run.tree);
        lemma_tree_effects_of_one(size, plan(), turn.made, run.tree);
    }
    assert(sends(reply.commands) =~= seq![op]);
    assert(tree_effects(reply.commands, plan(), turn.made, run.tree) == run.tree);
    assert(run.delete + reply.delete =~= run.delete);
    assert(run.verify + reply.verify =~= run.verify);
    assert(run_step(plan(), run, turn).sent =~= run.sent.push(op));
}

/// Whether turns bring a run to the end of its walk, with all that it queues
/// still to be carried out.
spec fn ends(run: Run, turns: Seq<Turn>) -> bool {
    let end = after(plan(), run, turns);
    &&& faithful(plan(), run, turns)
    &&& end.w.phase is Done
    &&& end.sent == seq![copy(), pipe()] && end.done == Set::<int>::empty()
    &&& end.verify.len() == 0
    &&& forall|q: Seq<Seq<u8>>| #[trigger]
        end.tree.contains_key(q) ==> end.tree[q].meta.dev == 0 && end.tree[q].meta.ino <= 4
}

/// A turn in front of a run that comes to its end.
proof fn lemma_lead(run: Run, turn: Turn, rest: Seq<Turn>)
    requires
        turn.work.len() == 0,
        truthful(plan(), run, turn.event),
        unused(run.tree, turn.made),
        ends(run_step(plan(), run, turn), rest),
    ensures
        ends(run, seq![turn] + rest),
{
    let turns = seq![turn] + rest;
    assert(turns.skip(1) =~= rest);
    assert(turns[0] == turn);
    assert(carried_out(plan(), run, turn.work) == run);
}

proof fn lemma_unused()
    ensures
        unused(tree(), node(FileType::File, 6)),
        forall|q: Seq<Seq<u8>>| #[trigger]
            tree().contains_key(q) ==> tree()[q].meta.dev == 0 && tree()[q].meta.ino <= 4,
{
    lemma_names();
    assert forall|q: Seq<Seq<u8>>| #[trigger] tree().contains_key(q) implies tree()[q].meta.dev == 0
        && tree()[q].meta.ino <= 4 by {
        assert(q == top() || q == name(120));
    }
}

/// The listing ends, and what has no counterpart is to be removed.
proof fn lemma_last_turn(run: Run, listed: Seq<Seq<u8>>)
    requires
        along(run, SyncPhase::Listing, 3, listed, seq![copy(), pipe()]),
    ensures
        ends(run_step(plan(), run, turn(Event::End)), seq![]),
{
    lemma_unused();
    let t = turn(Event::End);
    let reply = sync_step(run.w, t.event).1;
    let then = run_step(plan(), run, t);
    assert(reply.commands =~= seq![]);
    assert(reply.verify =~= seq![]);
    lemma_sends_of_one(Command::Size(0));
    assert(tree_effects(reply.commands, plan(), t.made, run.tree) == run.tree);
    assert(then.sent =~= run.sent);
    assert forall|q: Seq<Seq<u8>>| #[trigger] then.tree.contains_key(q) implies then.tree[
        q
    ].meta.dev == 0 && then.tree[q].meta.ino <= 4 by {
        assert(tree().contains_key(q));
    }
}

/// The destination is listed; what is queued is not there yet.
proof fn lemma_listing(run: Run) -> (turns: Seq<Turn>)
    requires
        along(run, SyncPhase::Listing, 3, seq![], seq![copy(), pipe()]),
    ensures
        ends(run, turns),
{
    lemma_names();
    lemma_unused();
    lemma_paths(top());
    lemma_paths(name(120));
    let a = target_for(plan(), top());
    let c = target_for(plan(), name(120));
    let t0 = turn(Event::Entry(Some(a)));
    let t1 = turn(Event::Entry(Some(c)));
    let t2 = turn(Event::End);
    let sent = seq![copy(), pipe()];
    let r1 = run_step(plan(), run, t0);
    lemma_quiet(run, t0);
    assert(along(r1, SyncPhase::Listing, 3, seq![].push(a), sent));
    let r2 = run_step(plan(), r1, t1);
    lemma_quiet(r1, t1);
    let listed = seq![].push(a).push(c);
    assert(along(r2, SyncPhase::Listing, 3, listed, sent));
    assert forall|q: Seq<Seq<u8>>| #[trigger] tree().contains_key(q) implies exists|i: int|
        0 <= i < listed.len() && place_of(plan().dest, #[trigger] listed[i]) == Some(q) by {
        assert(listed[0] == a && listed[1] == c);
        assert(q == top() || q == name(120));
    }
    lemma_last_turn(r2, listed);
    lemma_lead(r2, t2, seq![]);
    lemma_lead(r1, t1, seq![t2] + seq![]);
    lemma_lead(run, t0, seq![t1] + (seq![t2] + seq![]));
    seq![t0] + (seq![t1] + (seq![t2] + seq![]))
}

/// The source is at its end, and the destination is a directory.
proof fn lemma_survey(run: Run) -> (turns: Seq<Turn>)
    requires
        along(run, SyncPhase::Walking, 3, seq![], seq![copy(), pipe()]),
    ensures
        ends(run, turns),
{
    lemma_names();
    lemma_unused();
    let t0 = turn(Event::End);
    let t1 = turn(Event::Answer(true));
    let t2 = turn(Event::Begun);
    let sent = seq![copy(), pipe()];
    let r1 = run_step(plan(), run, t0);
    lemma_quiet(run, t0);
    assert(along(r1, SyncPhase::Surveying, 3, seq![], sent));
    assert(tree().contains_key(top()) && tree()[top()] == node(FileType::Dir, 3));
    let r2 = run_step(plan(), r1, t1);
    lemma_quiet(r1, t1);
    assert(along(r2, SyncPhase::OpeningList, 3, seq![], sent));
    let r3 = run_step(plan(), r2, t2);
    lemma_quiet(r2, t2);
    let rest = lemma_listing(r3);
    lemma_lead(r2, t2, rest);
    lemma_lead(r1, t1, seq![t2] + rest);
    lemma_lead(run, t0, seq![t1] + (seq![t2] + rest));
    seq![t0] + (seq![t1] + (seq![t2] + rest))
}

/// The named pipe is met and queued.
proof fn lemma_pipe(run: Run) -> (turns: Seq<Turn>)
    requires
        along(run, SyncPhase::Walking, 2, seq![], seq![copy()]),
    ensures
        ends(run, turns),
{
    lemma_names();
    lemma_unused();
    lemma_paths(name(112));
    let p = plan();
    let f = p.entries[2];
    let target = target_for(p, name(112));
    let t0 = turn(Event::Entry(Some(f.path)));
    let t1 = turn(Event::Meta(Some(f.node.meta)));
    let r1 = run_step(p, run, t0);
    lemma_quiet(run, t0);
    assert(along(r1, SyncPhase::Reading(f.path, f.path), 3, seq![], seq![copy()]));
    assert(placed(p.source, p.dest, f.path) == Some((text_of(name(112)), target)));
    assert(sync_step(r1.w, t1.event).1.commands =~= seq![Command::Send(pipe())]);
    let r2 = run_step(p, r1, t1);
    lemma_queueing(r1, t1, 0, pipe());
    assert(seq![copy()].push(pipe()) =~= seq![copy(), pipe()]);
    let rest = lemma_survey(r2);
    lemma_lead(r1, t1, rest);
    lemma_lead(run, t0, seq![t1] + rest);
    seq![t0] + (seq![t1] + rest)
}

/// The file is met and its copy queued.
proof fn lemma_file(run: Run) -> (turns: Seq<Turn>)
    requires
        along(run, SyncPhase::Walking, 1, seq![], seq![]),
    ensures
        ends(run, turns),
{
    lemma_names();
    lemma_unused();
    lemma_paths(name(102));
    let p = plan();
    let f = p.entries[1];
    let target = target_for(p, name(102));
    let e = Entry { from: f.from, target, meta: f.node.meta };
    let t0 = turn(Event::Entry(Some(f.path)));
    let t1 = turn(Event::Meta(Some(f.node.meta)));
    let t2 = turn(Event::Meta(None));
    let r1 = run_step(p, run, t0);
    lemma_quiet(run, t0);
    assert(along(r1, SyncPhase::Reading(f.path, f.path), 2, seq![], seq![]));
    assert(placed(p.source, p.dest, f.path) == Some((text_of(name(102)), target)));
    let r2 = run_step(p, r1, t1);
    lemma_quiet(r1, t1);
    assert(along(r2, SyncPhase::FileTarget(e, false), 2, seq![], seq![]));
    assert(node_at(tree(), name(102)) is None);
    let r3 = run_step(p, r2, t2);
    lemma_quiet(r2, t2);
    assert(along(r3, SyncPhase::FileWritable(e, false), 2, seq![], seq![]));
    let size = Command::<Seq<u8>>::Size(e.meta.len);
    assert(sync_step(r3.w, t2.event).1.commands =~= seq![size, Command::Send(copy())]);
    let r4 = run_step(p, r3, t2);
    lemma_queueing(r3, t2, e.meta.len, copy());
    assert(Seq::<Operation<Seq<u8>>>::empty().push(copy()) =~= seq![copy()]);
    let rest = lemma_pipe(r4);
    lemma_lead(r3, t2, rest);
    lemma_lead(r2, t2, seq![t2] + rest);
    lemma_lead(r1, t1, seq![t2] + (seq![t2] + rest));
    lemma_lead(run, t0, seq![t1] + (seq![t2] + (seq![t2] + rest)));
    seq![t0] + (seq![t1] + (seq![t2] + (seq![t2] + rest)))
}

/// The top is met and found in place.
proof fn lemma_dir(run: Run) -> (turns: Seq<Turn>)
    requires
        along(run, SyncPhase::Walking, 0, seq![], seq![]),
    ensures
        ends(run, turns),
{
    lemma_names();
    lemma_unused();
    lemma_paths(top());
    let p = plan();
    let d = p.entries[0];
    let target = target_for(p, top());
    let e = Entry { from: d.from, target, meta: d.node.meta };
    let stands = Event::<Seq<u8>>::Meta(Some(node(FileType::Dir, 3).meta));
    let t0 = turn(Event::Entry(Some(d.path)));
    let t1 = turn(Event::Meta(Some(d.node.meta)));
    let t2 = turn(stands);
    let r1 = run_step(p, run, t0);
    lemma_quiet(run, t0);
    assert(along(r1, SyncPhase::Reading(d.path, d.path), 1, seq![], seq![]));
    assert(placed(p.source, p.dest, d.path) == Some((text_of(top()), target)));
    let r2 = run_step(p, r1, t1);
    lemma_quiet(r1, t1);
    assert(along(r2, SyncPhase::DirTarget(e), 1, seq![], seq![]));
    assert(node_at(tree(), top()) == Some(node(FileType::Dir, 3)));
    let r3 = run_step(p, r2, t2);
    lemma_quiet(r2, t2);
    assert(along(r3, SyncPhase::DirMode(e), 1, seq![], seq![]));
    let r4 = run_step(p, r3, t2);
    lemma_quiet(r3, t2);
    let rest = lemma_file(r4);
    lemma_lead(r3, t2, rest);
    lemma_lead(r2, t2, seq![t2] + rest);
    lemma_lead(r1, t1, seq![t2] + (seq![t2] + rest));
    lemma_lead(run, t0, seq![t1] + (seq![t2] + (seq![t2] + rest)));
    seq![t0] + (seq![t1] + (seq![t2] + (seq![t2] + rest)))
}

/// The walk from its beginning.
proof fn lemma_walk() -> (turns: Seq<Turn>)
    ensures
        ends(at_start(plan(), tree()), turns),
{
    lemma_names();
    lemma_unused();
    let p = plan();
    let run = at_start(p, tree());
    let t0 = turn(Event::Begin);
    let t1 = turn(Event::Answer(true));
    let t2 = turn(Event::Begun);
    let r1 = run_step(p, run, t0);
    lemma_quiet(run, t0);
    assert(along(r1, SyncPhase::Preparing, 0, seq![], seq![]));
    assert(tree().contains_key(top()));
    let r2 = run_step(p, r1, t1);
    lemma_quiet(r1, t1);
    assert(along(r2, SyncPhase::Opening, 0, seq![], seq![]));
    let r3 = run_step(p, r2, t2);
    lemma_quiet(r2, t2);
    let rest = lemma_dir(r3);
    lemma_lead(r2, t2, rest);
    lemma_lead(r1, t1, seq![t2] + rest);
    lemma_lead(run, t0, seq![t1] + (seq![t2] + rest));
    seq![t0] + (seq![t1] + (seq![t2] + rest))
}

/// Whether the inodes of a tree are some of the first ones.
spec fn numbered(tree: Tree, n: u64) -> bool {
    forall|q: Seq<Seq<u8>>| #[trigger]
        tree.contains_key(q) ==> tree[q].meta.dev == 0 && tree[q].meta.ino <= n
}

/// Both operations are carried out, the second one first.
proof fn lemma_workers(run: Run) -> (order: Seq<Work>)
    requires
        run.sent == seq![copy(), pipe()],
        run.done == Set::<int>::empty(),
        run.delete.len() == 0,
        run.verify.len() == 0,
        numbered(run.tree, 4),
    ensures
        feasible(plan(), run, order),
        all_done(carried_out(plan(), run, order)),
        order.len() > 0,
        order.last().task == Task::Carry(0),
{
    let first = Work { task: Task::Carry(1), made: node(FileType::File, 5) };
    let second = Work { task: Task::Carry(0), made: node(FileType::File, 6) };
    let order = seq![first, second];
    let mid = worked(plan(), run, first);
    let end = worked(plan(), mid, second);
    assert(order.skip(1) =~= seq![second]);
    assert(seq![second].skip(1) =~= seq![]);
    assert forall|q: Seq<Seq<u8>>| #[trigger] mid.tree.contains_key(q) implies mid.tree[q].meta.ino
        <= 5 by {
        if run.tree.contains_key(q) {
            assert(run.tree[q].meta.ino <= 4);
        }
    }
    assert(feasible(plan(), end, seq![]));
    assert(feasible(plan(), mid, seq![second]));
    assert(feasible(plan(), run, order));
    assert(carried_out(plan(), end, seq![]) == end);
    assert(carried_out(plan(), mid, seq![second]) == end);
    assert(carried_out(plan(), run, order) == end);
    order
}

/// What has no counterpart is removed first.
proof fn lemma_removers(run: Run) -> (order: Seq<Work>)
    requires
        run.sent == seq![copy(), pipe()],
        run.done == Set::<int>::empty(),
        run.verify.len() == 0,
        numbered(run.tree, 4),
    ensures
        feasible(plan(), run, order),
        all_done(carried_out(plan(), run, order)),
        order.len() > 0,
        order.last().task == Task::Carry(0),
    decreases run.delete.len(),
{
    if run.delete.len() == 0 {
        lemma_workers(run)
    } else {
        let work = Work { task: Task::Remove(0), made: node(FileType::File, 6) };
        let then = worked(plan(), run, work);
        assert forall|q: Seq<Seq<u8>>| #[trigger] then.tree.contains_key(q) implies then.tree[
            q
        ].meta.dev == 0 && then.tree[q].meta.ino <= 4 by {
            assert(run.tree.contains_key(q));
        }
        let rest = lemma_removers(then);
        let order = seq![work] + rest;
        assert(order.skip(1) =~= rest);
        assert(order[0] == work);
        order
    }
}

/// A run onto a directory that stands there, told the truth throughout, comes
/// to its end, and what is left to be done is done after the walk, the operation
/// that was queued first as the last of all: what holds of such runs holds of
/// something.
pub proof fn law_a_run_comes_to_its_end() -> (sample: (Plan, Tree, Seq<Turn>, Seq<Work>))
    ensures
        ({
            let (p, t, turns, order) = sample;
            let run = after(p, at_start(p, t), turns);
            &&& sound(p) && fit(p, t) && !p.config.dry_run && p.separate
            &&& p.config.copy_special && p.entries[2].node.meta.kind == FileType::Fifo
            &&& node_at(t, seq![]) is Some && node_at(t, seq![])->0.meta.kind == FileType::Dir
            &&& faithful(p, at_start(p, t), turns)
            &&& run.w.phase is Done
            &&& run.sent.len() == 2 && waits(run, 0) && waits(run, 1)
            &&& order.len() > 0 && order.last().task == Task::Carry(0)
            &&& feasible(p, run, order) && all_done(carried_out(p, run, order))
            &&& !replica(p, t, t)
            &&& replica(p, t, carried_out(p, run, order).tree)
        }),
{
    lemma_names();
    lemma_sound();
    let p = plan();
    let turns = lemma_walk();
    let run = after(p, at_start(p, tree()), turns);
    assert(after(p, run, seq![]) == run);
    let order = lemma_removers(run);
    law_run_makes_a_replica(p, tree(), turns, order);
    assert(tree().contains_key(top()));
    assert(tree().contains_key(name(120)));
    assert forall|k: int| 0 <= k < 3 implies (#[trigger] p.entries[k]).place != name(120) by {
        assert(k == 0 || k == 1 || k == 2);
    }
    (p, tree(), turns, order)
}

} // verus!
