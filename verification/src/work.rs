//! What is done besides a walk, while it goes on or after it: operations that
//! were queued, removals and comparisons.

use vstd::prelude::*;

use crate::care::{
    busy, candidate_of, collected, covered_by, doomed, finished, finished_off, first_of, fresh,
    in_order, in_place, invariant_of, kept, key_of, lemma_firm, lemma_holder_stands,
    lemma_loosened_is_kept, lemma_moved_is_kept, lemma_op_is_one, lemma_still_ordered,
    lemma_unlocked, lemma_unlocked_spares, loosened, moved, op_for, ordered, owed, sendable,
    sent_for, shared, stems, unshared_file, well_under_way,
};
use crate::course::lemma_peer;
use crate::ground::{
    lemma_changed_is_regular, lemma_created, lemma_idle_commands, lemma_not_within, lemma_reads,
    lemma_sends_of_one, lemma_target_place, rewritten, spare,
};
use crate::metadata::{law_inode_key_is_exact, locked, FileType};
use crate::mirror::{alike, assured, copy_of, lemma_copy_carries_over, mirrored, Node};
use crate::path::{components, within};
use crate::protocol::{Candidate, Command, Operation};
use crate::prune::covered;
use crate::world::{
    agrees, all_done, apart, can_hold, carried, carried_out, changed, checked, comparing,
    copied_special, created, feasible, linked, look, mirrorable, new_file, new_link, new_special,
    node_at, op_effect, pruned, regular, removed, replica, same_inode, sends, sound, sound_entry,
    target_for, tree_effects, unused, waits, worked, yields, Plan, Run, Task, Tree, Work,
};

verus! {

/// What carrying out the operation of an entry makes of the tree: something is
/// in the way and the tree stays as it is, or the entry's mirror is made, or a
/// file becomes its mirror under all its names.
pub open spec fn wrought(plan: Plan, tree: Tree, t: Tree, k: int) -> bool {
    let r = plan.entries[k].place;
    let source = plan.entries[k].node;
    let file = source.meta.kind == FileType::File;
    ||| {
        &&& t == tree && tree.contains_key(r)
        &&& !(file && tree[r].meta.kind == FileType::File && !locked(tree[r].meta))
    }
    ||| {
        &&& !tree.contains_key(r) && t.contains_key(r) && t == tree.insert(r, t[r])
        &&& t[r].meta.kind == source.meta.kind
        &&& mirrorable(source.meta.kind) ==> accomplished(plan, t, k)
    }
    ||| {
        &&& file && tree.contains_key(r) && tree[r].meta.kind == FileType::File
        &&& rewritten(tree, t, r)
        &&& forall|q: Seq<Seq<u8>>| #[trigger] t.contains_key(q) <==> tree.contains_key(q)
        &&& accomplished(plan, t, k)
    }
}

/// Whether the mirror of an entry stands in its place, contents and all.
pub open spec fn accomplished(plan: Plan, t: Tree, k: int) -> bool {
    let slot = node_at(t, plan.entries[k].place);
    &&& alike(plan.entries[k].node, slot)
    &&& mirrored(plan.entries[k].node, plan.config, slot)
    &&& assured(plan.entries[k].node, plan.config, slot)
}

/// What a copy makes of the tree.
proof fn lemma_copy_wrought(plan: Plan, made: Node, tree: Tree, k: int)
    requires
        sound(plan),
        regular(plan, tree),
        0 <= k < plan.entries.len(),
        can_hold(tree, plan.entries[k].place),
        unused(tree, made),
        unshared_file(plan, k),
    ensures
        ({
            let t = op_effect(op_for(plan, k), plan, made, tree);
            regular(plan, t) && wrought(plan, tree, t, k)
        }),
{
    let r = plan.entries[k].place;
    let source = plan.entries[k].node;
    assert(sound_entry(plan, k));
    lemma_target_place(plan, r);
    lemma_reads(plan, k);
    let t = op_effect(op_for(plan, k), plan, made, tree);
    assert(spare(tree, made, r));
    match node_at(tree, r) {
        None => {
            let node = copy_of(source, plan.config, new_file(made));
            lemma_copy_carries_over(source, plan.config, new_file(made));
            lemma_created(plan, made, tree, r, node);
            assert(t == tree.insert(r, node));
        },
        Some(node) => {
            if node.meta.kind == FileType::File && !locked(node.meta) {
                let copy = copy_of(source, plan.config, node);
                lemma_copy_carries_over(source, plan.config, node);
                lemma_changed_is_regular(plan, tree, r, copy);
                assert(t == changed(tree, r, copy));
                assert(rewritten(tree, t, r));
            }
        },
    }
}

/// What any operation makes of the tree.
proof fn lemma_wrought(plan: Plan, made: Node, tree: Tree, k: int)
    requires
        sound(plan),
        regular(plan, tree),
        0 <= k < plan.entries.len(),
        can_hold(tree, plan.entries[k].place),
        unused(tree, made),
        sendable(plan, k),
    ensures
        ({
            let t = op_effect(op_for(plan, k), plan, made, tree);
            regular(plan, t) && wrought(plan, tree, t, k)
        }),
{
    let r = plan.entries[k].place;
    let source = plan.entries[k].node;
    if source.meta.kind == FileType::File {
        lemma_copy_wrought(plan, made, tree, k);
    } else {
        assert(sound_entry(plan, k));
        lemma_target_place(plan, r);
        lemma_reads(plan, k);
        let t = op_effect(op_for(plan, k), plan, made, tree);
        assert(spare(tree, made, r));
        let node = if source.meta.kind == FileType::Symlink {
            new_link(made, source.text)
        } else {
            new_special(made, source.meta.kind)
        };
        assert(t == created(tree, r, node));
        if !tree.contains_key(r) {
            lemma_created(plan, made, tree, r, node);
            assert(t == tree.insert(r, node));
        }
    }
}

/// Nothing that stood before is gone, is of another kind or of another inode.
proof fn lemma_wrought_spares(plan: Plan, tree: Tree, t: Tree, k: int)
    requires
        regular(plan, tree),
        wrought(plan, tree, t, k),
    ensures
        forall|q: Seq<Seq<u8>>| #[trigger]
            tree.contains_key(q) ==> t.contains_key(q) && same_inode(t[q], tree[q])
                && t[q].meta.kind == tree[q].meta.kind,
        forall|q: Seq<Seq<u8>>| #[trigger]
            t.contains_key(q) && q != plan.entries[k].place ==> tree.contains_key(q),
{
    let r = plan.entries[k].place;
    assert forall|q: Seq<Seq<u8>>| #[trigger] tree.contains_key(q) implies t.contains_key(q)
        && same_inode(t[q], tree[q]) && t[q].meta.kind == tree[q].meta.kind by {
        if tree.contains_key(r) && same_inode(tree[q], tree[r]) && q != r {
            assert(tree[q] == tree[r]);
        }
    }
}

/// An entry is as it was, or mirrors the source now, where the operation of
/// another is carried out.
proof fn lemma_wrought_moves(plan: Plan, tree: Tree, t: Tree, k: int, j: int)
    requires
        sound(plan),
        regular(plan, tree),
        wrought(plan, tree, t, k),
        sendable(plan, k),
        0 <= k < plan.entries.len(),
        0 <= j < plan.entries.len(),
        j != k,
    ensures
        moved(plan, tree, t, j),
        plan.separate && shared(plan, j) && tree.contains_key(plan.entries[j].place)
            && tree[plan.entries[j].place].meta.kind == FileType::File
            ==> t[plan.entries[j].place] == tree[plan.entries[j].place],
{
    let r = plan.entries[k].place;
    let place = plan.entries[j].place;
    lemma_wrought_spares(plan, tree, t, k);
    assert(plan.entries[j].place != plan.entries[k].place);
    if tree.contains_key(place) && t[place] != tree[place] {
        assert(rewritten(tree, t, r));
        assert(same_inode(tree[place], tree[r]));
        assert(tree[place] == tree[r]);
        if plan.separate && plan.entries[j].node.meta.kind == FileType::File {
            assert(plan.entries[j].node == plan.entries[k].node);
        }
    }
}

/// What is queued for other entries stays queued.
proof fn lemma_others_stay_ordered(plan: Plan, run: Run, at: int, made: Node, k: int, j: int)
    requires
        sound(plan),
        0 <= k < plan.entries.len(),
        0 <= j < plan.entries.len(),
        j != k,
        run.sent[at] == op_for(plan, k),
        ordered(plan, run, j),
    ensures
        ordered(plan, carried(plan, run, at, made), j),
{
    let then = carried(plan, run, at, made);
    let i = choose|i: int| #[trigger] waits(run, i) && run.sent[i] == op_for(plan, j);
    if i == at {
        lemma_op_is_one(plan, j, k);
    }
    assert(waits(then, i));
}

/// The entry whose operation is carried out is taken care of.
proof fn lemma_worked_entry_is_kept(
    plan: Plan,
    run: Run,
    at: int,
    made: Node,
    candidates: Seq<Candidate<Seq<u8>>>,
    k: int,
)
    requires
        sound(plan),
        regular(plan, run.tree),
        0 <= k < plan.entries.len(),
        sendable(plan, k),
        run.sent[at] == op_for(plan, k),
        wrought(plan, run.tree, carried(plan, run, at, made).tree, k),
        kept(plan, run, candidates, k),
        forall|i: int| #[trigger]
            covered_by(plan, run, k, i) ==> run.tree[plan.entries[i].place]
                == run.tree[plan.entries[k].place],
    ensures
        kept(plan, carried(plan, run, at, made), candidates, k),
{
    let then = carried(plan, run, at, made);
    let r = plan.entries[k].place;
    if mirrorable(plan.entries[k].node.meta.kind) {
        if run.tree.contains_key(r) && then.tree == run.tree && !accomplished(plan, then.tree, k) {
            assert(!owed(plan, run, k));
        } else {
            assert(accomplished(plan, then.tree, k));
        }
    }
}

/// A name of the file that is written is taken care of.
proof fn lemma_written_name_is_kept(
    plan: Plan,
    run: Run,
    then: Run,
    candidates: Seq<Candidate<Seq<u8>>>,
    k: int,
    j: int,
)
    requires
        sound(plan),
        regular(plan, run.tree),
        0 <= k < plan.entries.len(),
        0 <= j < plan.entries.len(),
        j != k,
        unshared_file(plan, k),
        run.tree.contains_key(plan.entries[k].place),
        run.tree[plan.entries[k].place].meta.kind == FileType::File,
        rewritten(run.tree, then.tree, plan.entries[k].place),
        accomplished(plan, then.tree, k),
        run.tree.contains_key(plan.entries[j].place),
        same_inode(run.tree[plan.entries[j].place], run.tree[plan.entries[k].place]),
        then.start == run.start,
        then.w == run.w,
        kept(plan, run, candidates, j),
        shared(plan, j) ==> ({
            let first = run.w.first_names[key_of(plan, j)];
            let was = look(plan.dest, run.tree, first);
            let is = look(plan.dest, then.tree, first);
            was is Some ==> is is Some && same_inode(was->0, is->0)
        }),
    ensures
        kept(plan, then, candidates, j),
{
    let r = plan.entries[k].place;
    let place = plan.entries[j].place;
    assert(plan.entries[j].place != plan.entries[k].place);
    assert(run.tree[place] == run.tree[r]);
    assert(then.tree[place] == then.tree[r]);
    if mirrorable(plan.entries[j].node.meta.kind) {
        assert(plan.entries[j].node.meta.kind == FileType::File);
        if plan.separate {
            assert(plan.entries[j].node == plan.entries[k].node);
            assert(!shared(plan, j));
        } else {
            assert(!owed(plan, run, j));
        }
    }
}

/// Another entry stays taken care of where an operation is carried out.
proof fn lemma_other_entry_is_kept(
    plan: Plan,
    run: Run,
    at: int,
    made: Node,
    candidates: Seq<Candidate<Seq<u8>>>,
    k: int,
    j: int,
)
    requires
        sound(plan),
        regular(plan, run.tree),
        0 <= k < plan.entries.len(),
        0 <= j < plan.entries.len(),
        j != k,
        sendable(plan, k),
        run.sent[at] == op_for(plan, k),
        wrought(plan, run.tree, carried(plan, run, at, made).tree, k),
        kept(plan, run, candidates, j),
    ensures
        kept(plan, carried(plan, run, at, made), candidates, j),
{
    let then = carried(plan, run, at, made);
    let r = plan.entries[k].place;
    let place = plan.entries[j].place;
    lemma_wrought_spares(plan, run.tree, then.tree, k);
    lemma_wrought_moves(plan, run.tree, then.tree, k, j);
    let named = run.tree.contains_key(r) && run.tree.contains_key(place) && same_inode(
        run.tree[place],
        run.tree[r],
    );
    if named && rewritten(run.tree, then.tree, r) && accomplished(plan, then.tree, k)
        && run.tree[r].meta.kind == FileType::File && unshared_file(plan, k) {
        lemma_written_name_is_kept(plan, run, then, candidates, k, j);
    } else {
        if ordered(plan, run, j) {
            lemma_others_stay_ordered(plan, run, at, made, k, j);
        }
        assert forall|i: int| #[trigger]
            covered_by(plan, run, j, i) && owed(plan, run, j) && then.tree[place]
                == run.tree[place] implies covered_by(plan, then, j, i) by {
            if i != k {
                lemma_others_stay_ordered(plan, run, at, made, k, i);
                assert(run.tree.contains_key(plan.entries[i].place));
            } else {
                assert(plan.entries[j].place != plan.entries[k].place);
                assert(run.tree[place] == run.tree[r]);
            }
        }
        lemma_moved_is_kept(plan, run, then, candidates, candidates, j);
    }
}

/// All entries stay taken care of where an operation is carried out.
proof fn lemma_work_keeps(
    plan: Plan,
    run: Run,
    at: int,
    made: Node,
    candidates: Seq<Candidate<Seq<u8>>>,
    n: int,
) -> (k: int)
    requires
        sound(plan),
        regular(plan, run.tree),
        0 <= n <= plan.entries.len(),
        forall|j: int| 0 <= j < n ==> #[trigger] kept(plan, run, candidates, j),
        forall|i: int| 0 <= i < run.sent.len() ==> sent_for(plan, #[trigger] run.sent[i], n),
        waits(run, at),
        unused(run.tree, made),
    ensures
        0 <= k < n,
        sendable(plan, k),
        regular(plan, carried(plan, run, at, made).tree),
        wrought(plan, run.tree, carried(plan, run, at, made).tree, k),
        forall|j: int|
            0 <= j < n ==> #[trigger] kept(plan, carried(plan, run, at, made), candidates, j),
{
    assert(sent_for(plan, run.sent[at], n));
    let k = choose|k: int|
        0 <= k < n && k < plan.entries.len() && run.sent[at] == op_for(plan, k)
            && #[trigger] sendable(plan, k);
    lemma_holder_stands(plan, run, candidates, k);
    lemma_wrought(plan, made, run.tree, k);
    let then = carried(plan, run, at, made);
    assert forall|i: int| #[trigger] covered_by(plan, run, k, i) implies run.tree[
        plan.entries[i].place
    ] == run.tree[plan.entries[k].place] by {
        if i != k {
            assert(plan.entries[i].place != plan.entries[k].place);
        }
    }
    assert forall|j: int| 0 <= j < n implies #[trigger] kept(plan, then, candidates, j) by {
        assert(kept(plan, run, candidates, j));
        if j == k {
            lemma_worked_entry_is_kept(plan, run, at, made, candidates, k);
        } else {
            lemma_other_entry_is_kept(plan, run, at, made, candidates, k, j);
        }
    }
    k
}

/// The entry that is being mirrored stays on course where an operation of an
/// earlier one is carried out.
proof fn lemma_work_keeps_course(plan: Plan, run: Run, then: Run, k: int)
    requires
        sound(plan),
        in_order(plan, run),
        run.met > 0,
        busy(run.w.phase),
        well_under_way(plan, run),
        0 <= k < run.met - 1,
        sendable(plan, k),
        regular(plan, then.tree),
        wrought(plan, run.tree, then.tree, k),
        then.w == run.w,
        then.met == run.met,
    ensures
        well_under_way(plan, then),
{
    let e = run.met - 1;
    let place = plan.entries[e].place;
    lemma_wrought_spares(plan, run.tree, then.tree, k);
    lemma_wrought_moves(plan, run.tree, then.tree, k, e);
    assert(plan.entries[e].place != plan.entries[k].place);
    match first_of(run.w.phase) {
        Some(first) => {
            let i = lemma_peer(plan, run);
            assert(sound_entry(plan, i));
            lemma_target_place(plan, plan.entries[i].place);
            assert(plan.entries[i].place != plan.entries[e].place);
            assert(shared(plan, i));
            if i != k {
                lemma_wrought_moves(plan, run.tree, then.tree, k, i);
            }
            assert(run.tree.contains_key(plan.entries[i].place));
        },
        None => {},
    }
}

/// An operation that is carried out keeps the invariant.
proof fn lemma_carry_step(plan: Plan, run: Run, at: int, made: Node)
    requires
        sound(plan),
        invariant_of(plan, run),
        waits(run, at),
        unused(run.tree, made),
    ensures
        invariant_of(plan, carried(plan, run, at, made)),
{
    let then = carried(plan, run, at, made);
    if run.w.phase is Done {
        let k = lemma_work_keeps(
            plan,
            run,
            at,
            made,
            run.verify,
            plan.entries.len() as int,
        );
        lemma_wrought_spares(plan, run.tree, then.tree, k);
        assert forall|q: Seq<Seq<u8>>| #[trigger] then.tree.contains_key(q) implies doomed(
            plan,
            then,
            q,
        ) || exists|j: int|
            0 <= j < plan.entries.len() && (#[trigger] plan.entries[j]).place == q by {
            if q == plan.entries[k].place {
                assert(plan.entries[k].place == q);
            } else {
                assert(run.tree.contains_key(q));
            }
        }
        assert forall|j: int| 0 <= j < plan.entries.len() implies !doomed(
            plan,
            then,
            (#[trigger] plan.entries[j]).place,
        ) by {
            assert(!doomed(plan, run, plan.entries[j].place));
        }
    } else {
        let n = finished(run);
        let k = lemma_work_keeps(plan, run, at, made, run.w.candidates, n);
        lemma_wrought_spares(plan, run.tree, then.tree, k);
        assert forall|j: int| n <= j < plan.entries.len() implies #[trigger] yields(
            plan,
            then.tree,
            j,
        ) by {
            assert(yields(plan, run.tree, j));
            assert(plan.entries[j].place != plan.entries[k].place);
        }
        assert forall|j: int| n <= j < plan.entries.len() implies #[trigger] fresh(
            plan,
            then,
            j,
        ) by {
            assert(fresh(plan, run, j));
            assert(plan.entries[j].place != plan.entries[k].place);
        }
        assert(in_order(plan, then));
        if busy(run.w.phase) {
            lemma_work_keeps_course(plan, run, then, k);
        }
    }
}

/// Removing subtrees leaves a regular tree.
proof fn lemma_pruned_is_regular(plan: Plan, tree: Tree, roots: Seq<Seq<u8>>)
    requires
        regular(plan, tree),
        forall|i: int| 0 <= i < roots.len() ==> within(
            components(#[trigger] roots[i]),
            components(plan.dest),
        ),
    ensures
        regular(plan, pruned(plan, tree, roots)),
{
    let d = components(plan.dest);
    let t = pruned(plan, tree, roots);
    assert forall|q: Seq<Seq<u8>>| #[trigger] t.contains_key(q) implies can_hold(t, q) by {
        assert(tree.contains_key(q));
        assert(can_hold(tree, q));
        if q.len() > 0 && covered(d + q.drop_last(), roots) {
            let i = choose|i: int|
                0 <= i < roots.len() && within(d + q.drop_last(), components(#[trigger] roots[i]));
            assert((d + q).drop_last() =~= d + q.drop_last());
            lemma_not_within(d + q, components(roots[i]));
        }
    }
    assert forall|p: Seq<Seq<u8>>, q: Seq<Seq<u8>>|
        #![trigger t.contains_key(p), t.contains_key(q)]
        t.contains_key(p) && t.contains_key(q) && p != q && same_inode(t[p], t[q]) implies t[p]
        == t[q] && t[p].meta.kind != FileType::Dir by {
        assert(tree.contains_key(p) && tree.contains_key(q));
    }
    assert(plan.separate ==> apart(plan, t));
}

/// What is left once a subtree is removed that holds no place of the source.
proof fn lemma_removed_spares(plan: Plan, run: Run, at: int, k: int)
    requires
        finished_off(plan, run),
        0 <= at < run.delete.len(),
        0 <= k < plan.entries.len(),
    ensures
        ({
            let t = removed(plan, run, at).tree;
            let place = plan.entries[k].place;
            &&& t.contains_key(place) <==> run.tree.contains_key(place)
            &&& run.tree.contains_key(place) ==> t[place] == run.tree[place]
        }),
{
    let kept_path = components(plan.dest) + plan.entries[k].place;
    assert(!doomed(plan, run, plan.entries[k].place));
    if covered(kept_path, seq![run.delete[at]]) {
        assert(within(kept_path, components(run.delete[at])));
    }
}

/// Every entry stays taken care of where such a subtree is removed.
proof fn lemma_removed_is_kept(plan: Plan, run: Run, at: int, k: int)
    requires
        sound(plan),
        finished_off(plan, run),
        0 <= at < run.delete.len(),
        0 <= k < plan.entries.len(),
    ensures
        kept(plan, removed(plan, run, at), run.verify, k),
{
    let n = plan.entries.len() as int;
    let then = removed(plan, run, at);
    assert(kept(plan, run, run.verify, k));
    lemma_removed_spares(plan, run, at, k);
    if ordered(plan, run, k) {
        lemma_still_ordered(plan, run, then, k);
    }
    assert forall|j: int| #[trigger]
        covered_by(plan, run, k, j) && owed(plan, run, k) && then.tree[plan.entries[k].place]
            == run.tree[plan.entries[k].place] implies covered_by(plan, then, k, j) by {
        lemma_still_ordered(plan, run, then, j);
        lemma_removed_spares(plan, run, at, j);
    }
    if shared(plan, k) {
        lemma_firm(plan, run, run.verify, k);
        let key = key_of(plan, k);
        let names = run.w.first_names;
        let i = choose|i: int|
            0 <= i < n && i < plan.entries.len() && #[trigger] shared(plan, i) && key_of(plan, i)
                == key && names[key] == target_for(plan, plan.entries[i].place);
        assert(sound_entry(plan, i));
        lemma_target_place(plan, plan.entries[i].place);
        lemma_removed_spares(plan, run, at, i);
    }
    lemma_moved_is_kept(plan, run, then, run.verify, run.verify, k);
}

/// What lay in one of several subtrees, and is not in the one that is removed,
/// lies in one of the others.
proof fn lemma_others_cover(q: Seq<Seq<u8>>, roots: Seq<Seq<u8>>, at: int)
    requires
        0 <= at < roots.len(),
    ensures
        covered(q, roots.remove(at)) ==> covered(q, roots),
        covered(q, roots) && !covered(q, seq![roots[at]]) ==> covered(q, roots.remove(at)),
{
    let rest = roots.remove(at);
    if covered(q, rest) {
        let i = choose|i: int| 0 <= i < rest.len() && within(q, components(#[trigger] rest[i]));
        assert(rest[i] == if i < at {
            roots[i]
        } else {
            roots[i + 1]
        });
    }
    if covered(q, roots) && !covered(q, seq![roots[at]]) {
        let i = choose|i: int| 0 <= i < roots.len() && within(q, components(#[trigger] roots[i]));
        if i == at {
            assert(seq![roots[at]][0] == roots[i]);
        } else if i < at {
            assert(rest[i] == roots[i]);
        } else {
            assert(rest[i - 1] == roots[i]);
        }
    }
}

/// A subtree that is removed keeps the invariant.
proof fn lemma_remove_step(plan: Plan, run: Run, at: int)
    requires
        sound(plan),
        invariant_of(plan, run),
        0 <= at < run.delete.len(),
    ensures
        invariant_of(plan, removed(plan, run, at)),
{
    let n = plan.entries.len();
    let d = components(plan.dest);
    let then = removed(plan, run, at);
    let roots = seq![run.delete[at]];
    assert(run.w.phase is Done);
    lemma_pruned_is_regular(plan, run.tree, roots);
    assert forall|k: int| 0 <= k < n implies #[trigger] kept(plan, then, then.verify, k) by {
        lemma_removed_is_kept(plan, run, at, k);
    }
    assert forall|q: Seq<Seq<u8>>| #[trigger] then.tree.contains_key(q) implies doomed(
        plan,
        then,
        q,
    ) || exists|j: int| 0 <= j < n && (#[trigger] plan.entries[j]).place == q by {
        assert(run.tree.contains_key(q));
        lemma_others_cover(d + q, run.delete, at);
    }
    assert forall|k: int| 0 <= k < n implies !doomed(
        plan,
        then,
        (#[trigger] plan.entries[k]).place,
    ) by {
        assert(!doomed(plan, run, plan.entries[k].place));
        lemma_others_cover(d + plan.entries[k].place, run.delete, at);
    }
    assert forall|i: int| 0 <= i < then.delete.len() implies within(
        components(#[trigger] then.delete[i]),
        d,
    ) by {
        assert(then.delete[i] == if i < at {
            run.delete[i]
        } else {
            run.delete[i + 1]
        });
    }
}

/// Where the copy of an entry is queued and its file made writable, another
/// entry stays taken care of.
proof fn lemma_queued_copy_keeps(
    plan: Plan,
    run: Run,
    then: Run,
    candidates: Seq<Candidate<Seq<u8>>>,
    k: int,
    j: int,
)
    requires
        sound(plan),
        regular(plan, run.tree),
        0 <= k < plan.entries.len(),
        0 <= j < plan.entries.len(),
        unshared_file(plan, k),
        kept(plan, run, candidates, j),
        moved(plan, run.tree, then.tree, j) || loosened(plan, k, run.tree, then.tree, j),
        forall|q: Seq<Seq<u8>>| #[trigger]
            run.tree.contains_key(q) ==> then.tree.contains_key(q) && same_inode(
                then.tree[q],
                run.tree[q],
            ),
        then.start == run.start,
        then.w == run.w,
        then.done == run.done,
        run.sent.is_prefix_of(then.sent),
        ordered(plan, then, k),
    ensures
        kept(plan, then, candidates, j),
{
    if moved(plan, run.tree, then.tree, j) {
        if ordered(plan, run, j) {
            lemma_still_ordered(plan, run, then, j);
        }
        assert forall|i: int| #[trigger]
            covered_by(plan, run, j, i) && owed(plan, run, j) && then.tree[plan.entries[j].place]
                == run.tree[plan.entries[j].place] implies covered_by(plan, then, j, i) by {
            lemma_still_ordered(plan, run, then, i);
            assert(run.tree.contains_key(plan.entries[i].place));
        }
        lemma_moved_is_kept(plan, run, then, candidates, candidates, j);
    } else {
        lemma_loosened_is_kept(plan, run, then, candidates, k, j);
    }
}

/// What the comparison of a candidate whose contents differ orders.
proof fn lemma_differing_candidate(plan: Plan, made: Node, tree: Tree, k: int)
    requires
        sound(plan),
        !plan.config.dry_run,
        regular(plan, tree),
        0 <= k < plan.entries.len(),
        unshared_file(plan, k),
        tree.contains_key(plan.entries[k].place)
            ==> tree[plan.entries[k].place].meta.kind == FileType::File,
        !agrees(candidate_of(plan, k), plan, tree),
    ensures
        ({
            let r = plan.entries[k].place;
            let commands = comparing(candidate_of(plan, k), plan, tree);
            let t = tree_effects(commands, plan, made, tree);
            &&& sends(commands) == seq![op_for(plan, k)]
            &&& regular(plan, t)
            &&& forall|q: Seq<Seq<u8>>| #[trigger]
                t.contains_key(q) <==> tree.contains_key(q)
            &&& tree.contains_key(r) ==> rewritten(tree, t, r) && !locked(t[r].meta)
            &&& !tree.contains_key(r) ==> t == tree
        }),
{
    assert(sound_entry(plan, k));
    lemma_target_place(plan, plan.entries[k].place);
    lemma_unlocked(plan, k, plan.entries[k].node.meta.len, made, tree);
}

/// A file whose contents agree is let be.
proof fn lemma_agreeing_candidate(plan: Plan, made: Node, tree: Tree, k: int)
    requires
        sound(plan),
        0 <= k < plan.entries.len(),
        agrees(candidate_of(plan, k), plan, tree),
    ensures
        tree_effects(comparing(candidate_of(plan, k), plan, tree), plan, made, tree) == tree,
        sends(comparing(candidate_of(plan, k), plan, tree)) == Seq::<Operation<Seq<u8>>>::empty(),
        assured(
            plan.entries[k].node,
            plan.config,
            node_at(tree, plan.entries[k].place),
        ),
{
    let c = candidate_of(plan, k);
    let r = plan.entries[k].place;
    assert(sound_entry(plan, k));
    lemma_target_place(plan, r);
    lemma_reads(plan, k);
    let commands = comparing(c, plan, tree);
    assert forall|i: int| 0 <= i < commands.len() implies #[trigger] commands[i] is SyncXattrs by {}
    lemma_idle_commands(commands, plan, made, tree);
    lemma_sends_of_one(Command::SyncXattrs(c.from, c.target));
    assert(sends(commands) =~= seq![]);
}

/// A candidate is that of one entry.
proof fn lemma_candidate_is_one(plan: Plan, i: int, j: int)
    requires
        sound(plan),
        0 <= i < plan.entries.len(),
        0 <= j < plan.entries.len(),
        candidate_of(plan, i) == candidate_of(plan, j),
    ensures
        i == j,
{
    assert(sound_entry(plan, i) && sound_entry(plan, j));
    lemma_target_place(plan, plan.entries[i].place);
    lemma_target_place(plan, plan.entries[j].place);
    assert(plan.entries[i].place == plan.entries[j].place);
}

/// An entry that is taken care of needs no comparison but its own.
proof fn lemma_one_fewer(
    plan: Plan,
    run: Run,
    list: Seq<Candidate<Seq<u8>>>,
    at: int,
    k: int,
    j: int,
)
    requires
        sound(plan),
        0 <= at < list.len(),
        0 <= k < plan.entries.len(),
        0 <= j < plan.entries.len(),
        j != k,
        list[at] == candidate_of(plan, k),
        kept(plan, run, list, j),
    ensures
        kept(plan, run, list.remove(at), j),
{
    let rest = list.remove(at);
    let c = candidate_of(plan, j);
    if list.contains(c) {
        let i = list.index_of(c);
        if i == at {
            lemma_candidate_is_one(plan, j, k);
        }
        assert(rest[if i < at {
            i
        } else {
            i - 1
        }] == c);
    }
}

/// What is left to be compared is still of entries that are mirrored on their
/// own.
proof fn lemma_collected_shrinks(plan: Plan, list: Seq<Candidate<Seq<u8>>>, n: int, at: int)
    requires
        collected(plan, list, n),
        0 <= at < list.len(),
    ensures
        collected(plan, list.remove(at), n),
{
    let rest = list.remove(at);
    assert forall|i: int| 0 <= i < rest.len() implies stems(plan, #[trigger] rest[i], n) by {
        assert(rest[i] == if i < at {
            list[i]
        } else {
            list[i + 1]
        });
    }
}

/// A comparison of contents that agree keeps the invariant.
proof fn lemma_agreeing_step(plan: Plan, run: Run, at: int, made: Node, k: int)
    requires
        sound(plan),
        finished_off(plan, run),
        0 <= at < run.verify.len(),
        0 <= k < plan.entries.len(),
        unshared_file(plan, k),
        run.verify[at] == candidate_of(plan, k),
        agrees(candidate_of(plan, k), plan, run.tree),
    ensures
        finished_off(plan, checked(plan, run, at, made)),
{
    let n = plan.entries.len();
    let then = checked(plan, run, at, made);
    lemma_agreeing_candidate(plan, made, run.tree, k);
    assert(then.sent =~= run.sent);
    assert(then == Run { verify: run.verify.remove(at), ..run });
    lemma_collected_shrinks(plan, run.verify, n as int, at);
    assert forall|j: int| 0 <= j < n implies #[trigger] kept(plan, then, then.verify, j) by {
        assert(kept(plan, run, run.verify, j));
        if j != k {
            lemma_one_fewer(plan, run, run.verify, at, k, j);
        }
        lemma_kept_alike(plan, run, then, then.verify, j);
    }
    assert forall|j: int| 0 <= j < n implies !doomed(
        plan,
        then,
        (#[trigger] plan.entries[j]).place,
    ) by {
        assert(!doomed(plan, run, plan.entries[j].place));
    }
    assert forall|q: Seq<Seq<u8>>| #[trigger] then.tree.contains_key(q) implies doomed(
        plan,
        then,
        q,
    ) || exists|j: int| 0 <= j < n && (#[trigger] plan.entries[j]).place == q by {
        assert(run.tree.contains_key(q));
    }
}

/// Whether an entry is taken care of does not depend on where the walk is or
/// on what else is to be removed or compared.
pub(crate) proof fn lemma_kept_alike(
    plan: Plan,
    run: Run,
    then: Run,
    list: Seq<Candidate<Seq<u8>>>,
    k: int,
)
    requires
        kept(plan, run, list, k),
        then.tree == run.tree,
        then.sent == run.sent,
        then.done == run.done,
        then.start == run.start,
        then.w.first_names == run.w.first_names,
    ensures
        kept(plan, then, list, k),
{
    assert forall|j: int| ordered(plan, run, j) implies #[trigger] ordered(plan, then, j) by {
        lemma_still_ordered(plan, run, then, j);
    }
    if mirrorable(plan.entries[k].node.meta.kind) && owed(plan, run, k) && run.tree.contains_key(
        plan.entries[k].place,
    ) {
        let j = choose|j: int| #[trigger] covered_by(plan, run, k, j);
        assert(ordered(plan, then, j));
        assert(covered_by(plan, then, k, j));
    }
    assert(ordered(plan, run, k) ==> ordered(plan, then, k));
}

/// A comparison of contents that differ keeps every entry taken care of.
proof fn lemma_differing_is_kept(plan: Plan, run: Run, at: int, made: Node, k: int, j: int)
    requires
        sound(plan),
        !plan.config.dry_run,
        finished_off(plan, run),
        0 <= at < run.verify.len(),
        0 <= k < plan.entries.len(),
        0 <= j < plan.entries.len(),
        unshared_file(plan, k),
        run.verify[at] == candidate_of(plan, k),
        !agrees(candidate_of(plan, k), plan, run.tree),
        run.tree.contains_key(plan.entries[k].place)
            ==> run.tree[plan.entries[k].place].meta.kind == FileType::File,
    ensures
        kept(plan, checked(plan, run, at, made), run.verify.remove(at), j),
{
    let then = checked(plan, run, at, made);
    let rest = run.verify.remove(at);
    let t = then.tree;
    let r = plan.entries[k].place;
    lemma_differing_candidate(plan, made, run.tree, k);
    assert(then.sent =~= run.sent.push(op_for(plan, k)));
    assert(waits(then, run.sent.len() as int));
    assert(ordered(plan, then, k));
    assert(kept(plan, run, run.verify, j));
    if j == k {
        if t.contains_key(r) && plan.separate {
            assert(covered_by(plan, then, k, k));
            assert(owed(plan, then, k));
        }
    } else {
        assert forall|q: Seq<Seq<u8>>| #[trigger] run.tree.contains_key(q) implies t.contains_key(
            q,
        ) && same_inode(t[q], run.tree[q]) by {
            assert(t.contains_key(q));
        }
        lemma_one_fewer(plan, run, run.verify, at, k, j);
        lemma_unlocked_spares(plan, k, run.tree, t, j);
        lemma_queued_copy_keeps(plan, run, then, rest, k, j);
    }
}

/// A comparison of contents that differ keeps the invariant.
proof fn lemma_differing_step(plan: Plan, run: Run, at: int, made: Node, k: int)
    requires
        sound(plan),
        !plan.config.dry_run,
        finished_off(plan, run),
        0 <= at < run.verify.len(),
        0 <= k < plan.entries.len(),
        unshared_file(plan, k),
        run.verify[at] == candidate_of(plan, k),
        !agrees(candidate_of(plan, k), plan, run.tree),
    ensures
        finished_off(plan, checked(plan, run, at, made)),
{
    let n = plan.entries.len();
    let then = checked(plan, run, at, made);
    assert(kept(plan, run, run.verify, k));
    lemma_differing_candidate(plan, made, run.tree, k);
    assert(then.sent =~= run.sent.push(op_for(plan, k)));
    lemma_collected_shrinks(plan, run.verify, n as int, at);
    assert forall|j: int| 0 <= j < n implies #[trigger] kept(plan, then, then.verify, j) by {
        lemma_differing_is_kept(plan, run, at, made, k, j);
    }
    assert forall|i: int| 0 <= i < then.sent.len() implies sent_for(
        plan,
        #[trigger] then.sent[i],
        n as int,
    ) by {
        if i < run.sent.len() {
            assert(then.sent[i] == run.sent[i]);
        } else {
            assert(sendable(plan, k));
        }
    }
    assert forall|j: int| 0 <= j < n implies !doomed(
        plan,
        then,
        (#[trigger] plan.entries[j]).place,
    ) by {
        assert(!doomed(plan, run, plan.entries[j].place));
    }
    assert forall|q: Seq<Seq<u8>>| #[trigger] then.tree.contains_key(q) implies doomed(
        plan,
        then,
        q,
    ) || exists|j: int| 0 <= j < n && (#[trigger] plan.entries[j]).place == q by {
        assert(run.tree.contains_key(q));
    }
}

/// A comparison keeps the invariant.
proof fn lemma_compare_step(plan: Plan, run: Run, at: int, made: Node)
    requires
        sound(plan),
        !plan.config.dry_run,
        invariant_of(plan, run),
        0 <= at < run.verify.len(),
    ensures
        invariant_of(plan, checked(plan, run, at, made)),
{
    let n = plan.entries.len() as int;
    assert(run.w.phase is Done);
    assert(stems(plan, run.verify[at], n));
    let k = choose|k: int|
        0 <= k < n && k < plan.entries.len() && run.verify[at] == candidate_of(plan, k)
            && #[trigger] unshared_file(plan, k);
    if agrees(candidate_of(plan, k), plan, run.tree) {
        lemma_agreeing_step(plan, run, at, made, k);
    } else {
        lemma_differing_step(plan, run, at, made, k);
    }
}

/// Whatever is done besides the walk, in whatever order, keeps the invariant.
pub(crate) proof fn lemma_work_keeps_invariant(plan: Plan, run: Run, order: Seq<Work>)
    requires
        sound(plan),
        !plan.config.dry_run,
        invariant_of(plan, run),
        feasible(plan, run, order),
    ensures
        invariant_of(plan, carried_out(plan, run, order)),
    decreases order.len(),
{
    if order.len() > 0 {
        match order[0].task {
            Task::Carry(i) => lemma_carry_step(plan, run, i, order[0].made),
            Task::Remove(i) => lemma_remove_step(plan, run, i),
            Task::Compare(i) => lemma_compare_step(plan, run, i, order[0].made),
        }
        lemma_work_keeps_invariant(plan, worked(plan, run, order[0]), order.skip(1));
    }
}

/// What is done besides the walk does not concern the walk.
pub(crate) proof fn lemma_work_leaves_the_walk(plan: Plan, run: Run, order: Seq<Work>)
    ensures
        carried_out(plan, run, order).w == run.w,
        carried_out(plan, run, order).met == run.met,
        carried_out(plan, run, order).listed == run.listed,
        carried_out(plan, run, order).orders == run.orders,
        carried_out(plan, run, order).start == run.start,
    decreases order.len(),
{
    if order.len() > 0 {
        lemma_work_leaves_the_walk(plan, worked(plan, run, order[0]), order.skip(1));
    }
}

/// Once nothing is left to be done, a run whose walk is over leaves a replica.
pub(crate) proof fn lemma_all_is_done(plan: Plan, run: Run)
    requires
        finished_off(plan, run),
        all_done(run),
    ensures
        replica(plan, run.start, run.tree),
{
    let n = plan.entries.len();
    assert forall|q: Seq<Seq<u8>>| !(#[trigger] doomed(plan, run, q)) by {}
    assert forall|k: int| !(#[trigger] ordered(plan, run, k)) by {
        assert forall|i: int| !(#[trigger] waits(run, i)) by {
            if 0 <= i < run.sent.len() {
                assert(run.done.contains(i));
            }
        }
    }
    assert forall|k: int| !(#[trigger] owed(plan, run, k)) by {
        assert(!ordered(plan, run, k));
        assert forall|j: int| !(#[trigger] covered_by(plan, run, k, j)) by {
            assert(!ordered(plan, run, j));
        }
    }
    assert forall|k: int| 0 <= k < n implies {
        let node = (#[trigger] plan.entries[k]).node;
        let slot = node_at(run.tree, plan.entries[k].place);
        &&& mirrorable(node.meta.kind) ==> in_place(plan, run.w.first_names, run.tree, k)
        &&& mirrorable(node.meta.kind) && plan.separate ==> assured(node, plan.config, slot)
    } by {
        assert(kept(plan, run, run.verify, k));
        assert(!owed(plan, run, k));
    }
    assert forall|k: int| 0 <= k < n && copied_special(plan, k) implies {
        let place = (#[trigger] plan.entries[k]).place;
        &&& run.tree.contains_key(place)
        &&& !run.start.contains_key(place) ==> run.tree[place].meta.kind
            == plan.entries[k].node.meta.kind
    } by {
        assert(kept(plan, run, run.verify, k));
        assert(!ordered(plan, run, k));
    }
    assert forall|i: int, j: int| 0 <= i < n && 0 <= j < n && #[trigger] linked(plan, i, j) implies
        same_inode(run.tree[plan.entries[i].place], run.tree[plan.entries[j].place]) by {
        assert(in_place(plan, run.w.first_names, run.tree, i));
        assert(in_place(plan, run.w.first_names, run.tree, j));
        law_inode_key_is_exact(
            plan.entries[i].node.meta.dev,
            plan.entries[i].node.meta.ino,
            plan.entries[j].node.meta.dev,
            plan.entries[j].node.meta.ino,
        );
    }
}

} // verus!
