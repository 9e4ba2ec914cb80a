//! What it means that an entry is taken care of in the course of a run, and
//! what is true of a run at every turn: what is behind the walk is taken care
//! of, and what is ahead of it can still be.

use vstd::prelude::*;

use crate::conduct::at_once;
use crate::ground::{
    lemma_changed_is_regular, lemma_not_within, lemma_sends_append, lemma_sends_of_one,
    lemma_target_place, lemma_tree_effects_append, lemma_tree_effects_of_one, rewritten, site_of,
};
use crate::metadata::{
    inode_key, law_unlock_adds_one_bit, locked, unlocked_mode, FileType, Metadata,
};
use crate::mirror::{alike, assured, meta_of, mirrored, on_course, Node, Site};
use crate::path::{components, within};
use crate::protocol::{unlocking, Candidate, Command, Operation};
use crate::prune::{covered, stale_of};
use crate::sync::SyncPhase;
use crate::world::{
    can_hold, changed, copied_special, linked, look, mirrorable, node_at, regular, same_inode,
    sends, sound, sound_entry, target_for, target_of_op, tree_effects, waits, yields, Plan, Run,
    Tree,
};

verus! {

/// Whether an entry is one of several names that are mirrored as one file.
pub open spec fn shared(plan: Plan, k: int) -> bool {
    let meta = plan.entries[k].node.meta;
    plan.config.preserve_hardlinks && meta.kind == FileType::File && meta.nlink > 1
}

/// The number of an entry's inode.
pub open spec fn key_of(plan: Plan, k: int) -> u128 {
    inode_key(plan.entries[k].node.meta.dev, plan.entries[k].node.meta.ino)
}

/// Whether the mirror of an entry is in place, where it is to have one.
pub open spec fn in_place(plan: Plan, names: Map<u128, Seq<u8>>, tree: Tree, k: int) -> bool {
    let place = plan.entries[k].place;
    let node = plan.entries[k].node;
    mirrorable(node.meta.kind) ==> {
        &&& tree.contains_key(place)
        &&& alike(node, Some(tree[place]))
        &&& plan.separate ==> mirrored(node, plan.config, Some(tree[place]))
        &&& shared(plan, k) ==> {
            let first = look(plan.dest, tree, names[key_of(plan, k)]);
            &&& names.contains_key(key_of(plan, k))
            &&& first is Some && same_inode(first->0, tree[place])
            &&& plan.separate ==> assured(node, plan.config, Some(tree[place]))
        }
    }
}

/// The entry as a file whose contents are to be compared.
pub open spec fn candidate_of(plan: Plan, k: int) -> Candidate<Seq<u8>> {
    Candidate {
        from: plan.entries[k].from,
        target: target_for(plan, plan.entries[k].place),
        len: plan.entries[k].node.meta.len,
    }
}

/// Whether the contents of an entry are assured, or are still to be compared.
pub open spec fn sure(plan: Plan, candidates: Seq<Candidate<Seq<u8>>>, tree: Tree, k: int) -> bool {
    plan.separate ==> assured(
        plan.entries[k].node,
        plan.config,
        node_at(tree, plan.entries[k].place),
    ) || candidates.contains(candidate_of(plan, k))
}

/// Whether each file that is still to be compared is one of the first `n`
/// entries, and of no inode with several names that are to be mirrored.
pub open spec fn collected(plan: Plan, candidates: Seq<Candidate<Seq<u8>>>, n: int) -> bool {
    forall|i: int| 0 <= i < candidates.len() ==> stems(plan, #[trigger] candidates[i], n)
}

/// Whether a file that is still to be compared is one of the first `n`
/// entries that is mirrored on its own.
pub open spec fn stems(plan: Plan, c: Candidate<Seq<u8>>, n: int) -> bool {
    exists|k: int|
        0 <= k < n && k < plan.entries.len() && c == candidate_of(plan, k)
            && #[trigger] unshared_file(plan, k)
}

/// Whether an entry is a file that is mirrored on its own.
pub open spec fn unshared_file(plan: Plan, k: int) -> bool {
    plan.entries[k].node.meta.kind == FileType::File && !shared(plan, k)
}

/// The operation by which an entry is mirrored that is left to workers.
pub open spec fn op_for(plan: Plan, k: int) -> Operation<Seq<u8>> {
    let entry = plan.entries[k];
    let target = target_for(plan, entry.place);
    match entry.node.meta.kind {
        FileType::File => Operation::Copy(entry.from, target),
        FileType::Symlink => Operation::Link(entry.node.text, target),
        _ => Operation::Special(entry.from, target),
    }
}

/// Whether an entry may be left to workers.
pub open spec fn sendable(plan: Plan, k: int) -> bool {
    ||| unshared_file(plan, k)
    ||| plan.entries[k].node.meta.kind == FileType::Symlink
    ||| copied_special(plan, k)
}

/// Whether an operation is that of one of the first `n` entries.
pub open spec fn sent_for(plan: Plan, op: Operation<Seq<u8>>, n: int) -> bool {
    exists|k: int|
        0 <= k < n && k < plan.entries.len() && op == op_for(plan, k) && #[trigger] sendable(
            plan,
            k,
        )
}

/// Whether the operation of an entry is queued and not carried out yet.
pub open spec fn ordered(plan: Plan, run: Run, k: int) -> bool {
    exists|i: int| #[trigger] waits(run, i) && run.sent[i] == op_for(plan, k)
}

/// Whether what stands at the place of an entry is also the file that the
/// queued copy of another entry, or its own, is to write.
pub open spec fn covered_by(plan: Plan, run: Run, k: int, j: int) -> bool {
    &&& 0 <= j < plan.entries.len() && unshared_file(plan, j) && ordered(plan, run, j)
    &&& run.tree.contains_key(plan.entries[j].place)
    &&& run.tree.contains_key(plan.entries[k].place)
    &&& same_inode(run.tree[plan.entries[j].place], run.tree[plan.entries[k].place])
}

/// Whether what is queued will put the mirror of an entry in place: nothing
/// stands there and its operation is queued, or a file that can be written
/// stands there and a copy into that file is.
pub open spec fn owed(plan: Plan, run: Run, k: int) -> bool {
    let place = plan.entries[k].place;
    ||| !run.tree.contains_key(place) && sendable(plan, k) && ordered(plan, run, k)
    ||| {
        &&& plan.separate && plan.entries[k].node.meta.kind == FileType::File
        &&& run.tree.contains_key(place) && run.tree[place].meta.kind == FileType::File
        &&& !locked(run.tree[place].meta)
        &&& exists|j: int| #[trigger] covered_by(plan, run, k, j)
    }
}

/// Whether an entry is taken care of: its mirror is in place, with its
/// contents assured or still to be compared, or what is queued will put it
/// there.
pub open spec fn kept(
    plan: Plan,
    run: Run,
    candidates: Seq<Candidate<Seq<u8>>>,
    k: int,
) -> bool {
    let place = plan.entries[k].place;
    let kind = plan.entries[k].node.meta.kind;
    if mirrorable(kind) {
        ||| owed(plan, run, k)
        ||| in_place(plan, run.w.first_names, run.tree, k) && sure(plan, candidates, run.tree, k)
    } else {
        copied_special(plan, k) ==> {
            &&& ordered(plan, run, k) || run.tree.contains_key(place)
            &&& !run.start.contains_key(place) && run.tree.contains_key(place)
                ==> run.tree[place].meta.kind == kind
        }
    }
}

/// Whether the place of a special file is still free if it was before the run.
pub open spec fn fresh(plan: Plan, run: Run, k: int) -> bool {
    let place = plan.entries[k].place;
    copied_special(plan, k) && !run.start.contains_key(place) ==> !run.tree.contains_key(place)
}

/// Whether each first name that the walk knows is that of one of the first
/// `n` entries.
pub open spec fn known(plan: Plan, names: Map<u128, Seq<u8>>, n: int) -> bool {
    forall|key: u128| #[trigger]
        names.contains_key(key) ==> exists|j: int|
            0 <= j < n && j < plan.entries.len() && #[trigger] shared(plan, j) && key_of(plan, j)
                == key && names[key] == target_for(plan, plan.entries[j].place)
}

/// The places of the first `n` entries.
pub open spec fn places(plan: Plan, n: int) -> Set<Seq<Seq<u8>>> {
    Set::new(
        |q: Seq<Seq<u8>>|
            exists|k: int|
                0 <= k < n && k < plan.entries.len() && (#[trigger] plan.entries[k]).place == q,
    )
}

/// What leads to the place of an entry are the places of earlier entries.
pub(crate) proof fn lemma_holders_first(plan: Plan, k: int, n: int) -> (j: int)
    requires
        sound(plan),
        0 <= k < plan.entries.len(),
        0 <= n <= plan.entries[k].place.len(),
    ensures
        0 <= j <= k,
        plan.entries[j].place == plan.entries[k].place.take(n),
    decreases k,
{
    let place = plan.entries[k].place;
    if n == place.len() {
        assert(place.take(n) =~= place);
        k
    } else {
        assert(sound_entry(plan, k));
        let j = choose|j: int|
            0 <= j < k && (#[trigger] plan.entries[j]).place == place.drop_last()
                && plan.entries[j].node.meta.kind == FileType::Dir;
        assert(place.drop_last().take(n) =~= place.take(n));
        lemma_holders_first(plan, j, n)
    }
}

/// No entry lies at or below the place of a later one.
pub(crate) proof fn lemma_earlier_lies_outside(plan: Plan, j: int, k: int)
    requires
        sound(plan),
        0 <= j < k < plan.entries.len(),
    ensures
        !within(plan.entries[j].place, plan.entries[k].place),
        plan.entries[j].place != plan.entries[k].place,
{
    let p = plan.entries[j].place;
    let r = plan.entries[k].place;
    if within(p, r) {
        let i = lemma_holders_first(plan, j, r.len() as int);
        assert(plan.entries[i].place == plan.entries[k].place);
    }
    lemma_not_within(p, r);
}

/// The phases in which an entry is mirrored.
pub open spec fn busy(phase: SyncPhase<Seq<u8>>) -> bool {
    ||| phase is DirTarget
    ||| phase is DirMode
    ||| phase is FileTarget
    ||| phase is FileDigest
    ||| phase is FileWritable
    ||| phase is NameTarget
    ||| phase is NamePeer
    ||| phase is NameClear
    ||| phase is LinkText
    ||| phase is LinkTarget
    ||| phase is LinkPeer
    ||| phase is LinkClear
}

/// The first name that a further name is mirrored by.
pub open spec fn first_of(phase: SyncPhase<Seq<u8>>) -> Option<Seq<u8>> {
    match phase {
        SyncPhase::NameTarget(_, first) => Some(first),
        SyncPhase::NamePeer(_, first, _) => Some(first),
        SyncPhase::NameClear(_, first) => Some(first),
        _ => None,
    }
}

/// The site of the entry that is being mirrored.
pub open spec fn site_at(plan: Plan, run: Run, made: Node) -> Site {
    let k = run.met - 1;
    match first_of(run.w.phase) {
        Some(first) => site_of(plan, k, first, look(plan.dest, run.tree, first), made),
        None => site_of(plan, k, plan.entries[k].from, None, made),
    }
}

/// How many entries of the source are in place.
pub open spec fn finished(run: Run) -> int {
    if busy(run.w.phase) || run.w.phase is Resolving || run.w.phase is Reading {
        run.met - 1
    } else {
        run.met as int
    }
}

/// What is true of every run: the entries behind the walk are in place, and
/// those before it can still be put in place.
pub open spec fn in_order(plan: Plan, run: Run) -> bool {
    let done = finished(run);
    &&& run.w.source == plan.source && run.w.dest == plan.dest && run.w.config == plan.config
    &&& 0 <= done <= run.met <= plan.entries.len()
    &&& regular(plan, run.tree)
    &&& forall|k: int| 0 <= k < done ==> #[trigger] kept(plan, run, run.w.candidates, k)
    &&& forall|i: int|
        0 <= i < run.sent.len() ==> sent_for(plan, #[trigger] run.sent[i], done)
    &&& run.done.subset_of(Set::new(|i: int| 0 <= i < run.sent.len()))
    &&& run.delete.len() == 0 && run.verify.len() == 0
    &&& forall|k: int| done <= k < plan.entries.len() ==> #[trigger] fresh(plan, run, k)
    &&& collected(plan, run.w.candidates, done)
    &&& run.w.candidates.len() > 0 ==> plan.config.checksum
    &&& forall|k: int|
        done <= k < plan.entries.len() ==> #[trigger] yields(plan, run.tree, k)
    &&& known(plan, run.w.first_names, if busy(run.w.phase) {
        run.met as int
    } else {
        done
    })
    &&& run.w.seen == places(plan, if busy(run.w.phase) {
        run.met as int
    } else {
        done
    })
}

/// What is true of the entry that is being mirrored.
pub open spec fn well_under_way(plan: Plan, run: Run) -> bool {
    let k = run.met - 1;
    let file = run.w.phase is FileTarget || run.w.phase is FileDigest
        || run.w.phase is FileWritable;
    &&& on_course(
        run.w,
        site_at(plan, run, plan.entries[k].node),
        node_at(run.tree, plan.entries[k].place),
    )
    &&& file ==> at_once(run.w.phase) == shared(plan, k)
    &&& file ==> forall|j: int| 0 <= j < k ==> !(#[trigger] linked(plan, j, k))
    &&& shared(plan, k) && file ==> {
        &&& run.w.first_names.contains_key(key_of(plan, k))
        &&& run.w.first_names[key_of(plan, k)] == target_for(plan, plan.entries[k].place)
    }
    &&& first_of(run.w.phase) is Some ==> {
        &&& shared(plan, k)
        &&& run.w.first_names.contains_key(key_of(plan, k))
        &&& run.w.first_names[key_of(plan, k)] == first_of(run.w.phase)->0
        &&& exists|j: int|
            0 <= j < k && #[trigger] shared(plan, j) && key_of(plan, j) == key_of(plan, k)
                && first_of(run.w.phase)->0 == target_for(plan, plan.entries[j].place)
    }
}

/// Whether a place lies in a subtree that is still to be removed.
pub open spec fn doomed(plan: Plan, run: Run, q: Seq<Seq<u8>>) -> bool {
    covered(components(plan.dest) + q, run.delete)
}

/// What is true of a run whose walk is over: every entry is taken care of, and
/// what stands where the source has nothing is still to be removed.
pub open spec fn finished_off(plan: Plan, run: Run) -> bool {
    let n = plan.entries.len();
    &&& regular(plan, run.tree)
    &&& forall|q: Seq<Seq<u8>>| #[trigger]
        run.tree.contains_key(q) ==> doomed(plan, run, q) || exists|k: int|
            0 <= k < n && (#[trigger] plan.entries[k]).place == q
    &&& forall|k: int| 0 <= k < n ==> !doomed(plan, run, (#[trigger] plan.entries[k]).place)
    &&& forall|i: int|
        0 <= i < run.delete.len() ==> within(
            components(#[trigger] run.delete[i]),
            components(plan.dest),
        )
    &&& forall|k: int| 0 <= k < n ==> #[trigger] kept(plan, run, run.verify, k)
    &&& collected(plan, run.verify, n as int)
    &&& known(plan, run.w.first_names, n as int)
    &&& run.done.subset_of(Set::new(|i: int| 0 <= i < run.sent.len()))
    &&& forall|i: int|
        0 <= i < run.sent.len() ==> sent_for(plan, #[trigger] run.sent[i], n as int)
}

/// What is true of a run at every turn.
pub open spec fn invariant_of(plan: Plan, run: Run) -> bool {
    match run.w.phase {
        SyncPhase::Ready | SyncPhase::Preparing | SyncPhase::Opening => {
            &&& in_order(plan, run)
            &&& run.met == 0
            &&& run.w.stale == Seq::<Seq<u8>>::empty() && run.listed == Seq::<Seq<u8>>::empty()
        },
        SyncPhase::Walking => {
            &&& in_order(plan, run)
            &&& run.w.stale == Seq::<Seq<u8>>::empty() && run.listed == Seq::<Seq<u8>>::empty()
        },
        SyncPhase::Resolving(path) => {
            &&& in_order(plan, run)
            &&& run.met > 0
            &&& path == plan.entries[run.met - 1].path
            &&& run.w.stale == Seq::<Seq<u8>>::empty() && run.listed == Seq::<Seq<u8>>::empty()
        },
        SyncPhase::Reading(path, from) => {
            &&& in_order(plan, run)
            &&& run.met > 0
            &&& path == plan.entries[run.met - 1].path
            &&& from == plan.entries[run.met - 1].from
            &&& run.w.stale == Seq::<Seq<u8>>::empty() && run.listed == Seq::<Seq<u8>>::empty()
        },
        SyncPhase::Surveying | SyncPhase::OpeningList => {
            &&& in_order(plan, run)
            &&& run.met == plan.entries.len()
            &&& run.w.stale == Seq::<Seq<u8>>::empty() && run.listed == Seq::<Seq<u8>>::empty()
        },
        SyncPhase::Listing => {
            &&& in_order(plan, run)
            &&& run.met == plan.entries.len()
            &&& run.w.stale == stale_of(run.listed, plan.dest, run.w.seen)
        },
        SyncPhase::Done => finished_off(plan, run),
        _ => {
            &&& in_order(plan, run)
            &&& run.met > 0
            &&& well_under_way(plan, run)
            &&& run.w.stale == Seq::<Seq<u8>>::empty() && run.listed == Seq::<Seq<u8>>::empty()
        },
    }
}

/// Whether what stands at the place of an entry is as it was, but for a file
/// that has been written and mirrors the entry now.
pub open spec fn moved(plan: Plan, tree: Tree, t: Tree, j: int) -> bool {
    let node = plan.entries[j].node;
    let place = plan.entries[j].place;
    &&& tree.contains_key(place) <==> t.contains_key(place)
    &&& tree.contains_key(place) ==> {
        &&& same_inode(t[place], tree[place])
        &&& t[place].meta.kind == tree[place].meta.kind
        &&& t[place] == tree[place] || {
            &&& tree[place].meta.kind == FileType::File
            &&& plan.separate && node.meta.kind == FileType::File ==> mirrored(
                node,
                plan.config,
                Some(t[place]),
            ) && assured(node, plan.config, Some(t[place]))
        }
    }
}

/// Whether what stands at the place of an entry is the file at the place of
/// another one, which has been made writable.
pub open spec fn loosened(plan: Plan, k: int, tree: Tree, t: Tree, j: int) -> bool {
    let r = plan.entries[k].place;
    let place = plan.entries[j].place;
    &&& tree.contains_key(place) && tree.contains_key(r) && same_inode(tree[place], tree[r])
    &&& t.contains_key(place) && t.contains_key(r) && t[place] == t[r]
    &&& same_inode(t[place], tree[place])
    &&& tree[place].meta.kind == FileType::File && t[place].meta.kind == FileType::File
    &&& !locked(t[r].meta)
}

/// Whether nothing has come up but at the place of an entry, and nothing else
/// is of another kind.
pub open spec fn no_more(plan: Plan, k: int, tree: Tree, t: Tree) -> bool {
    forall|q: Seq<Seq<u8>>| #[trigger]
        t.contains_key(q) && q != plan.entries[k].place ==> tree.contains_key(q)
            && tree[q].meta.kind == t[q].meta.kind
}

/// How the tree may change while an entry is mirrored: what is in place stays
/// so, and what is still to come keeps its kind.
pub open spec fn stepped(plan: Plan, k: int, tree: Tree, t: Tree) -> bool {
    &&& regular(plan, t)
    &&& forall|j: int| 0 <= j < k ==> #[trigger] moved(plan, tree, t, j)
    &&& no_more(plan, k, tree, t)
}

/// How it may change where the copy of the entry is queued.
pub open spec fn eased(plan: Plan, k: int, tree: Tree, t: Tree) -> bool {
    &&& regular(plan, t)
    &&& forall|j: int|
        0 <= j < k ==> #[trigger] moved(plan, tree, t, j) || loosened(plan, k, tree, t, j)
    &&& no_more(plan, k, tree, t)
}

/// A directory that is taken care of is in place, and so is a name of a file
/// whose names are mirrored together.
pub(crate) proof fn lemma_firm(
    plan: Plan,
    run: Run,
    candidates: Seq<Candidate<Seq<u8>>>,
    k: int,
)
    requires
        regular(plan, run.tree),
        0 <= k < plan.entries.len(),
        kept(plan, run, candidates, k),
        plan.entries[k].node.meta.kind == FileType::Dir || shared(plan, k),
    ensures
        in_place(plan, run.w.first_names, run.tree, k),
        sure(plan, candidates, run.tree, k),
{
    if owed(plan, run, k) {
        let j = choose|j: int| #[trigger] covered_by(plan, run, k, j);
        assert(covered_by(plan, run, k, j));
        assert(plan.entries[j].node == plan.entries[k].node);
    }
}

/// The place of an entry lies in a directory that is in place, if all entries
/// before it are taken care of.
pub(crate) proof fn lemma_holder_stands(
    plan: Plan,
    run: Run,
    candidates: Seq<Candidate<Seq<u8>>>,
    k: int,
)
    requires
        sound(plan),
        regular(plan, run.tree),
        0 <= k < plan.entries.len(),
        forall|j: int| 0 <= j < k ==> #[trigger] kept(plan, run, candidates, j),
    ensures
        can_hold(run.tree, plan.entries[k].place),
{
    let place = plan.entries[k].place;
    assert(sound_entry(plan, k));
    if place.len() > 0 {
        let j = choose|j: int|
            0 <= j < k && (#[trigger] plan.entries[j]).place == place.drop_last()
                && plan.entries[j].node.meta.kind == FileType::Dir;
        assert(kept(plan, run, candidates, j));
        lemma_firm(plan, run, candidates, j);
    }
}

/// An entry stays taken care of where what stands at its place is as it was or
/// mirrors the entry now.
pub(crate) proof fn lemma_moved_is_kept(
    plan: Plan,
    run: Run,
    then: Run,
    candidates: Seq<Candidate<Seq<u8>>>,
    grown: Seq<Candidate<Seq<u8>>>,
    k: int,
)
    requires
        regular(plan, run.tree),
        0 <= k < plan.entries.len(),
        kept(plan, run, candidates, k),
        then.start == run.start,
        then.w.first_names == run.w.first_names,
        forall|c: Candidate<Seq<u8>>| candidates.contains(c) ==> #[trigger] grown.contains(c),
        moved(plan, run.tree, then.tree, k),
        ordered(plan, run, k) ==> ordered(plan, then, k) || then.tree.contains_key(
            plan.entries[k].place,
        ),
        forall|j: int| #[trigger]
            covered_by(plan, run, k, j) && owed(plan, run, k)
                && then.tree[plan.entries[k].place] == run.tree[plan.entries[k].place]
                ==> covered_by(plan, then, k, j),
        shared(plan, k) ==> ({
            let first = run.w.first_names[key_of(plan, k)];
            let was = look(plan.dest, run.tree, first);
            let is = look(plan.dest, then.tree, first);
            was is Some ==> is is Some && same_inode(was->0, is->0)
        }),
    ensures
        kept(plan, then, grown, k),
{
    let place = plan.entries[k].place;
    if mirrorable(plan.entries[k].node.meta.kind) {
        if owed(plan, run, k) {
            if run.tree.contains_key(place) {
                let j = choose|j: int| #[trigger] covered_by(plan, run, k, j);
                assert(covered_by(plan, run, k, j));
                assert(plan.entries[j].node == plan.entries[k].node);
                assert(!shared(plan, k));
                if then.tree[place] == run.tree[place] {
                    assert(covered_by(plan, then, k, j));
                } else {
                    assert(mirrored(plan.entries[k].node, plan.config, Some(then.tree[place])));
                }
            }
        }
    }
}

/// An entry stays taken care of where it is a name of a file that is made
/// writable for a copy that is queued.
pub(crate) proof fn lemma_loosened_is_kept(
    plan: Plan,
    run: Run,
    then: Run,
    candidates: Seq<Candidate<Seq<u8>>>,
    k: int,
    j: int,
)
    requires
        regular(plan, run.tree),
        0 <= k < plan.entries.len(),
        0 <= j < plan.entries.len(),
        kept(plan, run, candidates, j),
        then.start == run.start,
        then.w.first_names == run.w.first_names,
        unshared_file(plan, k),
        ordered(plan, then, k),
        loosened(plan, k, run.tree, then.tree, j),
        shared(plan, j) ==> ({
            let first = run.w.first_names[key_of(plan, j)];
            let was = look(plan.dest, run.tree, first);
            let is = look(plan.dest, then.tree, first);
            was is Some ==> is is Some && same_inode(was->0, is->0)
        }),
    ensures
        kept(plan, then, candidates, j),
{
    if mirrorable(plan.entries[j].node.meta.kind) {
        assert(plan.entries[j].node.meta.kind == FileType::File);
        if plan.separate {
            assert(covered_by(plan, then, j, k));
            assert(owed(plan, then, j));
        } else {
            assert(!owed(plan, run, j));
        }
    }
}

/// What is queued stays queued where more is.
pub(crate) proof fn lemma_still_ordered(plan: Plan, run: Run, then: Run, k: int)
    requires
        run.sent.is_prefix_of(then.sent),
        then.done == run.done,
        ordered(plan, run, k),
    ensures
        ordered(plan, then, k),
{
    let i = choose|i: int| #[trigger] waits(run, i) && run.sent[i] == op_for(plan, k);
    assert(then.sent[i] == run.sent[i]);
    assert(waits(then, i));
}

/// The entry of a queued copy is one that the walk has left behind.
pub(crate) proof fn lemma_ordered_is_behind(plan: Plan, run: Run, n: int, k: int)
    requires
        sound(plan),
        forall|i: int| 0 <= i < run.sent.len() ==> sent_for(plan, #[trigger] run.sent[i], n),
        0 <= k < plan.entries.len(),
        ordered(plan, run, k),
    ensures
        k < n,
        sendable(plan, k),
{
    let i = choose|i: int| #[trigger] waits(run, i) && run.sent[i] == op_for(plan, k);
    assert(sent_for(plan, run.sent[i], n));
    let j = choose|j: int|
        0 <= j < n && j < plan.entries.len() && run.sent[i] == op_for(plan, j)
            && #[trigger] sendable(plan, j);
    lemma_op_is_one(plan, j, k);
}

/// An operation is that of one entry.
pub(crate) proof fn lemma_op_is_one(plan: Plan, i: int, j: int)
    requires
        sound(plan),
        0 <= i < plan.entries.len(),
        0 <= j < plan.entries.len(),
        op_for(plan, i) == op_for(plan, j),
    ensures
        i == j,
{
    assert(sound_entry(plan, i) && sound_entry(plan, j));
    lemma_target_place(plan, plan.entries[i].place);
    lemma_target_place(plan, plan.entries[j].place);
    assert(target_for(plan, plan.entries[i].place) == target_of_op(op_for(plan, i)));
    assert(target_for(plan, plan.entries[j].place) == target_of_op(op_for(plan, j)));
    assert(plan.entries[i].place == plan.entries[j].place);
}

/// The phases in which a file is mirrored that is no further name.
pub open spec fn filing(phase: SyncPhase<Seq<u8>>) -> bool {
    phase is FileTarget || phase is FileDigest || phase is FileWritable
}

/// The files that are still to be compared are those of entries in place.
pub(crate) proof fn lemma_collected_grows(
    plan: Plan,
    candidates: Seq<Candidate<Seq<u8>>>,
    grown: Seq<Candidate<Seq<u8>>>,
    k: int,
)
    requires
        0 <= k < plan.entries.len(),
        collected(plan, candidates, k),
        grown == candidates || (grown == candidates.push(candidate_of(plan, k)) && unshared_file(
            plan,
            k,
        )),
    ensures
        collected(plan, grown, k + 1),
        grown == candidates ==> collected(plan, grown, k),
        forall|c: Candidate<Seq<u8>>| candidates.contains(c) ==> #[trigger] grown.contains(c),
{
    assert forall|i: int| 0 <= i < grown.len() implies stems(plan, #[trigger] grown[i], k + 1) by {
        if i < candidates.len() {
            assert(stems(plan, candidates[i], k));
            let j = choose|j: int|
                0 <= j < k && j < plan.entries.len() && candidates[i] == candidate_of(plan, j)
                    && #[trigger] unshared_file(plan, j);
            assert(unshared_file(plan, j));
        } else {
            assert(unshared_file(plan, k));
        }
    }
    assert forall|c: Candidate<Seq<u8>>| candidates.contains(c) implies #[trigger] grown.contains(
        c,
    ) by {
        let i = candidates.index_of(c);
        assert(grown[i] == c);
    }
}

/// What was queued for the first entries was queued for more of them.
pub(crate) proof fn lemma_sent_grows(
    plan: Plan,
    sent: Seq<Operation<Seq<u8>>>,
    n: int,
    m: int,
)
    requires
        n <= m,
        forall|i: int| 0 <= i < sent.len() ==> sent_for(plan, #[trigger] sent[i], n),
    ensures
        forall|i: int| 0 <= i < sent.len() ==> sent_for(plan, #[trigger] sent[i], m),
{
    assert forall|i: int| 0 <= i < sent.len() implies sent_for(plan, #[trigger] sent[i], m) by {
        let k = choose|k: int|
            0 <= k < n && k < plan.entries.len() && sent[i] == op_for(plan, k)
                && #[trigger] sendable(plan, k);
        assert(sendable(plan, k));
    }
}

/// What queues a copy makes the file writable that stands in its place, under
/// all its names, and leaves all else.
pub(crate) proof fn lemma_unlocked(plan: Plan, k: int, len: u64, made: Node, tree: Tree)
    requires
        sound(plan),
        regular(plan, tree),
        0 <= k < plan.entries.len(),
        unshared_file(plan, k),
        tree.contains_key(plan.entries[k].place)
            ==> tree[plan.entries[k].place].meta.kind == FileType::File,
    ensures
        ({
            let r = plan.entries[k].place;
            let target = target_for(plan, r);
            let commands = unlocking(target, meta_of(node_at(tree, r))) + seq![
                Command::Size(len),
                Command::Send(Operation::Copy(plan.entries[k].from, target)),
            ];
            let t = tree_effects(commands, plan, made, tree);
            &&& sends(commands) == seq![op_for(plan, k)]
            &&& regular(plan, t)
            &&& forall|q: Seq<Seq<u8>>| #[trigger]
                t.contains_key(q) <==> tree.contains_key(q)
            &&& tree.contains_key(r) ==> rewritten(tree, t, r) && !locked(t[r].meta)
            &&& !tree.contains_key(r) ==> t == tree
        }),
{
    let r = plan.entries[k].place;
    let target = target_for(plan, r);
    let found = meta_of(node_at(tree, r));
    let size = Command::<Seq<u8>>::Size(len);
    let copy = Command::Send(Operation::Copy(plan.entries[k].from, target));
    let first = unlocking(target, found);
    let commands = first + seq![size, copy];
    assert(sound_entry(plan, k));
    lemma_target_place(plan, r);
    lemma_sends_of_one(Command::SetMode(target, unlocked_mode(found->0.mode)));
    lemma_sends_of_one(size);
    lemma_sends_of_one(copy);
    lemma_sends_append(seq![size], seq![copy]);
    assert(seq![size] + seq![copy] =~= seq![size, copy]);
    lemma_sends_append(first, seq![size, copy]);
    assert(sends(commands) =~= seq![op_for(plan, k)]);
    let t = tree_effects(commands, plan, made, tree);
    lemma_tree_effects_append(first, seq![size, copy], plan, made, tree);
    let mid = tree_effects(first, plan, made, tree);
    lemma_tree_effects_append(seq![size], seq![copy], plan, made, mid);
    lemma_tree_effects_of_one(size, plan, made, mid);
    lemma_tree_effects_of_one(copy, plan, made, mid);
    assert(t == mid);
    if first.len() > 0 {
        let node = tree[r];
        let mode = unlocked_mode(node.meta.mode);
        let open = Node { meta: Metadata { mode, ..node.meta }, ..node };
        assert(first =~= seq![Command::SetMode(target, mode)]);
        lemma_tree_effects_of_one(Command::SetMode(target, mode), plan, made, tree);
        law_unlock_adds_one_bit(node.meta.mode);
        assert(t == changed(tree, r, open));
        lemma_changed_is_regular(plan, tree, r, open);
    } else {
        assert(t == tree);
        if tree.contains_key(r) {
            assert forall|q: Seq<Seq<u8>>| #[trigger] tree.contains_key(q) && same_inode(
                tree[q],
                tree[r],
            ) implies tree[q] == tree[r] by {
                assert(tree.contains_key(r));
            }
        }
    }
}

/// Where a file is made writable, an entry keeps what stands at its place, or
/// is a name of that file.
pub(crate) proof fn lemma_unlocked_spares(plan: Plan, k: int, tree: Tree, t: Tree, j: int)
    requires
        sound(plan),
        regular(plan, tree),
        0 <= k < plan.entries.len(),
        0 <= j < plan.entries.len(),
        unshared_file(plan, k),
        tree.contains_key(plan.entries[k].place)
            ==> tree[plan.entries[k].place].meta.kind == FileType::File,
        forall|q: Seq<Seq<u8>>| #[trigger] t.contains_key(q) <==> tree.contains_key(q),
        tree.contains_key(plan.entries[k].place) ==> rewritten(tree, t, plan.entries[k].place)
            && !locked(t[plan.entries[k].place].meta),
        !tree.contains_key(plan.entries[k].place) ==> t == tree,
    ensures
        moved(plan, tree, t, j) || loosened(plan, k, tree, t, j),
{
    let r = plan.entries[k].place;
    let place = plan.entries[j].place;
    if tree.contains_key(r) && tree.contains_key(place) {
        assert(t.contains_key(place) && t.contains_key(r));
        if same_inode(tree[place], tree[r]) {
            assert(place == r || tree[place] == tree[r]);
            assert(t[place] == t[r]);
        } else {
            assert(t[place] == tree[place]);
        }
    }
}

/// What is taken care of stays so where only the walk goes on.
pub(crate) proof fn lemma_kept_under_names(plan: Plan, run: Run, then: Run, j: int)
    requires
        0 <= j < plan.entries.len(),
        kept(plan, run, run.w.candidates, j),
        then.tree == run.tree,
        run.sent.is_prefix_of(then.sent),
        then.done == run.done,
        then.start == run.start,
        then.w.candidates == run.w.candidates,
        in_place(plan, run.w.first_names, run.tree, j) ==> in_place(
            plan,
            then.w.first_names,
            run.tree,
            j,
        ),
    ensures
        kept(plan, then, then.w.candidates, j),
{
    if ordered(plan, run, j) {
        lemma_still_ordered(plan, run, then, j);
    }
    if mirrorable(plan.entries[j].node.meta.kind) && owed(plan, run, j) && run.tree.contains_key(
        plan.entries[j].place,
    ) {
        let i = choose|i: int| #[trigger] covered_by(plan, run, j, i);
        lemma_still_ordered(plan, run, then, i);
        assert(covered_by(plan, then, j, i));
    }
}

} // verus!
