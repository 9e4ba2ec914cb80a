//! A model of what runs work on: the tree at a destination, what commands do
//! to it, and runs that are told the truth about it.

use vstd::prelude::*;

use crate::checksum::{blake3_digest, compared};
use crate::config::Config;
use crate::entry::target_of;
use crate::metadata::{locked, FileType, Metadata};
use crate::mirror::{
    alike, assured, copy_of, meta_of, mirrored, pending, replaceable, Node,
};
use crate::path::{
    below, components, joined, law_join_undoes_strip, law_strip_undoes_join,
    lemma_components_of_text, plain, text_of, within,
};
use crate::protocol::{Candidate, Command, Event, Operation, Query};
use crate::prune::covered;
use crate::sync::{beginning, sync_step, SyncPhase, SyncView};

verus! {

/// What stands at each place of a tree. A place is the list of names that
/// lead to it from the top.
pub type Tree = Map<Seq<Seq<u8>>, Node>;

/// An entry of the source as a walk meets it.
pub ghost struct Source {
    /// Where it lies below the top.
    pub place: Seq<Seq<u8>>,
    /// The walked path.
    pub path: Seq<u8>,
    /// Where the entry is read: the walked path, or where it leads.
    pub from: Seq<u8>,
    /// What is read there.
    pub node: Node,
}

/// A run, and the source tree in the order of its walk.
pub ghost struct Plan {
    /// The top of the source.
    pub source: Seq<u8>,
    /// The top of the destination.
    pub dest: Seq<u8>,
    /// The options.
    pub config: Config,
    /// The entries of the source.
    pub entries: Seq<Source>,
    /// Whether different files of the source have different files at the
    /// destination, where they have any.
    pub separate: bool,
}

/// What stands at a place.
pub open spec fn node_at(tree: Tree, place: Seq<Seq<u8>>) -> Option<Node> {
    if tree.contains_key(place) {
        Some(tree[place])
    } else {
        None
    }
}

/// The place of a path below the top of the destination.
pub open spec fn place_of(dest: Seq<u8>, path: Seq<u8>) -> Option<Seq<Seq<u8>>> {
    if within(components(path), components(dest)) {
        Some(below(components(path), components(dest)))
    } else {
        None
    }
}

/// What stands at a path of the destination.
pub open spec fn look(dest: Seq<u8>, tree: Tree, path: Seq<u8>) -> Option<Node> {
    match place_of(dest, path) {
        Some(place) => node_at(tree, place),
        None => None,
    }
}

/// What is read at a path of the source.
pub open spec fn read_at(entries: Seq<Source>, path: Seq<u8>) -> Option<Node> {
    if exists|i: int| 0 <= i < entries.len() && (#[trigger] entries[i]).from == path {
        let i = choose|i: int| 0 <= i < entries.len() && (#[trigger] entries[i]).from == path;
        Some(entries[i].node)
    } else {
        None
    }
}

/// Whether two names are those of one inode.
pub open spec fn same_inode(a: Node, b: Node) -> bool {
    a.meta.dev == b.meta.dev && a.meta.ino == b.meta.ino
}

/// Whether a place is the top or lies in a directory of the tree.
pub open spec fn can_hold(tree: Tree, place: Seq<Seq<u8>>) -> bool {
    place.len() > 0 ==> {
        &&& tree.contains_key(place.drop_last())
        &&& tree[place.drop_last()].meta.kind == FileType::Dir
    }
}

/// The tree with a new entry at a place, if nothing stands there and a
/// directory is there to hold it.
pub open spec fn created(tree: Tree, place: Seq<Seq<u8>>, node: Node) -> Tree {
    if !tree.contains_key(place) && can_hold(tree, place) {
        tree.insert(place, node)
    } else {
        tree
    }
}

/// The tree in which what stands at a place has become `node`, under all its
/// names.
pub open spec fn changed(tree: Tree, place: Seq<Seq<u8>>, node: Node) -> Tree {
    Map::new(
        |q: Seq<Seq<u8>>| tree.contains_key(q),
        |q: Seq<Seq<u8>>|
            if q == place || same_inode(tree[q], tree[place]) {
                node
            } else {
                tree[q]
            },
    )
}

/// The tree without a place and all below it.
pub open spec fn cut(tree: Tree, place: Seq<Seq<u8>>) -> Tree {
    Map::new(
        |q: Seq<Seq<u8>>| tree.contains_key(q) && !within(q, place),
        |q: Seq<Seq<u8>>| tree[q],
    )
}

/// A directory that was just made.
pub open spec fn new_dir(made: Node) -> Node {
    Node { meta: Metadata { kind: FileType::Dir, ..made.meta }, ..made }
}

/// A file that was just made.
pub open spec fn new_file(made: Node) -> Node {
    Node { meta: Metadata { kind: FileType::File, ..made.meta }, ..made }
}

/// A symlink that was just made.
pub open spec fn new_link(made: Node, text: Seq<u8>) -> Node {
    Node { meta: Metadata { kind: FileType::Symlink, ..made.meta }, text, data: seq![] }
}

/// What copying the first path to the second leaves.
pub open spec fn copied(
    plan: Plan,
    made: Node,
    tree: Tree,
    from: Seq<u8>,
    to: Seq<u8>,
) -> Tree {
    match (read_at(plan.entries, from), place_of(plan.dest, to)) {
        (Some(source), Some(place)) => match node_at(tree, place) {
            None => created(tree, place, copy_of(source, plan.config, new_file(made))),
            Some(node) => if node.meta.kind == FileType::File && !locked(node.meta) {
                changed(tree, place, copy_of(source, plan.config, node))
            } else {
                tree
            },
        },
        _ => tree,
    }
}

/// A special file that was just made.
pub open spec fn new_special(made: Node, kind: FileType) -> Node {
    Node { meta: Metadata { kind, ..made.meta }, ..made }
}

/// What a queued operation, once it is carried out, leaves of the
/// destination's tree. A new entry is like `made`. A symlink or a special file
/// is made only where nothing stands.
pub open spec fn op_effect(
    op: Operation<Seq<u8>>,
    plan: Plan,
    made: Node,
    tree: Tree,
) -> Tree {
    match op {
        Operation::Copy(p, q) => copied(plan, made, tree, p, q),
        Operation::Link(text, p) => match place_of(plan.dest, p) {
            Some(place) => created(tree, place, new_link(made, text)),
            None => tree,
        },
        Operation::Special(p, q) => match (read_at(plan.entries, p), place_of(plan.dest, q)) {
            (Some(source), Some(place)) => created(
                tree,
                place,
                new_special(made, source.meta.kind),
            ),
            _ => tree,
        },
    }
}

/// The path that an operation makes or writes.
pub open spec fn target_of_op(op: Operation<Seq<u8>>) -> Seq<u8> {
    match op {
        Operation::Copy(_, p) => p,
        Operation::Link(_, p) => p,
        Operation::Special(_, p) => p,
    }
}

/// The operations that a list of commands queues.
pub open spec fn sends(commands: Seq<Command<Seq<u8>>>) -> Seq<Operation<Seq<u8>>>
    decreases commands.len(),
{
    if commands.len() == 0 {
        seq![]
    } else {
        match commands.last() {
            Command::Send(op) => sends(commands.drop_last()).push(op),
            _ => sends(commands.drop_last()),
        }
    }
}

/// What a command leaves of the destination's tree. A new entry is like
/// `made`. An operation that is queued leaves the tree as it is until it is
/// carried out.
pub open spec fn tree_effect(c: Command<Seq<u8>>, plan: Plan, made: Node, tree: Tree) -> Tree {
    match c {
        Command::RemoveFile(p) => match look(plan.dest, tree, p) {
            Some(node) => if node.meta.kind == FileType::Dir {
                tree
            } else {
                tree.remove(place_of(plan.dest, p)->0)
            },
            None => tree,
        },
        Command::RemoveDirAll(p) => match look(plan.dest, tree, p) {
            Some(node) => if node.meta.kind == FileType::Dir {
                cut(tree, place_of(plan.dest, p)->0)
            } else {
                tree
            },
            None => tree,
        },
        Command::CreateDirAll(p) => match place_of(plan.dest, p) {
            Some(place) => created(tree, place, new_dir(made)),
            None => tree,
        },
        Command::CreateTargetDir(p) => match place_of(plan.dest, p) {
            Some(place) => created(tree, place, new_dir(made)),
            None => tree,
        },
        Command::SetMode(p, mode) => match look(plan.dest, tree, p) {
            Some(node) => changed(
                tree,
                place_of(plan.dest, p)->0,
                Node { meta: Metadata { mode, ..node.meta }, ..node },
            ),
            None => tree,
        },
        Command::Chown(p, uid, gid) => match look(plan.dest, tree, p) {
            Some(node) => changed(
                tree,
                place_of(plan.dest, p)->0,
                Node { meta: Metadata { uid, gid, ..node.meta }, ..node },
            ),
            None => tree,
        },
        Command::HardLink(p, q) => match (look(plan.dest, tree, p), place_of(plan.dest, q)) {
            (Some(node), Some(place)) => created(tree, place, node),
            _ => tree,
        },
        Command::CopyNow(p, q) => copied(plan, made, tree, p, q),
        _ => tree,
    }
}

/// What a list of commands leaves of the destination's tree.
pub open spec fn tree_effects(
    commands: Seq<Command<Seq<u8>>>,
    plan: Plan,
    made: Node,
    tree: Tree,
) -> Tree
    decreases commands.len(),
{
    if commands.len() == 0 {
        tree
    } else {
        tree_effect(
            commands.last(),
            plan,
            made,
            tree_effects(commands.drop_last(), plan, made, tree),
        )
    }
}

/// Where a run stands.
pub ghost struct Run {
    /// What the walk knows.
    pub w: SyncView,
    /// What stands at the destination.
    pub tree: Tree,
    /// How many entries of the source the walk has met.
    pub met: nat,
    /// The paths of the destination that have been listed.
    pub listed: Seq<Seq<u8>>,
    /// What the walk has ordered, each with the index of the entry that was
    /// met last.
    pub orders: Seq<(int, Command<Seq<u8>>)>,
    /// The operations that have been queued.
    pub sent: Seq<Operation<Seq<u8>>>,
    /// The indices of those that have been carried out.
    pub done: Set<int>,
    /// The subtrees that are to be removed and have not been yet.
    pub delete: Seq<Seq<u8>>,
    /// The files whose contents are to be compared and have not been yet.
    pub verify: Seq<Candidate<Seq<u8>>>,
    /// What stood at the destination before the run.
    pub start: Tree,
}

/// Something that is left to be done besides the walk.
pub ghost enum Task {
    /// The operation with this index among those that have been queued.
    Carry(int),
    /// The removal of the subtree with this index among those that are left.
    Remove(int),
    /// The comparison of the files with this index among those that are left.
    Compare(int),
}

/// A task that is done, and what is made by it, if anything.
pub ghost struct Work {
    /// The task.
    pub task: Task,
    /// The new entry, apart from its kind and contents.
    pub made: Node,
}

/// The tasks that are done meanwhile, the answer that the walk then gets, and
/// what is made, if anything, by what the walk orders on it.
pub ghost struct Turn {
    /// The tasks, in the order in which they are done.
    pub work: Seq<Work>,
    /// The answer.
    pub event: Event<Seq<u8>>,
    /// The new entry, apart from its kind and contents.
    pub made: Node,
}

/// The run before it begins.
pub open spec fn at_start(plan: Plan, tree: Tree) -> Run {
    Run {
        w: beginning(plan.source, plan.dest, plan.config),
        tree,
        met: 0,
        listed: seq![],
        orders: seq![],
        sent: seq![],
        done: Set::empty(),
        delete: seq![],
        verify: seq![],
        start: tree,
    }
}

/// Whether an operation has been queued and is not carried out yet.
pub open spec fn waits(run: Run, i: int) -> bool {
    0 <= i < run.sent.len() && !run.done.contains(i)
}

/// The run with one of its operations carried out.
pub open spec fn carried(plan: Plan, run: Run, i: int, made: Node) -> Run {
    Run {
        tree: op_effect(run.sent[i], plan, made, run.tree),
        done: run.done.insert(i),
        ..run
    }
}

/// The run with one of its subtrees removed.
pub open spec fn removed(plan: Plan, run: Run, i: int) -> Run {
    Run {
        tree: pruned(plan, run.tree, seq![run.delete[i]]),
        delete: run.delete.remove(i),
        ..run
    }
}

/// The run with two of its files compared, and what that orders: what is
/// queued by it is to be carried out like any other operation.
pub open spec fn checked(plan: Plan, run: Run, i: int, made: Node) -> Run {
    let commands = comparing(run.verify[i], plan, run.tree);
    Run {
        tree: tree_effects(commands, plan, made, run.tree),
        sent: run.sent + sends(commands),
        verify: run.verify.remove(i),
        ..run
    }
}

/// The run with one task done.
pub open spec fn worked(plan: Plan, run: Run, work: Work) -> Run {
    match work.task {
        Task::Carry(i) => carried(plan, run, i, work.made),
        Task::Remove(i) => removed(plan, run, i),
        Task::Compare(i) => checked(plan, run, i, work.made),
    }
}

/// The run with several tasks done, one after the other.
pub open spec fn carried_out(plan: Plan, run: Run, order: Seq<Work>) -> Run
    decreases order.len(),
{
    if order.len() == 0 {
        run
    } else {
        carried_out(plan, worked(plan, run, order[0]), order.skip(1))
    }
}

/// Whether a task is one that is left to be done, and a new entry a new inode.
pub open spec fn able(run: Run, work: Work) -> bool {
    &&& unused(run.tree, work.made)
    &&& match work.task {
        Task::Carry(i) => waits(run, i),
        Task::Remove(i) => 0 <= i < run.delete.len(),
        Task::Compare(i) => 0 <= i < run.verify.len(),
    }
}

/// Whether each task in turn is one that is left to be done.
pub open spec fn feasible(plan: Plan, run: Run, order: Seq<Work>) -> bool
    decreases order.len(),
{
    order.len() > 0 ==> {
        &&& able(run, order[0])
        &&& feasible(plan, worked(plan, run, order[0]), order.skip(1))
    }
}

/// Whether nothing is left to be done.
pub open spec fn all_done(run: Run) -> bool {
    &&& forall|i: int| 0 <= i < run.sent.len() ==> #[trigger] run.done.contains(i)
    &&& run.delete.len() == 0
    &&& run.verify.len() == 0
}

/// What is left of the tree once subtrees are removed.
pub open spec fn pruned(plan: Plan, tree: Tree, roots: Seq<Seq<u8>>) -> Tree {
    Map::new(
        |q: Seq<Seq<u8>>| tree.contains_key(q) && !covered(components(plan.dest) + q, roots),
        |q: Seq<Seq<u8>>| tree[q],
    )
}

/// Whether the contents of a candidate's files have the same digest.
pub open spec fn agrees(c: Candidate<Seq<u8>>, plan: Plan, tree: Tree) -> bool {
    match (read_at(plan.entries, c.from), look(plan.dest, tree, c.target)) {
        (Some(source), Some(node)) => blake3_digest(source.data) == blake3_digest(node.data),
        _ => false,
    }
}

/// What the comparison of a candidate orders.
pub open spec fn comparing(c: Candidate<Seq<u8>>, plan: Plan, tree: Tree) -> Seq<
    Command<Seq<u8>>,
> {
    compared(
        c,
        meta_of(look(plan.dest, tree, c.target)),
        agrees(c, plan, tree),
        plan.config.dry_run,
        plan.config.copy_xattrs,
    )
}

/// The run one answer further, with what the walk orders on it: the commands
/// are carried out, but for the operations, which are queued; removals and
/// comparisons are left to be done too.
pub open spec fn run_step(plan: Plan, run: Run, turn: Turn) -> Run {
    let (w, reply) = sync_step(run.w, turn.event);
    Run {
        w,
        tree: tree_effects(reply.commands, plan, turn.made, run.tree),
        met: if run.w.phase is Walking && turn.event is Entry {
            run.met + 1
        } else {
            run.met
        },
        listed: match (run.w.phase, turn.event) {
            (SyncPhase::Listing, Event::Entry(Some(path))) => run.listed.push(path),
            _ => run.listed,
        },
        orders: run.orders + reply.commands.map_values(
            |c: Command<Seq<u8>>| (run.met - 1, c),
        ),
        sent: run.sent + sends(reply.commands),
        done: run.done,
        delete: run.delete + reply.delete,
        verify: run.verify + reply.verify,
        start: run.start,
    }
}

/// The run one turn further.
pub open spec fn turned(plan: Plan, run: Run, turn: Turn) -> Run {
    run_step(plan, carried_out(plan, run, turn.work), turn)
}

/// Whether an entry of the destination may be missing from the listing: an
/// operation makes it that may have been carried out since.
pub open spec fn made_meanwhile(plan: Plan, run: Run, q: Seq<Seq<u8>>) -> bool {
    exists|i: int|
        0 <= i < run.sent.len() && place_of(
            plan.dest,
            target_of_op(#[trigger] run.sent[i]),
        ) == Some(q)
}

/// Whether the event is what the walk asked for, and true of the source and
/// of the destination as it stands.
pub open spec fn truthful(plan: Plan, run: Run, event: Event<Seq<u8>>) -> bool {
    let top = node_at(run.tree, seq![]);
    let entry = plan.entries[run.met - 1];
    match (run.w.phase, event) {
        (SyncPhase::Ready, Event::Begin) => true,
        (SyncPhase::Preparing, Event::Answer(stands)) => match top {
            None => !stands,
            Some(node) => stands || node.meta.kind == FileType::Symlink,
        },
        (SyncPhase::Opening, Event::Begun) => true,
        (SyncPhase::Walking, Event::Entry(Some(path))) => {
            run.met < plan.entries.len() && path == plan.entries[run.met as int].path
        },
        (SyncPhase::Walking, Event::End) => run.met == plan.entries.len(),
        (SyncPhase::Resolving(_), Event::Path(from)) => from == entry.from,
        (SyncPhase::Reading(_, _), Event::Meta(found)) => found == Some(entry.node.meta),
        (SyncPhase::Surveying, Event::Answer(is_dir)) => {
            is_dir == (top is Some && top->0.meta.kind == FileType::Dir)
        },
        (SyncPhase::OpeningList, Event::Begun) => true,
        (SyncPhase::Listing, Event::Entry(Some(path))) => look(plan.dest, run.tree, path) is Some,
        (SyncPhase::Listing, Event::End) => forall|q: Seq<Seq<u8>>| #[trigger]
            run.tree.contains_key(q) ==> made_meanwhile(plan, run, q) || exists|i: int|
                0 <= i < run.listed.len() && place_of(plan.dest, #[trigger] run.listed[i]) == Some(
                    q,
                ),
        _ => match (pending(run.w.phase), event) {
            (Query::Lstat(p), Event::Meta(found)) => found == meta_of(
                look(plan.dest, run.tree, p),
            ),
            (Query::ReadLink(p), Event::Path(text)) => match read_at(plan.entries, p) {
                Some(node) => text == node.text,
                None => match look(plan.dest, run.tree, p) {
                    Some(node) => text == node.text,
                    None => false,
                },
            },
            (Query::Digests(p, q), Event::Digests(Some((a, b)))) => match (
                read_at(plan.entries, p),
                look(plan.dest, run.tree, q),
            ) {
                (Some(source), Some(node)) => a@ == blake3_digest(source.data) && b@
                    == blake3_digest(node.data),
                _ => false,
            },
            _ => false,
        },
    }
}

/// Whether the inode of a new entry is not one that the tree holds already.
pub open spec fn unused(tree: Tree, made: Node) -> bool {
    forall|q: Seq<Seq<u8>>| #[trigger] tree.contains_key(q) ==> !same_inode(tree[q], made)
}

/// Whether a turn is one that can come: the tasks are left to be done, the
/// answer is then true, and every new entry is a new inode.
pub open spec fn proper(plan: Plan, run: Run, turn: Turn) -> bool {
    let ready = carried_out(plan, run, turn.work);
    &&& feasible(plan, run, turn.work)
    &&& truthful(plan, ready, turn.event)
    &&& unused(ready.tree, turn.made)
}

/// Whether every turn of the run is one that can come.
pub open spec fn faithful(plan: Plan, run: Run, turns: Seq<Turn>) -> bool
    decreases turns.len(),
{
    turns.len() > 0 ==> {
        &&& proper(plan, run, turns[0])
        &&& faithful(plan, turned(plan, run, turns[0]), turns.skip(1))
    }
}

/// Where the run stands after the turns.
pub open spec fn after(plan: Plan, run: Run, turns: Seq<Turn>) -> Run
    decreases turns.len(),
{
    if turns.len() == 0 {
        run
    } else {
        after(plan, turned(plan, run, turns[0]), turns.skip(1))
    }
}

/// Whether two entries of the source are names of one file, to be mirrored as
/// such.
pub open spec fn linked(plan: Plan, i: int, j: int) -> bool {
    let a = plan.entries[i].node;
    let b = plan.entries[j].node;
    &&& plan.config.preserve_hardlinks
    &&& a.meta.kind == FileType::File && b.meta.kind == FileType::File
    &&& a.meta.nlink > 1 && b.meta.nlink > 1
    &&& same_inode(a, b)
}

/// The path at which the mirror of a place belongs.
pub open spec fn target_for(plan: Plan, place: Seq<Seq<u8>>) -> Seq<u8> {
    target_of(plan.dest, text_of(place))
}

/// What belongs at a place lies at that place.
pub proof fn lemma_place_of_target(base: Seq<u8>, place: Seq<Seq<u8>>)
    requires
        plain(place),
    ensures
        place_of(base, target_of(base, text_of(place))) == Some(place),
        components(text_of(place)) == place,
{
    let rel = text_of(place);
    let b = components(base);
    lemma_components_of_text(place);
    if place.len() == 0 {
        assert(b.take(b.len() as int) =~= b);
        assert(below(b, b) =~= place);
    } else {
        law_strip_undoes_join(base, rel);
        law_join_undoes_strip(joined(base, rel), base);
    }
}

/// Whether the place is that of an earlier entry, a directory.
pub open spec fn held(plan: Plan, k: int, place: Seq<Seq<u8>>) -> bool {
    exists|j: int|
        0 <= j < k && (#[trigger] plan.entries[j]).place == place
            && plan.entries[j].node.meta.kind == FileType::Dir
}

/// Whether entries of a kind are mirrored in every run.
pub open spec fn mirrorable(kind: FileType) -> bool {
    kind == FileType::Dir || kind == FileType::File || kind == FileType::Symlink
}

/// Whether an entry of the source can be walked: its path lies at its place
/// below the top, and it is of a known kind.
pub open spec fn sound_entry(plan: Plan, k: int) -> bool {
    let entry = plan.entries[k];
    let kind = entry.node.meta.kind;
    &&& plain(entry.place)
    &&& within(components(entry.path), components(plan.source))
    &&& below(components(entry.path), components(plan.source)) == entry.place
    &&& plan.config.dereference || entry.from == entry.path
    &&& kind != FileType::Other
    &&& entry.place.len() > 0 ==> held(plan, k, entry.place.drop_last())
}

/// Whether a plan is that of a run that mirrors a tree: the walk meets the
/// top first and each place once, holders before what they hold; what is read
/// at one path or of one inode is one file; and the source is read nowhere
/// that the run writes. The top is a directory or a file.
pub open spec fn sound(plan: Plan) -> bool {
    let n = plan.entries.len();
    &&& n > 0 && plan.entries[0].place.len() == 0
    &&& plan.entries[0].node.meta.kind == FileType::Dir || plan.entries[0].node.meta.kind
        == FileType::File
    &&& forall|k: int| 0 <= k < n ==> #[trigger] sound_entry(plan, k)
    &&& forall|i: int, j: int|
        #![trigger plan.entries[i], plan.entries[j]]
        0 <= i < n && 0 <= j < n ==> {
            let a = plan.entries[i];
            let b = plan.entries[j];
            &&& i != j ==> a.place != b.place
            &&& a.from == b.from ==> a.node == b.node
            &&& a.node.meta.kind == FileType::File && b.node.meta.kind == FileType::File
                && same_inode(a.node, b.node) ==> a.node == b.node
            &&& a.from != target_for(plan, b.place)
        }
}

/// Whether everything but the top lies in a directory of the tree.
pub open spec fn closed(tree: Tree) -> bool {
    forall|q: Seq<Seq<u8>>| #[trigger] tree.contains_key(q) ==> can_hold(tree, q)
}

/// Whether the names of one inode are one file in the tree, and none of a
/// directory.
pub open spec fn one_each(tree: Tree) -> bool {
    forall|p: Seq<Seq<u8>>, q: Seq<Seq<u8>>|
        #![trigger tree.contains_key(p), tree.contains_key(q)]
        tree.contains_key(p) && tree.contains_key(q) && p != q && same_inode(tree[p], tree[q])
            ==> tree[p] == tree[q] && tree[p].meta.kind != FileType::Dir
}

/// Whether files of the source have one file in the tree only where they are
/// one file themselves.
pub open spec fn apart(plan: Plan, tree: Tree) -> bool {
    forall|i: int, j: int|
        #![trigger plan.entries[i], plan.entries[j]]
        {
            let a = plan.entries[i];
            let b = plan.entries[j];
            &&& 0 <= i < plan.entries.len() && 0 <= j < plan.entries.len() && i != j
            &&& tree.contains_key(a.place) && tree.contains_key(b.place)
            &&& same_inode(tree[a.place], tree[b.place])
            &&& tree[a.place].meta.kind == FileType::File
            &&& a.node.meta.kind == FileType::File && b.node.meta.kind == FileType::File
        } ==> plan.entries[i].node == plan.entries[j].node
}

/// Whether the tree is one of a file system that the run can work on.
pub open spec fn regular(plan: Plan, tree: Tree) -> bool {
    closed(tree) && one_each(tree) && (plan.separate ==> apart(plan, tree))
}

/// Whether the place of an entry holds nothing that the entry cannot replace.
pub open spec fn yields(plan: Plan, tree: Tree, k: int) -> bool {
    plan.entries[k].node.meta.kind == FileType::File ==> replaceable(
        node_at(tree, plan.entries[k].place),
    )
}

/// Whether the run can start from a tree.
pub open spec fn fit(plan: Plan, tree: Tree) -> bool {
    &&& regular(plan, tree)
    &&& forall|k: int| 0 <= k < plan.entries.len() ==> #[trigger] yields(plan, tree, k)
}

/// Whether the tree is a replica of the source: nothing stands where the
/// source has nothing; what the source has stands there in its kind, with the
/// path that it holds if it is a symlink; and names of one file are names of
/// one file. Where different files have different files, what stands there
/// mirrors the source in full, and its contents agree where they are to be
/// compared. Where special files are copied, something stands in the place of
/// each, of its kind if nothing stood there in `start`.
pub open spec fn replica(plan: Plan, start: Tree, tree: Tree) -> bool {
    let n = plan.entries.len();
    &&& forall|q: Seq<Seq<u8>>| #[trigger]
        tree.contains_key(q) ==> exists|k: int|
            0 <= k < n && (#[trigger] plan.entries[k]).place == q
    &&& forall|k: int|
        0 <= k < n && mirrorable((#[trigger] plan.entries[k]).node.meta.kind) ==> {
            let node = plan.entries[k].node;
            let slot = node_at(tree, plan.entries[k].place);
            &&& alike(node, slot)
            &&& plan.separate ==> mirrored(node, plan.config, slot)
            &&& plan.separate ==> assured(node, plan.config, slot)
        }
    &&& forall|i: int, j: int|
        0 <= i < n && 0 <= j < n && #[trigger] linked(plan, i, j) ==> same_inode(
            tree[plan.entries[i].place],
            tree[plan.entries[j].place],
        )
    &&& forall|k: int|
        0 <= k < n && copied_special(plan, k) ==> {
            let place = (#[trigger] plan.entries[k]).place;
            &&& tree.contains_key(place)
            &&& !start.contains_key(place) ==> tree[place].meta.kind
                == plan.entries[k].node.meta.kind
        }
}

/// Whether an entry is a special file that is to be copied.
pub open spec fn copied_special(plan: Plan, k: int) -> bool {
    plan.config.copy_special && !mirrorable(plan.entries[k].node.meta.kind)
}

} // verus!
