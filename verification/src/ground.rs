//! What commands for one place of a tree do to the tree.

use vstd::prelude::*;

use crate::config::Config;
use crate::metadata::{FileType, Metadata};
use crate::mirror::{copy_of, effect, effects, Node, Site};
use crate::path::{components, plain, text_of, within};
use crate::protocol::{Command, Operation};
use crate::world::{
    apart, can_hold, changed, created, cut, lemma_place_of_target, new_dir, new_file, node_at,
    one_each, place_of, read_at, regular, same_inode, sends, sound, sound_entry, target_for,
    tree_effect, tree_effects, Plan, Tree,
};

verus! {

/// The entry at an index, as a site: where it is read, where its mirror
/// belongs, and what new entries are like.
pub open spec fn site_of(
    plan: Plan,
    k: int,
    first: Seq<u8>,
    peer: Option<Node>,
    made: Node,
) -> Site {
    Site {
        source: plan.entries[k].node,
        from: plan.entries[k].from,
        target: target_for(plan, plan.entries[k].place),
        first,
        peer,
        new_dir: new_dir(made),
        new_file: new_file(made),
        exact: plan.separate,
    }
}

/// The mirror of a place lies at that place.
pub(crate) proof fn lemma_target_place(plan: Plan, place: Seq<Seq<u8>>)
    requires
        plain(place),
    ensures
        place_of(plan.dest, target_for(plan, place)) == Some(place),
        components(text_of(place)) == place,
{
    lemma_place_of_target(plan.dest, place);
}

/// The entry's path is one of the source, and what is read there is the
/// entry.
pub(crate) proof fn lemma_reads(plan: Plan, k: int)
    requires
        sound(plan),
        0 <= k < plan.entries.len(),
    ensures
        read_at(plan.entries, plan.entries[k].from) == Some(plan.entries[k].node),
        read_at(plan.entries, target_for(plan, plan.entries[k].place)) is None,
{
    let from = plan.entries[k].from;
    let i = choose|i: int|
        0 <= i < plan.entries.len() && (#[trigger] plan.entries[i]).from == from;
    assert(plan.entries[i].from == from);
    assert(plan.entries[i].node == plan.entries[k].node);
}

/// How a tree may change while one place of it is worked on: what is not
/// below that place stays, and nothing changes but what shares its inode.
pub open spec fn steady(before: Tree, after: Tree, r: Seq<Seq<u8>>) -> bool {
    &&& forall|q: Seq<Seq<u8>>| #[trigger]
        after.contains_key(q) && q != r ==> {
            &&& before.contains_key(q)
            &&& same_inode(before[q], after[q])
            &&& before[q].meta.kind == after[q].meta.kind
            &&& after[q] == before[q] || (before.contains_key(r) && same_inode(
                before[q],
                before[r],
            ))
            &&& after.contains_key(r) && same_inode(after[q], after[r]) ==> before.contains_key(r)
                && same_inode(before[q], before[r])
        }
    &&& forall|q: Seq<Seq<u8>>| #[trigger]
        before.contains_key(q) && !within(q, r) ==> after.contains_key(q)
}

/// Whether the inode of a new entry is that of no place but `r`.
pub open spec fn spare(tree: Tree, made: Node, r: Seq<Seq<u8>>) -> bool {
    forall|q: Seq<Seq<u8>>| #[trigger]
        tree.contains_key(q) && q != r ==> !same_inode(tree[q], made)
}

/// A place is not within another that is longer, nor within a different one
/// of its length.
pub(crate) proof fn lemma_not_within(p: Seq<Seq<u8>>, r: Seq<Seq<u8>>)
    ensures
        p.len() < r.len() ==> !within(p, r),
        p.len() == r.len() ==> (within(p, r) <==> p == r),
        within(r, r),
        p.len() > 0 && within(p.drop_last(), r) ==> within(p, r),
        p.len() > 0 && within(p, r) && p != r ==> within(p.drop_last(), r),
{
    assert(r.take(r.len() as int) =~= r);
    if p.len() == r.len() {
        assert(p.take(r.len() as int) =~= p);
    }
    if p.len() > r.len() {
        assert(p.drop_last().take(r.len() as int) =~= p.take(r.len() as int));
    }
}

/// Changing what stands at a place, under all its names, keeps the tree
/// regular.
pub(crate) proof fn lemma_changed_is_regular(
    plan: Plan,
    tree: Tree,
    r: Seq<Seq<u8>>,
    node: Node,
)
    requires
        regular(plan, tree),
        tree.contains_key(r),
        same_inode(node, tree[r]),
        node.meta.kind == tree[r].meta.kind,
    ensures
        regular(plan, changed(tree, r, node)),
{
    let t = changed(tree, r, node);
    assert forall|q: Seq<Seq<u8>>| #[trigger] t.contains_key(q) implies tree.contains_key(q)
        && same_inode(t[q], tree[q]) && t[q].meta.kind == tree[q].meta.kind by {
        if same_inode(tree[q], tree[r]) && q != r {
            assert(tree[q] == tree[r]);
        }
    }
    assert forall|q: Seq<Seq<u8>>| #[trigger] t.contains_key(q) implies can_hold(t, q) by {
        assert(can_hold(tree, q));
        if q.len() > 0 {
            assert(t.contains_key(q.drop_last()));
        }
    }
    assert forall|p: Seq<Seq<u8>>, q: Seq<Seq<u8>>|
        #![trigger t.contains_key(p), t.contains_key(q)]
        t.contains_key(p) && t.contains_key(q) && p != q && same_inode(t[p], t[q]) implies t[p]
        == t[q] && t[p].meta.kind != FileType::Dir by {
        assert(tree.contains_key(p) && tree.contains_key(q));
        assert(same_inode(tree[p], tree[q]));
    }
    if plan.separate {
        assert forall|i: int, j: int|
            #![trigger plan.entries[i], plan.entries[j]]
            {
                let a = plan.entries[i];
                let b = plan.entries[j];
                &&& 0 <= i < plan.entries.len() && 0 <= j < plan.entries.len() && i != j
                &&& t.contains_key(a.place) && t.contains_key(b.place)
                &&& same_inode(t[a.place], t[b.place])
                &&& t[a.place].meta.kind == FileType::File
                &&& a.node.meta.kind == FileType::File && b.node.meta.kind == FileType::File
            } implies plan.entries[i].node == plan.entries[j].node by {
            let a = plan.entries[i];
            let b = plan.entries[j];
            assert(tree.contains_key(a.place) && tree.contains_key(b.place));
            assert(same_inode(tree[a.place], tree[b.place]));
        }
    }
}

proof fn lemma_changed(plan: Plan, made: Node, tree: Tree, r: Seq<Seq<u8>>, node: Node)
    requires
        regular(plan, tree),
        can_hold(tree, r),
        spare(tree, made, r),
        tree.contains_key(r),
        same_inode(node, tree[r]),
        node.meta.kind == tree[r].meta.kind,
    ensures
        regular(plan, changed(tree, r, node)),
        can_hold(changed(tree, r, node), r),
        spare(changed(tree, r, node), made, r),
        node_at(changed(tree, r, node), r) == Some(node),
        steady(tree, changed(tree, r, node), r),
{
    let t = changed(tree, r, node);
    assert forall|q: Seq<Seq<u8>>| #[trigger] t.contains_key(q) implies tree.contains_key(q)
        && same_inode(t[q], tree[q]) && t[q].meta.kind == tree[q].meta.kind by {
        if same_inode(tree[q], tree[r]) && q != r {
            assert(tree[q] == tree[r]);
        }
    }
    if r.len() > 0 {
        assert(t.contains_key(r.drop_last()));
    }
    lemma_changed_is_regular(plan, tree, r, node);
}

pub(crate) proof fn lemma_created(plan: Plan, made: Node, tree: Tree, r: Seq<Seq<u8>>, node: Node)
    requires
        sound(plan),
        regular(plan, tree),
        can_hold(tree, r),
        spare(tree, made, r),
        !tree.contains_key(r),
        same_inode(node, made),
    ensures
        regular(plan, created(tree, r, node)),
        can_hold(created(tree, r, node), r),
        spare(created(tree, r, node), made, r),
        node_at(created(tree, r, node), r) == Some(node),
        steady(tree, created(tree, r, node), r),
{
    let t = created(tree, r, node);
    assert(t == tree.insert(r, node));
    assert forall|q: Seq<Seq<u8>>| #[trigger] t.contains_key(q) implies can_hold(t, q) by {
        if q != r {
            assert(tree.contains_key(q));
            assert(can_hold(tree, q));
        }
        if q.len() > 0 {
            assert(q.drop_last() != r);
        }
    }
    assert forall|p: Seq<Seq<u8>>, q: Seq<Seq<u8>>|
        #![trigger t.contains_key(p), t.contains_key(q)]
        t.contains_key(p) && t.contains_key(q) && p != q && same_inode(t[p], t[q]) implies t[p]
        == t[q] && t[p].meta.kind != FileType::Dir by {
        if p != r {
            assert(tree.contains_key(p));
        }
        if q != r {
            assert(tree.contains_key(q));
        }
    }
    if plan.separate {
        assert forall|i: int, j: int|
            #![trigger plan.entries[i], plan.entries[j]]
            {
                let a = plan.entries[i];
                let b = plan.entries[j];
                &&& 0 <= i < plan.entries.len() && 0 <= j < plan.entries.len() && i != j
                &&& t.contains_key(a.place) && t.contains_key(b.place)
                &&& same_inode(t[a.place], t[b.place])
                &&& t[a.place].meta.kind == FileType::File
                &&& a.node.meta.kind == FileType::File && b.node.meta.kind == FileType::File
            } implies plan.entries[i].node == plan.entries[j].node by {
            let a = plan.entries[i];
            let b = plan.entries[j];
            if a.place != r {
                assert(tree.contains_key(a.place));
            }
            if b.place != r {
                assert(tree.contains_key(b.place));
            }
        }
    }
}

pub(crate) proof fn lemma_removed(plan: Plan, made: Node, tree: Tree, r: Seq<Seq<u8>>)
    requires
        regular(plan, tree),
        can_hold(tree, r),
        spare(tree, made, r),
        tree.contains_key(r),
        tree[r].meta.kind != FileType::Dir,
    ensures
        regular(plan, tree.remove(r)),
        can_hold(tree.remove(r), r),
        spare(tree.remove(r), made, r),
        node_at(tree.remove(r), r) is None,
        steady(tree, tree.remove(r), r),
{
    let t = tree.remove(r);
    lemma_not_within(r, r);
    assert forall|q: Seq<Seq<u8>>| #[trigger] t.contains_key(q) implies can_hold(t, q) by {
        assert(tree.contains_key(q));
        assert(can_hold(tree, q));
    }
    assert forall|p: Seq<Seq<u8>>, q: Seq<Seq<u8>>|
        #![trigger t.contains_key(p), t.contains_key(q)]
        t.contains_key(p) && t.contains_key(q) && p != q && same_inode(t[p], t[q]) implies t[p]
        == t[q] && t[p].meta.kind != FileType::Dir by {
        assert(tree.contains_key(p) && tree.contains_key(q));
    }
    assert(plan.separate ==> apart(plan, t));
}

pub(crate) proof fn lemma_cut(plan: Plan, made: Node, tree: Tree, r: Seq<Seq<u8>>)
    requires
        regular(plan, tree),
        can_hold(tree, r),
        spare(tree, made, r),
    ensures
        regular(plan, cut(tree, r)),
        can_hold(cut(tree, r), r),
        spare(cut(tree, r), made, r),
        node_at(cut(tree, r), r) is None,
        steady(tree, cut(tree, r), r),
{
    let t = cut(tree, r);
    lemma_not_within(r, r);
    assert forall|q: Seq<Seq<u8>>| #[trigger] t.contains_key(q) implies can_hold(t, q) by {
        assert(tree.contains_key(q));
        assert(can_hold(tree, q));
        lemma_not_within(q, r);
    }
    if r.len() > 0 {
        lemma_not_within(r.drop_last(), r);
    }
    assert forall|p: Seq<Seq<u8>>, q: Seq<Seq<u8>>|
        #![trigger t.contains_key(p), t.contains_key(q)]
        t.contains_key(p) && t.contains_key(q) && p != q && same_inode(t[p], t[q]) implies t[p]
        == t[q] && t[p].meta.kind != FileType::Dir by {
        assert(tree.contains_key(p) && tree.contains_key(q));
    }
    assert(plan.separate ==> apart(plan, t));
}

/// Whether a command concerns the target of the site and nothing else.
pub open spec fn local(c: Command<Seq<u8>>, site: Site) -> bool {
    match c {
        Command::RemoveFile(p) => p == site.target,
        Command::RemoveDirAll(p) => p == site.target,
        Command::CreateDirAll(p) => p == site.target,
        Command::CreateTargetDir(p) => p == site.target,
        Command::SetMode(p, _) => p == site.target,
        Command::Chown(p, _, _) => p == site.target,
        Command::CopyNow(p, q) => p == site.from && q == site.target,
        Command::Send(_) => true,
        Command::Size(_) => true,
        Command::SyncXattrs(_, _) => true,
        _ => false,
    }
}

/// What a command leaves at the target before anything that it queues is
/// carried out.
pub open spec fn prompt_effect(
    c: Command<Seq<u8>>,
    site: Site,
    config: Config,
    slot: Option<Node>,
) -> Option<Node> {
    if c is Send {
        slot
    } else {
        effect(c, site, config, slot)
    }
}

/// What a list of commands leaves there.
pub open spec fn prompt_effects(
    commands: Seq<Command<Seq<u8>>>,
    site: Site,
    config: Config,
    slot: Option<Node>,
) -> Option<Node>
    decreases commands.len(),
{
    if commands.len() == 0 {
        slot
    } else {
        prompt_effect(
            commands.last(),
            site,
            config,
            prompt_effects(commands.drop_last(), site, config, slot),
        )
    }
}

/// What one command queues.
pub(crate) proof fn lemma_sends_of_one(c: Command<Seq<u8>>)
    ensures
        sends(seq![c]) == match c {
            Command::Send(op) => seq![op],
            _ => seq![],
        },
        sends(Seq::<Command<Seq<u8>>>::empty()) == Seq::<Operation<Seq<u8>>>::empty(),
{
    assert(seq![c].drop_last() =~= Seq::<Command<Seq<u8>>>::empty());
    assert(sends(Seq::<Command<Seq<u8>>>::empty()) =~= seq![]);
}

pub(crate) proof fn lemma_sends_append(a: Seq<Command<Seq<u8>>>, b: Seq<Command<Seq<u8>>>)
    ensures
        sends(a + b) == sends(a) + sends(b),
    decreases b.len(),
{
    if b.len() == 0 {
        assert(a + b =~= a);
        assert(sends(a) + sends(b) =~= sends(a));
    } else {
        assert((a + b).drop_last() =~= a + b.drop_last());
        lemma_sends_append(a, b.drop_last());
        assert(sends(a + b) =~= sends(a) + sends(b));
    }
}

/// Where nothing is queued, nothing is left to be carried out.
pub(crate) proof fn lemma_all_prompt(
    commands: Seq<Command<Seq<u8>>>,
    site: Site,
    config: Config,
    slot: Option<Node>,
)
    requires
        forall|i: int| 0 <= i < commands.len() ==> !(#[trigger] commands[i] is Send),
    ensures
        prompt_effects(commands, site, config, slot) == effects(commands, site, config, slot),
        sends(commands).len() == 0,
    decreases commands.len(),
{
    if commands.len() > 0 {
        let front = commands.drop_last();
        assert forall|i: int| 0 <= i < front.len() implies !(#[trigger] front[i] is Send) by {
            assert(front[i] == commands[i]);
        }
        lemma_all_prompt(front, site, config, slot);
        assert(!(commands[commands.len() - 1] is Send));
    }
}

/// On the tree, a command for the target of an entry does there what it does
/// to the target alone, and keeps the tree regular.
proof fn lemma_local_command(
    c: Command<Seq<u8>>,
    plan: Plan,
    k: int,
    site: Site,
    made: Node,
    tree: Tree,
)
    requires
        sound(plan),
        0 <= k < plan.entries.len(),
        site == site_of(plan, k, site.first, site.peer, made),
        regular(plan, tree),
        can_hold(tree, plan.entries[k].place),
        spare(tree, made, plan.entries[k].place),
        local(c, site),
    ensures
        ({
            let r = plan.entries[k].place;
            let t = tree_effect(c, plan, made, tree);
            &&& regular(plan, t)
            &&& can_hold(t, r)
            &&& spare(t, made, r)
            &&& node_at(t, r) == prompt_effect(c, site, plan.config, node_at(tree, r))
            &&& steady(tree, t, r)
        }),
{
    let r = plan.entries[k].place;
    assert(sound_entry(plan, k));
    lemma_target_place(plan, r);
    lemma_reads(plan, k);
    let slot = node_at(tree, r);
    if slot is None {
        lemma_created(plan, made, tree, r, new_dir(made));
        lemma_created(plan, made, tree, r, copy_of(site.source, plan.config, new_file(made)));
    } else {
        let node = slot->0;
        match c {
            Command::RemoveFile(_) => {
                if node.meta.kind != FileType::Dir {
                    lemma_removed(plan, made, tree, r);
                }
            },
            Command::RemoveDirAll(_) => lemma_cut(plan, made, tree, r),
            Command::SetMode(_, mode) => lemma_changed(
                plan,
                made,
                tree,
                r,
                Node { meta: Metadata { mode, ..node.meta }, ..node },
            ),
            Command::Chown(_, uid, gid) => lemma_changed(
                plan,
                made,
                tree,
                r,
                Node { meta: Metadata { uid, gid, ..node.meta }, ..node },
            ),
            _ => {
                if node.meta.kind == FileType::File {
                    lemma_changed(
                        plan,
                        made,
                        tree,
                        r,
                        copy_of(site.source, plan.config, node),
                    );
                }
            },
        }
    }
}

/// The same of a list of commands.
pub(crate) proof fn lemma_local_commands(
    commands: Seq<Command<Seq<u8>>>,
    plan: Plan,
    k: int,
    site: Site,
    made: Node,
    tree: Tree,
)
    requires
        sound(plan),
        0 <= k < plan.entries.len(),
        site == site_of(plan, k, site.first, site.peer, made),
        regular(plan, tree),
        can_hold(tree, plan.entries[k].place),
        spare(tree, made, plan.entries[k].place),
        forall|i: int| 0 <= i < commands.len() ==> local(#[trigger] commands[i], site),
    ensures
        ({
            let r = plan.entries[k].place;
            let t = tree_effects(commands, plan, made, tree);
            &&& regular(plan, t)
            &&& can_hold(t, r)
            &&& spare(t, made, r)
            &&& node_at(t, r) == prompt_effects(commands, site, plan.config, node_at(tree, r))
            &&& steady(tree, t, r)
        }),
    decreases commands.len(),
{
    if commands.len() > 0 {
        let front = commands.drop_last();
        assert forall|i: int| 0 <= i < front.len() implies local(#[trigger] front[i], site) by {
            assert(front[i] == commands[i]);
        }
        lemma_local_commands(front, plan, k, site, made, tree);
        assert(local(commands[commands.len() - 1], site));
        lemma_local_command(
            commands.last(),
            plan,
            k,
            site,
            made,
            tree_effects(front, plan, made, tree),
        );
    }
}

pub(crate) proof fn lemma_tree_effects_append(
    a: Seq<Command<Seq<u8>>>,
    b: Seq<Command<Seq<u8>>>,
    plan: Plan,
    made: Node,
    tree: Tree,
)
    ensures
        tree_effects(a + b, plan, made, tree) == tree_effects(
            b,
            plan,
            made,
            tree_effects(a, plan, made, tree),
        ),
    decreases b.len(),
{
    if b.len() == 0 {
        assert(a + b =~= a);
    } else {
        assert((a + b).drop_last() =~= a + b.drop_last());
        lemma_tree_effects_append(a, b.drop_last(), plan, made, tree);
    }
}

pub(crate) proof fn lemma_tree_effects_of_one(
    c: Command<Seq<u8>>,
    plan: Plan,
    made: Node,
    tree: Tree,
)
    ensures
        tree_effects(seq![c], plan, made, tree) == tree_effect(c, plan, made, tree),
{
    assert(seq![c].drop_last() =~= seq![]);
    assert(tree_effects(seq![], plan, made, tree) == tree);
}

/// Whether a command writes a file in place, or does nothing.
pub open spec fn writing(c: Command<Seq<u8>>) -> bool {
    match c {
        Command::SetMode(_, _) => true,
        Command::Size(_) => true,
        Command::CopyNow(_, _) => true,
        Command::Send(_) => true,
        _ => false,
    }
}

/// Whether a tree is another one in which the file at `r` has changed, under
/// all its names.
pub open spec fn rewritten(tree: Tree, t: Tree, r: Seq<Seq<u8>>) -> bool {
    &&& t.contains_key(r) && same_inode(t[r], tree[r]) && t[r].meta.kind == FileType::File
    &&& forall|q: Seq<Seq<u8>>| #[trigger]
        tree.contains_key(q) ==> t.contains_key(q) && t[q] == if same_inode(tree[q], tree[r]) {
            t[r]
        } else {
            tree[q]
        }
}

/// Writing a file changes it under all its names and nothing else.
pub(crate) proof fn lemma_writing(
    commands: Seq<Command<Seq<u8>>>,
    plan: Plan,
    k: int,
    site: Site,
    made: Node,
    tree: Tree,
)
    requires
        sound(plan),
        0 <= k < plan.entries.len(),
        site == site_of(plan, k, site.first, site.peer, made),
        one_each(tree),
        tree.contains_key(plan.entries[k].place),
        tree[plan.entries[k].place].meta.kind == FileType::File,
        forall|i: int| 0 <= i < commands.len() ==> local(#[trigger] commands[i], site),
        forall|i: int| 0 <= i < commands.len() ==> writing(#[trigger] commands[i]),
    ensures
        rewritten(
            tree,
            tree_effects(commands, plan, made, tree),
            plan.entries[k].place,
        ),
    decreases commands.len(),
{
    let r = plan.entries[k].place;
    if commands.len() > 0 {
        let front = commands.drop_last();
        assert forall|i: int| 0 <= i < front.len() implies local(#[trigger] front[i], site)
            && writing(front[i]) by {
            assert(front[i] == commands[i]);
        }
        lemma_writing(front, plan, k, site, made, tree);
        let c = commands.last();
        assert(c == commands[commands.len() - 1]);
        assert(local(c, site) && writing(c));
        assert(sound_entry(plan, k));
        lemma_target_place(plan, r);
        lemma_reads(plan, k);
    } else {
        assert forall|q: Seq<Seq<u8>>| #[trigger] tree.contains_key(q) implies tree[q]
            == if same_inode(tree[q], tree[r]) {
            tree[r]
        } else {
            tree[q]
        } by {
            assert(tree.contains_key(r));
        }
    }
}

pub(crate) proof fn lemma_idle_commands(
    commands: Seq<Command<Seq<u8>>>,
    plan: Plan,
    made: Node,
    tree: Tree,
)
    requires
        forall|i: int| 0 <= i < commands.len() ==> #[trigger] commands[i] is SyncXattrs,
    ensures
        tree_effects(commands, plan, made, tree) == tree,
    decreases commands.len(),
{
    if commands.len() > 0 {
        let front = commands.drop_last();
        assert forall|i: int| 0 <= i < front.len() implies #[trigger] front[i] is SyncXattrs by {
            assert(front[i] == commands[i]);
        }
        lemma_idle_commands(front, plan, made, tree);
        assert(commands[commands.len() - 1] is SyncXattrs);
    }
}

} // verus!
