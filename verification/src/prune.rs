//! Which subtrees of the destination have no counterpart in the source.

use vstd::prelude::*;

use crate::metadata::{FileType, Metadata};
use crate::path::{
    below, components, empty_path, parent_of, root_component, stripped, texts, within, PathBuf,
};
use crate::path_set::PathSet;
use crate::protocol::{
    add_command, commands_of, no_commands, paths_of, Command,
};

verus! {

/// Whether a path of the destination lies below its top and has no
/// counterpart among the paths seen in the source.
pub open spec fn is_stale(path: Seq<u8>, dest: Seq<u8>, seen: Set<Seq<Seq<u8>>>) -> bool {
    match stripped(path, dest) {
        Some(rel) => components(rel).len() > 0 && !seen.contains(components(rel)),
        None => false,
    }
}

/// Whether a path of the destination has no counterpart in the source.
pub fn stale(path: &PathBuf, dest: &PathBuf, seen: &PathSet) -> (res: bool)
    ensures
        res == is_stale(path@, dest@, seen@),
{
    match path.strip_prefix(dest) {
        Some(rel) => {
            if empty_path(&rel) {
                false
            } else {
                let list = rel.components();
                !seen.contains(&list)
            }
        },
        None => false,
    }
}

/// The component lists of some paths.
pub open spec fn located(list: Seq<Seq<u8>>) -> Set<Seq<Seq<u8>>> {
    Set::new(
        |c: Seq<Seq<u8>>|
            exists|i: int| 0 <= i < list.len() && components(#[trigger] list[i]) == c,
    )
}

/// Whether the directory that holds the path is not itself among the paths.
pub open spec fn is_top(path: Seq<u8>, list: Seq<Seq<u8>>) -> bool {
    match parent_of(components(path)) {
        Some(holder) => !located(list).contains(holder),
        None => true,
    }
}

/// The paths of a list whose holders are not in the list, in order.
pub open spec fn tops(list: Seq<Seq<u8>>) -> Seq<Seq<u8>> {
    list.filter(|path: Seq<u8>| is_top(path, list))
}

/// The set of the component lists of some paths.
fn locate(list: &Vec<PathBuf>) -> (res: PathSet)
    ensures
        res@ == located(paths_of(list@)),
{
    let ghost all = paths_of(list@);
    let mut set = PathSet::new();
    let mut i: usize = 0;
    assert(set@ =~= located(all.take(0)));
    while i < list.len()
        invariant
            i <= list.len(),
            all == paths_of(list@),
            set@ == located(all.take(i as int)),
        decreases list.len() - i,
    {
        let found = list[i].components();
        set.insert(found);
        proof {
            let was = all.take(i as int);
            let now = all.take(i + 1);
            assert forall|c: Seq<Seq<u8>>| located(now).contains(c) <==> located(was).insert(
                components(all[i as int]),
            ).contains(c) by {
                if located(was).contains(c) {
                    let k = choose|k: int| 0 <= k < was.len() && components(#[trigger] was[k]) == c;
                    assert(now[k] == was[k]);
                }
                if c == components(all[i as int]) {
                    assert(now[i as int] == all[i as int]);
                }
                if located(now).contains(c) {
                    let k = choose|k: int| 0 <= k < now.len() && components(#[trigger] now[k]) == c;
                    if k < i {
                        assert(was[k] == now[k]);
                    }
                }
            }
            assert(set@ =~= located(now));
        }
        i = i + 1;
    }
    assert(all.take(i as int) =~= all);
    set
}

/// Whether the holder of a path is not in the set.
fn top(path: &PathBuf, set: &PathSet) -> (res: bool)
    ensures
        res == (match parent_of(components(path@)) {
            Some(holder) => !set@.contains(holder),
            None => true,
        }),
{
    let mut list = path.components();
    let ghost all = texts(list@);
    if list.len() == 0 {
        return true;
    }
    let last = list.len() - 1;
    assert(all.last() == list@[last as int]@);
    if list[last].len() == 1 && list[last][0] == crate::path::SLASH {
        assert(all.last() =~= root_component());
        return true;
    }
    proof {
        if all.last() == root_component() {
            assert(all.last()[0] == crate::path::SLASH);
        }
    }
    list.pop();
    assert(texts(list@) =~= all.drop_last());
    !set.contains(&list)
}

/// The paths of a list whose holders are not in the list, in order.
pub fn subtree_roots(list: &Vec<PathBuf>) -> (res: Vec<PathBuf>)
    ensures
        paths_of(res@) == tops(paths_of(list@)),
{
    let ghost all = paths_of(list@);
    let ghost keep = |path: Seq<u8>| is_top(path, all);
    let set = locate(list);
    let mut roots: Vec<PathBuf> = Vec::new();
    let mut i: usize = 0;
    proof {
        reveal(Seq::filter);
        assert(paths_of(roots@) =~= all.take(0).filter(keep));
    }
    while i < list.len()
        invariant
            i <= list.len(),
            all == paths_of(list@),
            keep == |path: Seq<u8>| is_top(path, all),
            set@ == located(all),
            paths_of(roots@) == all.take(i as int).filter(keep),
        decreases list.len() - i,
    {
        let ghost was = paths_of(roots@);
        assert(all.take(i + 1).drop_last() =~= all.take(i as int));
        assert(all.take(i + 1).last() == all[i as int]);
        if top(&list[i], &set) {
            roots.push(list[i].clone());
            assert(paths_of(roots@) =~= was.push(all[i as int]));
        }
        proof {
            reveal(Seq::filter);
        }
        i = i + 1;
    }
    assert(all.take(i as int) =~= all);
    roots
}

/// How an entry is removed: nothing where there is none.
pub open spec fn removal(path: Seq<u8>, found: Option<Metadata>) -> Seq<Command<Seq<u8>>> {
    match found {
        None => seq![],
        Some(meta) => if meta.kind == FileType::Dir {
            seq![Command::RemoveDirAll(path)]
        } else {
            seq![Command::RemoveFile(path)]
        },
    }
}

/// How an entry is removed, given what stands at its path.
pub fn remove_entry(path: PathBuf, found: Option<Metadata>) -> (res: Vec<Command>)
    ensures
        commands_of(res@) == removal(path@, found),
{
    let mut commands = no_commands();
    match found {
        None => {},
        Some(meta) => {
            if meta.kind == FileType::Dir {
                add_command(&mut commands, Command::RemoveDirAll(path));
            } else {
                add_command(&mut commands, Command::RemoveFile(path));
            }
        },
    }
    assert(commands_of(commands@) =~= removal(path@, found));
    commands
}

/// Whether the set holds, of each path, all the paths that lead to it.
pub open spec fn holder_closed(seen: Set<Seq<Seq<u8>>>) -> bool {
    forall|c: Seq<Seq<u8>>|
        #[trigger] seen.contains(c) && c.len() > 0 ==> seen.contains(c.drop_last())
}

/// Whether the list holds, of each path below `dest`, its holder, as a
/// listing of the whole tree at `dest` does.
pub open spec fn full_listing(list: Seq<Seq<u8>>, dest: Seq<u8>) -> bool {
    forall|i: int|
        0 <= i < list.len() && within(components(#[trigger] list[i]), components(dest))
            && components(list[i]).len() > components(dest).len() ==> located(list).contains(
            components(list[i]).drop_last(),
        )
}

/// The paths of a listing that have no counterpart, in order.
pub open spec fn stale_of(
    list: Seq<Seq<u8>>,
    dest: Seq<u8>,
    seen: Set<Seq<Seq<u8>>>,
) -> Seq<Seq<u8>> {
    list.filter(|path: Seq<u8>| is_stale(path, dest, seen))
}

/// Whether a path lies in one of the subtrees.
pub open spec fn covered(p: Seq<Seq<u8>>, roots: Seq<Seq<u8>>) -> bool {
    exists|i: int| 0 <= i < roots.len() && within(p, components(#[trigger] roots[i]))
}

/// All that leads to a path of a closed set is in the set.
proof fn lemma_closed_prefix(seen: Set<Seq<Seq<u8>>>, c: Seq<Seq<u8>>, n: int)
    requires
        holder_closed(seen),
        seen.contains(c),
        0 <= n <= c.len(),
    ensures
        seen.contains(c.take(n)),
    decreases c.len() - n,
{
    if n == c.len() {
        assert(c.take(n) =~= c);
    } else {
        lemma_closed_prefix(seen, c, n + 1);
        assert(c.take(n + 1).drop_last() =~= c.take(n));
    }
}

/// A path is stale exactly when it lies strictly below the destination at a
/// place that was not seen.
pub proof fn lemma_stale_place(path: Seq<u8>, dest: Seq<u8>, seen: Set<Seq<Seq<u8>>>)
    ensures
        is_stale(path, dest, seen) <==> {
            &&& within(components(path), components(dest))
            &&& components(path).len() > components(dest).len()
            &&& !seen.contains(below(components(path), components(dest)))
        },
{
    if stripped(path, dest) is Some {
        crate::path::law_join_undoes_strip(path, dest);
    }
}

/// A path of the filtered list is one of the list that satisfies the filter,
/// and the other way round.
pub proof fn lemma_filter_holds(list: Seq<Seq<u8>>, keep: spec_fn(Seq<u8>) -> bool, path: Seq<u8>)
    ensures
        list.filter(keep).contains(path) <==> list.contains(path) && keep(path),
    decreases list.len(),
{
    reveal(Seq::filter);
    if list.len() > 0 {
        let front = list.drop_last();
        lemma_filter_holds(front, keep, path);
        let kept = front.filter(keep);
        if list.contains(path) {
            let i = list.index_of(path);
            if i < front.len() {
                assert(front[i] == path);
            }
        }
        if front.contains(path) {
            let i = front.index_of(path);
            assert(list[i] == path);
        }
        assert(list[list.len() - 1] == list.last());
        if keep(list.last()) {
            assert(list.filter(keep) =~= kept.push(list.last()));
            if kept.contains(path) {
                let i = kept.index_of(path);
                assert(kept.push(list.last())[i] == path);
            }
            assert(kept.push(list.last())[kept.len() as int] == list.last());
            if kept.push(list.last()).contains(path) {
                let i = kept.push(list.last()).index_of(path);
                if i < kept.len() {
                    assert(kept[i] == path);
                }
            }
        }
    }
}

/// Every path of a list lies in one of the subtrees at the list's tops, so
/// removing those subtrees removes the whole list.
pub proof fn law_tops_cover_the_list(list: Seq<Seq<u8>>, i: int)
    requires
        0 <= i < list.len(),
    ensures
        covered(components(list[i]), tops(list)),
    decreases components(list[i]).len(),
{
    let p = components(list[i]);
    let keep = |path: Seq<u8>| is_top(path, list);
    if is_top(list[i], list) {
        lemma_filter_holds(list, keep, list[i]);
        let k = tops(list).index_of(list[i]);
        assert(p.take(p.len() as int) =~= p);
        assert(within(p, components(tops(list)[k])));
    } else {
        let holder = p.drop_last();
        let j = choose|j: int| 0 <= j < list.len() && components(#[trigger] list[j]) == holder;
        law_tops_cover_the_list(list, j);
        let k = choose|k: int|
            0 <= k < tops(list).len() && within(holder, components(#[trigger] tops(list)[k]));
        let r = components(tops(list)[k]);
        assert(p.take(r.len() as int) =~= holder.take(r.len() as int));
        assert(within(p, r));
    }
}

/// No subtree that is removed holds a path that has a counterpart: what was
/// seen in the source stays.
pub proof fn law_counterparts_stay(
    list: Seq<Seq<u8>>,
    dest: Seq<u8>,
    seen: Set<Seq<Seq<u8>>>,
    kept: Seq<Seq<u8>>,
)
    requires
        holder_closed(seen),
        within(kept, components(dest)),
        seen.contains(below(kept, components(dest))),
    ensures
        !covered(kept, tops(stale_of(list, dest, seen))),
{
    let stale = stale_of(list, dest, seen);
    if covered(kept, tops(stale)) {
        let i = choose|i: int|
            0 <= i < tops(stale).len() && within(kept, components(#[trigger] tops(stale)[i]));
        let root = tops(stale)[i];
        assert(tops(stale).contains(root));
        lemma_filter_holds(stale, |path: Seq<u8>| is_top(path, stale), root);
        lemma_filter_holds(list, |path: Seq<u8>| is_stale(path, dest, seen), root);
        lemma_stale_place(root, dest, seen);
        let d = components(dest);
        let r = components(root);
        let n = r.len() - d.len();
        lemma_closed_prefix(seen, below(kept, d), n);
        assert(below(kept, d).take(n) =~= below(r, d)) by {
            assert forall|j: int| 0 <= j < n implies below(kept, d)[j] == below(r, d)[j] by {
                assert(kept.take(r.len() as int)[d.len() + j] == r[d.len() + j]);
            }
        }
    }
}

/// The subtrees that are removed are independent: of a full listing, none of
/// them lies inside another.
pub proof fn law_removed_subtrees_are_independent(
    list: Seq<Seq<u8>>,
    dest: Seq<u8>,
    seen: Set<Seq<Seq<u8>>>,
    i: int,
    j: int,
)
    requires
        holder_closed(seen),
        full_listing(list, dest),
        0 <= i < tops(stale_of(list, dest, seen)).len(),
        0 <= j < tops(stale_of(list, dest, seen)).len(),
        within(
            components(tops(stale_of(list, dest, seen))[i]),
            components(tops(stale_of(list, dest, seen))[j]),
        ),
    ensures
        components(tops(stale_of(list, dest, seen))[i]) == components(
            tops(stale_of(list, dest, seen))[j],
        ),
{
    let stale = stale_of(list, dest, seen);
    let inner = tops(stale)[i];
    let outer = tops(stale)[j];
    assert(tops(stale).contains(inner));
    assert(tops(stale).contains(outer));
    lemma_filter_holds(stale, |path: Seq<u8>| is_top(path, stale), inner);
    lemma_filter_holds(stale, |path: Seq<u8>| is_top(path, stale), outer);
    lemma_filter_holds(list, |path: Seq<u8>| is_stale(path, dest, seen), inner);
    lemma_filter_holds(list, |path: Seq<u8>| is_stale(path, dest, seen), outer);
    lemma_stale_place(inner, dest, seen);
    lemma_stale_place(outer, dest, seen);
    let d = components(dest);
    let p = components(inner);
    let r = components(outer);
    if p.len() == r.len() {
        assert(p.take(r.len() as int) =~= p);
    } else {
        let holder = p.drop_last();
        let a = list.index_of(inner);
        assert(list[a] == inner);
        assert(located(list).contains(holder));
        let b = choose|b: int| 0 <= b < list.len() && components(#[trigger] list[b]) == holder;
        assert(holder.take(d.len() as int) =~= p.take(d.len() as int));
        let n = r.len() - d.len();
        if seen.contains(below(holder, d)) {
            lemma_closed_prefix(seen, below(holder, d), n);
            assert(below(holder, d).take(n) =~= below(r, d)) by {
                assert forall|k: int| 0 <= k < n implies below(holder, d)[k] == below(r, d)[k] by {
                    assert(p.take(r.len() as int)[d.len() + k] == r[d.len() + k]);
                }
            }
        }
        lemma_stale_place(list[b], dest, seen);
        lemma_filter_holds(list, |path: Seq<u8>| is_stale(path, dest, seen), list[b]);
        assert(list.contains(list[b]));
        let c = stale.index_of(list[b]);
        assert(components(stale[c]) == holder);
        assert(located(stale).contains(holder));
        if p.last() == root_component() {
            crate::path::lemma_components_well_formed(inner);
            assert(p[p.len() - 1] == p.last());
            assert(root_component().contains(root_component()[0]));
        }
        assert(parent_of(p) == Some(holder));
    }
}

/// What is removed lies strictly below the destination and has no
/// counterpart.
pub proof fn law_only_stale_paths_are_removed(
    list: Seq<Seq<u8>>,
    dest: Seq<u8>,
    seen: Set<Seq<Seq<u8>>>,
    i: int,
)
    requires
        0 <= i < tops(stale_of(list, dest, seen)).len(),
    ensures
        ({
            let root = tops(stale_of(list, dest, seen))[i];
            &&& list.contains(root)
            &&& is_stale(root, dest, seen)
            &&& within(components(root), components(dest))
            &&& components(root).len() > components(dest).len()
        }),
{
    let stale = stale_of(list, dest, seen);
    let root = tops(stale)[i];
    assert(tops(stale).contains(root));
    lemma_filter_holds(stale, |path: Seq<u8>| is_top(path, stale), root);
    lemma_filter_holds(list, |path: Seq<u8>| is_stale(path, dest, seen), root);
    lemma_stale_place(root, dest, seen);
}

/// What stands at a path is removed as what it is: a directory with all below
/// it, anything else alone; where nothing stands there is nothing to do.
pub proof fn law_removal_fits_the_kind(path: Seq<u8>, found: Option<Metadata>)
    ensures
        found is None ==> removal(path, found).len() == 0,
        found is Some ==> removal(path, found).len() == 1,
        found is Some && found->0.kind == FileType::Dir ==> removal(path, found)[0]
            == Command::RemoveDirAll(path),
        found is Some && found->0.kind != FileType::Dir ==> removal(path, found)[0]
            == Command::RemoveFile(path),
{
}

} // verus!
