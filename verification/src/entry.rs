//! Entries of a walk and where they belong in the tree that is written.

use vstd::prelude::*;

use crate::metadata::Metadata;
use crate::path::{
    below, components, empty_path, joined, law_join_undoes_strip, law_strip_undoes_join,
    lemma_components_well_formed, plain, plain_name, stripped, within, PathBuf,
};

verus! {

/// An entry of a walk: what to read, what to write and what is known of it.
pub struct Entry<P = PathBuf> {
    /// The path to read: that of the walk, or where it leads.
    pub from: P,
    /// The path to write.
    pub target: P,
    /// The metadata of what is read.
    pub meta: Metadata,
}

impl View for Entry<PathBuf> {
    type V = Entry<Seq<u8>>;

    open spec fn view(&self) -> Entry<Seq<u8>> {
        Entry { from: self.from@, target: self.target@, meta: self.meta }
    }
}

/// The target below `base` of the entry that lies at `rel` in the source:
/// `base` itself for the top of the tree.
pub open spec fn target_of(base: Seq<u8>, rel: Seq<u8>) -> Seq<u8> {
    if components(rel).len() == 0 {
        base
    } else {
        joined(base, rel)
    }
}

/// The target of the entry that lies at `rel` in the source.
pub fn target_path(base: &PathBuf, rel: &PathBuf) -> (res: PathBuf)
    ensures
        res@ == target_of(base@, rel@),
{
    if !empty_path(rel) {
        base.join(rel)
    } else {
        base.clone()
    }
}

/// Where a walked path lies in the source, and its target below `base`;
/// nothing where the path does not lie within the source.
pub open spec fn placed(
    source: Seq<u8>,
    base: Seq<u8>,
    path: Seq<u8>,
) -> Option<(Seq<u8>, Seq<u8>)> {
    match stripped(path, source) {
        Some(rel) => Some((rel, target_of(base, rel))),
        None => None,
    }
}

/// The target below `base` of a walked path that lies within the source.
pub open spec fn target_at(source: Seq<u8>, base: Seq<u8>, path: Seq<u8>) -> Seq<u8> {
    match placed(source, base, path) {
        Some((_, target)) => target,
        None => base,
    }
}

/// Where a walked path lies in the source, and its target below `base`.
pub fn place(source: &PathBuf, base: &PathBuf, path: &PathBuf) -> (res: Option<(PathBuf, PathBuf)>)
    ensures
        match res {
            Some(found) => placed(source@, base@, path@) == Some((found.0@, found.1@)),
            None => placed(source@, base@, path@) is None,
        },
{
    match path.strip_prefix(source) {
        Some(rel) => {
            let target = target_path(base, &rel);
            Some((rel, target))
        },
        None => None,
    }
}

/// An entry's target lies within the base, at the place at which the entry
/// lies within the source.
pub proof fn law_targets_lie_within_base(source: Seq<u8>, base: Seq<u8>, path: Seq<u8>)
    requires
        components(source).len() > 0,
        placed(source, base, path) is Some,
    ensures
        ({
            let target = target_at(source, base, path);
            &&& within(components(target), components(base))
            &&& below(components(target), components(base)) == below(
                components(path),
                components(source),
            )
        }),
{
    let p = components(path);
    let s = components(source);
    let b = components(base);
    let rel = stripped(path, source)->0;
    law_join_undoes_strip(path, source);
    lemma_components_well_formed(path);
    assert(plain(below(p, s))) by {
        assert forall|i: int| 0 <= i < below(p, s).len() implies plain_name(
            #[trigger] below(p, s)[i],
        ) by {
            assert(below(p, s)[i] == p[i + s.len()]);
        }
    }
    if components(rel).len() == 0 {
        assert(b.take(b.len() as int) =~= b);
        assert(below(b, b) =~= below(p, s));
    } else {
        law_strip_undoes_join(base, rel);
        law_join_undoes_strip(joined(base, rel), base);
    }
}

/// Targets are nested as the entries are: one lies within another exactly
/// when its entry does.
pub proof fn law_targets_nest_like_entries(
    source: Seq<u8>,
    base: Seq<u8>,
    a: Seq<u8>,
    b: Seq<u8>,
)
    requires
        components(source).len() > 0,
        placed(source, base, a) is Some,
        placed(source, base, b) is Some,
    ensures
        ({
            let ta = components(target_at(source, base, a));
            let tb = components(target_at(source, base, b));
            within(ta, tb) <==> within(components(a), components(b))
        }),
{
    law_targets_lie_within_base(source, base, a);
    law_targets_lie_within_base(source, base, b);
    let s = components(source);
    let d = components(base);
    let ca = components(a);
    let cb = components(b);
    let ta = components(target_at(source, base, a));
    let tb = components(target_at(source, base, b));
    lemma_nesting_below(ca, cb, s);
    lemma_nesting_below(ta, tb, d);
}

/// Of two paths within a base, one lies within the other exactly when what is
/// left below the base does.
proof fn lemma_nesting_below(p: Seq<Seq<u8>>, q: Seq<Seq<u8>>, base: Seq<Seq<u8>>)
    requires
        within(p, base),
        within(q, base),
    ensures
        within(p, q) <==> within(below(p, base), below(q, base)),
{
    let n = base.len() as int;
    let x = below(p, base);
    let y = below(q, base);
    assert forall|i: int| 0 <= i < n implies p[i] == base[i] && q[i] == base[i] by {
        assert(p.take(n)[i] == base[i]);
        assert(q.take(n)[i] == base[i]);
    }
    if within(p, q) {
        assert forall|i: int| 0 <= i < y.len() implies x.take(y.len() as int)[i] == y[i] by {
            assert(p.take(q.len() as int)[n + i] == q[n + i]);
        }
        assert(x.take(y.len() as int) =~= y);
    }
    if within(x, y) {
        assert forall|i: int| 0 <= i < q.len() implies p.take(q.len() as int)[i] == q[i] by {
            if i >= n {
                assert(x.take(y.len() as int)[i - n] == y[i - n]);
            }
        }
        assert(p.take(q.len() as int) =~= q);
    }
}

/// Different entries have different targets.
pub proof fn law_different_entries_have_different_targets(
    source: Seq<u8>,
    base: Seq<u8>,
    a: Seq<u8>,
    b: Seq<u8>,
)
    requires
        components(source).len() > 0,
        placed(source, base, a) is Some,
        placed(source, base, b) is Some,
        components(a) != components(b),
    ensures
        components(target_at(source, base, a)) != components(target_at(source, base, b)),
{
    let ca = components(a);
    let cb = components(b);
    let ta = components(target_at(source, base, a));
    law_targets_nest_like_entries(source, base, a, b);
    law_targets_nest_like_entries(source, base, b, a);
    assert(ta.take(ta.len() as int) =~= ta);
    if ta == components(target_at(source, base, b)) {
        assert(ca.take(ca.len() as int) =~= ca);
        assert(ca =~= cb);
    }
}

/// An entry has a place and a target exactly when it lies within the source;
/// its place is where it lies there.
pub proof fn law_entries_of_the_source_are_placed(source: Seq<u8>, base: Seq<u8>, path: Seq<u8>)
    ensures
        placed(source, base, path) is Some <==> within(components(path), components(source)),
        placed(source, base, path) matches Some((rel, target)) ==> {
            &&& components(rel) == below(components(path), components(source))
            &&& target == target_at(source, base, path)
            &&& components(path) == components(source) ==> target == base
        },
{
    if placed(source, base, path) is Some {
        law_join_undoes_strip(path, source);
        if components(path) == components(source) {
            assert(below(components(path), components(source)).len() == 0);
        }
    }
}

} // verus!
