//! Lexical Unix paths.
//!
//! A path is a byte string. What most of the engine reads of it is its list
//! of components: the names between slashes, after `/` for a rooted path,
//! with empty names dropped and `.` dropped everywhere but at the very start.
//! Two paths with the same components are the same path, whatever their text.

use vstd::prelude::*;

verus! {

/// The separator between the components of a path.
pub const SLASH: u8 = 0x2f;

/// The byte that spells the current directory.
pub const DOT: u8 = 0x2e;

/// The component that stands for the root directory.
pub open spec fn root_component() -> Seq<u8> {
    seq![SLASH]
}

/// The component that stands for the current directory.
pub open spec fn dot_component() -> Seq<u8> {
    seq![DOT]
}

/// Whether the text is that of a rooted path.
pub open spec fn rooted(text: Seq<u8>) -> bool {
    text.len() > 0 && text[0] == SLASH
}

/// The number of bytes before the first separator.
pub open spec fn piece_len(text: Seq<u8>) -> nat
    decreases text.len(),
{
    if text.len() == 0 || text[0] == SLASH {
        0
    } else {
        1 + piece_len(text.drop_first())
    }
}

/// Whether a piece between two separators counts as a component.
pub open spec fn counts(piece: Seq<u8>, leading: bool) -> bool {
    piece.len() > 0 && (leading || piece != dot_component())
}

/// The piece itself where it counts as a component, else nothing.
pub open spec fn counted(piece: Seq<u8>, leading: bool) -> Seq<Seq<u8>> {
    if counts(piece, leading) {
        seq![piece]
    } else {
        seq![]
    }
}

/// What follows the first piece and its separator.
pub open spec fn after_piece(text: Seq<u8>) -> Seq<u8> {
    if piece_len(text) < text.len() {
        text.skip(piece_len(text) as int + 1)
    } else {
        seq![]
    }
}

/// The names in a text that is split at its separators. `leading` says that
/// the text stands at the very start of a path, where `.` is kept.
pub open spec fn names(text: Seq<u8>, leading: bool) -> Seq<Seq<u8>>
    decreases text.len(),
{
    if text.len() == 0 {
        seq![]
    } else {
        counted(text.take(piece_len(text) as int), leading) + names(after_piece(text), false)
    }
}

/// The components of a path.
pub open spec fn components(text: Seq<u8>) -> Seq<Seq<u8>> {
    if rooted(text) {
        seq![root_component()] + names(text, false)
    } else {
        names(text, true)
    }
}

/// Whether a component is a name other than `.`.
pub open spec fn plain_name(name: Seq<u8>) -> bool {
    &&& name.len() > 0
    &&& !name.contains(SLASH)
    &&& name != dot_component()
}

/// Whether every component is a name other than `.`, so that the list can
/// follow any other.
pub open spec fn plain(list: Seq<Seq<u8>>) -> bool {
    forall|i: int| 0 <= i < list.len() ==> plain_name(#[trigger] list[i])
}

/// Whether the list can be that of a whole path: `/` or `.` at most in front,
/// names behind it.
pub open spec fn well_formed(list: Seq<Seq<u8>>) -> bool {
    &&& list.len() > 0 ==> (list[0] == root_component() || list[0] == dot_component()
        || plain_name(list[0]))
    &&& forall|i: int| 1 <= i < list.len() ==> plain_name(#[trigger] list[i])
}

/// The text of `rel` attached to `base`: `rel` itself where it is rooted.
pub open spec fn joined(base: Seq<u8>, rel: Seq<u8>) -> Seq<u8> {
    if rooted(rel) {
        rel
    } else if base.len() == 0 || base.last() == SLASH {
        base + rel
    } else {
        base + seq![SLASH] + rel
    }
}

/// The shortest text with the given components.
pub open spec fn text_of(list: Seq<Seq<u8>>) -> Seq<u8>
    decreases list.len(),
{
    if list.len() == 0 {
        seq![]
    } else {
        joined(text_of(list.drop_last()), list.last())
    }
}

/// Whether `p` is `base` or lies somewhere below it.
pub open spec fn within(p: Seq<Seq<u8>>, base: Seq<Seq<u8>>) -> bool {
    base.len() <= p.len() && p.take(base.len() as int) == base
}

/// Whether a path is another one or lies somewhere below it.
pub open spec fn inside(path: Seq<u8>, base: Seq<u8>) -> bool {
    within(components(path), components(base))
}

/// What is left of `p` below `base`.
pub open spec fn below(p: Seq<Seq<u8>>, base: Seq<Seq<u8>>) -> Seq<Seq<u8>> {
    p.skip(base.len() as int)
}

/// The directory that holds `p`: none for the root and for the empty path.
pub open spec fn parent_of(p: Seq<Seq<u8>>) -> Option<Seq<Seq<u8>>> {
    if p.len() == 0 || p.last() == root_component() {
        None
    } else {
        Some(p.drop_last())
    }
}

/// The text left of `path` below `base`, where `path` lies within `base`.
pub open spec fn stripped(path: Seq<u8>, base: Seq<u8>) -> Option<Seq<u8>> {
    if within(components(path), components(base)) {
        Some(text_of(below(components(path), components(base))))
    } else {
        None
    }
}

/// The views of a list of byte strings.
pub open spec fn texts(list: Seq<Vec<u8>>) -> Seq<Seq<u8>> {
    list.map_values(|t: Vec<u8>| t@)
}

proof fn lemma_piece_len(text: Seq<u8>)
    ensures
        piece_len(text) <= text.len(),
        piece_len(text) < text.len() ==> text[piece_len(text) as int] == SLASH,
        forall|i: int| 0 <= i < piece_len(text) ==> text[i] != SLASH,
        !text.take(piece_len(text) as int).contains(SLASH),
    decreases text.len(),
{
    if text.len() == 0 || text[0] == SLASH {
    } else {
        let rest = text.drop_first();
        lemma_piece_len(rest);
        assert forall|i: int| 0 <= i < piece_len(text) implies text[i] != SLASH by {
            if i > 0 {
                assert(rest[i - 1] == text[i]);
            }
        }
    }
}

/// The first separator ends the first piece.
proof fn lemma_piece_len_is(text: Seq<u8>, n: nat)
    requires
        n <= text.len(),
        n < text.len() ==> text[n as int] == SLASH,
        forall|i: int| 0 <= i < n ==> text[i] != SLASH,
    ensures
        piece_len(text) == n,
    decreases text.len(),
{
    lemma_piece_len(text);
    let m = piece_len(text);
    if m < n {
        assert(text[m as int] == SLASH);
    } else if n < m {
        assert(text[n as int] == SLASH);
    }
}

proof fn lemma_names_plain(text: Seq<u8>)
    ensures
        plain(names(text, false)),
    decreases text.len(),
{
    if text.len() > 0 {
        lemma_piece_len(text);
        lemma_names_plain(after_piece(text));
    }
}

/// The components of a path can be those of a whole path.
pub proof fn lemma_components_well_formed(text: Seq<u8>)
    ensures
        well_formed(components(text)),
{
    lemma_piece_len(text);
    lemma_names_plain(after_piece(text));
    lemma_names_plain(text);
    let list = components(text);
    let tail = if rooted(text) {
        names(text, false)
    } else {
        names(after_piece(text), false)
    };
    if text.len() > 0 {
        assert forall|i: int| 1 <= i < list.len() implies plain_name(#[trigger] list[i]) by {
            assert(list[i] == tail[i - 1]);
        }
    }
}

/// Splitting a text at one of its separators splits its names.
proof fn lemma_names_split(head: Seq<u8>, tail: Seq<u8>, leading: bool)
    ensures
        names(head + seq![SLASH] + tail, leading) == names(head, leading) + names(tail, false),
    decreases head.len(),
{
    let whole = head + seq![SLASH] + tail;
    lemma_piece_len(head);
    let n = piece_len(head);
    assert forall|i: int| 0 <= i < n implies whole[i] != SLASH by {
        assert(whole[i] == head[i]);
    }
    if n < head.len() {
        assert(whole[n as int] == head[n as int]);
    }
    lemma_piece_len_is(whole, n);
    assert(whole.take(n as int) =~= head.take(n as int));
    if n < head.len() {
        assert(whole.skip(n as int + 1) =~= head.skip(n as int + 1) + seq![SLASH] + tail);
        lemma_names_split(after_piece(head), tail, false);
        assert(names(whole, leading) =~= names(head, leading) + names(tail, false));
    } else {
        assert(after_piece(whole) =~= tail);
        assert(after_piece(head) =~= seq![]);
        assert(names(seq![], false) =~= seq![]);
        if head.len() == 0 {
            assert(head.take(0).len() == 0);
            assert(names(head, leading) =~= seq![]);
        }
        assert(names(whole, leading) =~= names(head, leading) + names(tail, false));
    }
}

/// Joining a relative path onto a base lists the base's components, then the
/// names of the relative path.
pub proof fn lemma_components_joined(base: Seq<u8>, rel: Seq<u8>)
    requires
        !rooted(rel),
    ensures
        base.len() > 0 ==> components(joined(base, rel)) == components(base) + names(rel, false),
        base.len() == 0 ==> components(joined(base, rel)) == components(rel),
{
    let whole = joined(base, rel);
    if base.len() == 0 {
        assert(whole =~= rel);
    } else if base.last() == SLASH {
        let head = base.drop_last();
        assert(whole =~= head + seq![SLASH] + rel);
        assert(base =~= head + seq![SLASH] + Seq::<u8>::empty());
        assert(whole[0] == base[0]);
        lemma_names_split(head, rel, !rooted(base));
        lemma_names_split(head, Seq::<u8>::empty(), !rooted(base));
        assert(names(Seq::<u8>::empty(), false) =~= seq![]);
        assert(names(base, !rooted(base)) =~= names(head, !rooted(base)));
        assert(components(whole) =~= components(base) + names(rel, false));
    } else {
        assert(whole[0] == base[0]);
        lemma_names_split(base, rel, !rooted(base));
        assert(components(whole) =~= components(base) + names(rel, false));
    }
}

/// A single name is its own list of names.
proof fn lemma_names_of_name(name: Seq<u8>, leading: bool)
    requires
        !name.contains(SLASH),
    ensures
        names(name, leading) == counted(name, leading),
{
    assert forall|i: int| 0 <= i < name.len() implies name[i] != SLASH by {
        assert(name.contains(name[i]));
    }
    lemma_piece_len_is(name, name.len());
    assert(name.take(name.len() as int) =~= name);
    assert(names(seq![], false) =~= seq![]);
    assert(names(name, leading) =~= counted(name, leading));
}

/// Writing a list of components out and splitting the text again gives the
/// list back.
pub proof fn lemma_components_of_text(list: Seq<Seq<u8>>)
    requires
        well_formed(list),
    ensures
        components(text_of(list)) == list,
        list.len() > 0 ==> text_of(list).len() > 0,
    decreases list.len(),
{
    if list.len() == 0 {
        assert(components(text_of(list)) =~= list);
    } else {
        let front = list.drop_last();
        lemma_components_of_text(front);
        let last = list.last();
        if list.len() == 1 {
            assert(front =~= seq![]);
            assert(text_of(list) =~= last);
            if last == root_component() {
                lemma_names_split(Seq::<u8>::empty(), Seq::<u8>::empty(), false);
                assert(last =~= Seq::<u8>::empty() + seq![SLASH] + Seq::<u8>::empty());
                assert(names(Seq::<u8>::empty(), false) =~= seq![]);
                assert(components(last) =~= list);
            } else {
                if last == dot_component() {
                    assert(!last.contains(SLASH));
                }
                if rooted(last) {
                    assert(last.contains(last[0]));
                }
                lemma_names_of_name(last, true);
                assert(components(last) =~= list);
            }
        } else {
            assert(plain_name(last));
            if rooted(last) {
                assert(last.contains(last[0]));
            }
            lemma_components_joined(text_of(front), last);
            lemma_names_of_name(last, false);
            assert(list =~= front + seq![last]);
        }
    }
}

/// A path has no components exactly when it has no text.
pub proof fn lemma_empty_components(text: Seq<u8>)
    ensures
        components(text).len() == 0 <==> text.len() == 0,
{
    lemma_piece_len(text);
}

/// A path of plain names is relative, and its leading names are the same
/// wherever they stand.
pub proof fn lemma_plain_path(rel: Seq<u8>)
    requires
        plain(components(rel)),
    ensures
        !rooted(rel),
        names(rel, false) == components(rel),
{
    lemma_piece_len(rel);
    if rooted(rel) {
        assert(root_component().contains(root_component()[0]));
        assert(!plain_name(components(rel)[0]));
    } else if rel.len() > 0 {
        let piece = rel.take(piece_len(rel) as int);
        assert(components(rel)[0] == piece);
    }
}

/// What a base adds in front, stripping it takes off again: the relative path
/// comes back, component by component.
pub proof fn law_strip_undoes_join(base: Seq<u8>, rel: Seq<u8>)
    requires
        plain(components(rel)),
    ensures
        stripped(joined(base, rel), base) matches Some(back) && components(back) == components(rel),
{
    lemma_plain_path(rel);
    lemma_components_joined(base, rel);
    lemma_empty_components(base);
    let b = components(base);
    let p = components(joined(base, rel));
    assert(p =~= b + components(rel));
    assert(p.take(b.len() as int) =~= b);
    assert(below(p, b) =~= components(rel));
    lemma_components_well_formed(rel);
    lemma_components_of_text(components(rel));
}

/// Joining what is left below a base onto that base gives the path back,
/// component by component.
pub proof fn law_join_undoes_strip(path: Seq<u8>, base: Seq<u8>)
    requires
        stripped(path, base) is Some,
    ensures
        components(joined(base, stripped(path, base)->0)) == components(path),
        components(stripped(path, base)->0) == below(components(path), components(base)),
{
    let p = components(path);
    let b = components(base);
    let rel = stripped(path, base)->0;
    lemma_components_well_formed(path);
    lemma_empty_components(base);
    let list = below(p, b);
    assert forall|i: int| 0 <= i < list.len() implies list[i] == p[i + b.len()] by {}
    lemma_components_of_text(list);
    if b.len() == 0 {
        assert(list =~= p);
        assert(joined(base, rel) =~= rel);
    } else {
        assert(plain(list));
        lemma_plain_path(rel);
        lemma_components_joined(base, rel);
        assert(b + list =~= p);
    }
}

/// Below one base, one joined path lies within another exactly when the
/// relative paths do.
pub proof fn law_join_keeps_nesting(base: Seq<u8>, a: Seq<u8>, b: Seq<u8>)
    requires
        plain(components(a)),
        plain(components(b)),
    ensures
        within(components(joined(base, a)), components(joined(base, b))) <==> within(
            components(a),
            components(b),
        ),
{
    lemma_plain_path(a);
    lemma_plain_path(b);
    lemma_components_joined(base, a);
    lemma_components_joined(base, b);
    lemma_empty_components(base);
    let c = components(base);
    let ca = components(a);
    let cb = components(b);
    let ja = components(joined(base, a));
    let jb = components(joined(base, b));
    assert(ja =~= c + ca);
    assert(jb =~= c + cb);
    if cb.len() <= ca.len() {
        assert(ja.take(jb.len() as int) =~= c + ca.take(cb.len() as int));
        if ja.take(jb.len() as int) == jb {
            assert forall|i: int| 0 <= i < cb.len() implies ca.take(cb.len() as int)[i]
                == cb[i] by {
                assert((c + ca.take(cb.len() as int))[c.len() + i] == (c + cb)[c.len() + i]);
            }
            assert(ca.take(cb.len() as int) =~= cb);
        }
    }
}

/// A path, held as its bytes.
#[derive(Debug)]
pub struct PathBuf {
    text: Vec<u8>,
}

impl View for PathBuf {
    type V = Seq<u8>;

    closed spec fn view(&self) -> Seq<u8> {
        self.text@
    }
}

impl Clone for PathBuf {
    fn clone(&self) -> (res: Self)
        ensures
            res@ == self@,
    {
        PathBuf { text: copy_range(&self.text, 0, self.text.len()) }
    }
}

impl PartialEq for PathBuf {
    fn eq(&self, other: &Self) -> (res: bool) {
        self.same_as(other)
    }
}

impl Eq for PathBuf {

}

impl vstd::std_specs::cmp::PartialEqSpecImpl for PathBuf {
    open spec fn obeys_eq_spec() -> bool {
        true
    }

    open spec fn eq_spec(&self, other: &Self) -> bool {
        components(self@) == components(other@)
    }
}

/// The bytes from `start` up to `end`.
fn copy_range(text: &Vec<u8>, start: usize, end: usize) -> (res: Vec<u8>)
    requires
        start <= end <= text.len(),
    ensures
        res@ == text@.subrange(start as int, end as int),
{
    let mut res: Vec<u8> = Vec::new();
    let mut i: usize = start;
    while i < end
        invariant
            start <= i <= end <= text.len(),
            res@ == text@.subrange(start as int, i as int),
        decreases end - i,
    {
        res.push(text[i]);
        i = i + 1;
    }
    res
}

/// Whether two component lists agree.
pub fn same_components(a: &Vec<Vec<u8>>, b: &Vec<Vec<u8>>) -> (res: bool)
    ensures
        res == (texts(a@) == texts(b@)),
{
    if a.len() != b.len() {
        assert(texts(a@).len() != texts(b@).len());
        return false;
    }
    starts_with(a, b)
}

/// Whether the list `p` begins with the list `base`.
fn starts_with(p: &Vec<Vec<u8>>, base: &Vec<Vec<u8>>) -> (res: bool)
    ensures
        res == within(texts(p@), texts(base@)),
        p.len() == base.len() ==> res == (texts(p@) == texts(base@)),
{
    if p.len() < base.len() {
        return false;
    }
    let ghost ps = texts(p@);
    let ghost bs = texts(base@);
    let mut i: usize = 0;
    while i < base.len()
        invariant
            i <= base.len() <= p.len(),
            ps == texts(p@),
            bs == texts(base@),
            forall|j: int| 0 <= j < i ==> ps[j] == bs[j],
        decreases base.len() - i,
    {
        if !same_text(&p[i], &base[i]) {
            assert(ps.take(bs.len() as int)[i as int] != bs[i as int]);
            return false;
        }
        i = i + 1;
    }
    assert(ps.take(bs.len() as int) =~= bs);
    assert(p.len() == base.len() ==> ps =~= bs);
    true
}

/// Whether two byte strings agree.
fn same_text(a: &Vec<u8>, b: &Vec<u8>) -> (res: bool)
    ensures
        res == (a@ == b@),
{
    if a.len() != b.len() {
        return false;
    }
    let mut i: usize = 0;
    while i < a.len()
        invariant
            i <= a.len() == b.len(),
            forall|j: int| 0 <= j < i ==> a@[j] == b@[j],
        decreases a.len() - i,
    {
        if a[i] != b[i] {
            return false;
        }
        i = i + 1;
    }
    assert(a@ =~= b@);
    true
}

impl PathBuf {
    /// The path with the given text.
    pub fn from_bytes(text: Vec<u8>) -> (res: PathBuf)
        ensures
            res@ == text@,
    {
        PathBuf { text }
    }

    /// The text of the path.
    pub fn as_bytes(&self) -> (res: &Vec<u8>)
        ensures
            res@ == self@,
    {
        &self.text
    }

    /// The components of the path, in order.
    pub fn components(&self) -> (list: Vec<Vec<u8>>)
        ensures
            texts(list@) == components(self@),
    {
        let text = &self.text;
        let mut list: Vec<Vec<u8>> = Vec::new();
        let mut leading: bool = true;
        if text.len() > 0 && text[0] == SLASH {
            let mut root: Vec<u8> = Vec::new();
            root.push(SLASH);
            list.push(root);
            leading = false;
            assert(root@ =~= root_component());
        }
        let mut start: usize = 0;
        assert(text@.skip(0) =~= text@);
        assert(texts(list@) + names(text@, leading) =~= components(text@));
        while start < text.len()
            invariant
                start <= text.len(),
                text@ == self@,
                texts(list@) + names(text@.skip(start as int), leading) == components(text@),
            decreases text.len() - start,
        {
            let ghost rest = text@.skip(start as int);
            let mut end: usize = start;
            while end < text.len() && text[end] != SLASH
                invariant
                    start <= end <= text.len(),
                    rest == text@.skip(start as int),
                    forall|i: int| 0 <= i < end - start ==> rest[i] != SLASH,
                decreases text.len() - end,
            {
                end = end + 1;
            }
            proof {
                lemma_piece_len_is(rest, (end - start) as nat);
                assert(rest.take(end - start) =~= text@.subrange(start as int, end as int));
            }
            let ghost before = texts(list@);
            let ghost was_leading = leading;
            let is_dot = end - start == 1 && text[start] == DOT;
            let ghost piece = rest.take(end - start);
            proof {
                if is_dot {
                    assert(piece =~= dot_component());
                } else if piece == dot_component() {
                    assert(piece[0] == text@[start as int]);
                }
            }
            if end > start && (leading || !is_dot) {
                list.push(copy_range(text, start, end));
                assert(texts(list@) =~= before.push(piece));
            }
            assert(texts(list@) =~= before + counted(piece, was_leading));
            leading = false;
            if end < text.len() {
                start = end + 1;
                assert(text@.skip(start as int) =~= after_piece(rest));
            } else {
                start = text.len();
                assert(text@.skip(start as int) =~= after_piece(rest));
            }
            assert(texts(list@) + names(text@.skip(start as int), false) =~= before + names(
                rest,
                was_leading,
            ));
        }
        assert(text@.skip(start as int).len() == 0);
        assert(texts(list@) =~= components(text@));
        list
    }

    /// Whether two paths have the same components.
    pub fn same_as(&self, other: &PathBuf) -> (res: bool)
        ensures
            res == (components(self@) == components(other@)),
    {
        let a = self.components();
        let b = other.components();
        same_components(&a, &b)
    }

    /// `rel` attached to this path; `rel` itself where it is rooted.
    pub fn join(&self, rel: &PathBuf) -> (res: PathBuf)
        ensures
            res@ == joined(self@, rel@),
    {
        let mut text: Vec<u8> = Vec::new();
        if rel.text.len() > 0 && rel.text[0] == SLASH {
            return rel.clone();
        }
        push_all(&mut text, &self.text);
        if self.text.len() > 0 && self.text[self.text.len() - 1] != SLASH {
            text.push(SLASH);
        }
        push_all(&mut text, &rel.text);
        assert(text@ =~= joined(self@, rel@));
        PathBuf { text }
    }

    /// The path made of the given components.
    pub fn from_components(list: &Vec<Vec<u8>>, start: usize) -> (res: PathBuf)
        requires
            start <= list.len(),
        ensures
            res@ == text_of(texts(list@).skip(start as int)),
    {
        let mut path = PathBuf { text: Vec::new() };
        let mut i: usize = start;
        let ghost all = texts(list@).skip(start as int);
        assert(all.take(0) =~= seq![]);
        while i < list.len()
            invariant
                start <= i <= list.len(),
                all == texts(list@).skip(start as int),
                path@ == text_of(all.take(i - start)),
            decreases list.len() - i,
        {
            let name = PathBuf { text: copy_range(&list[i], 0, list[i].len()) };
            assert(name@ =~= all[i - start]);
            path = path.join(&name);
            assert(all.take(i + 1 - start).drop_last() =~= all.take(i - start));
            assert(all.take(i + 1 - start).last() == all[i - start]);
            i = i + 1;
        }
        assert(all.take(i - start) =~= all);
        path
    }

    /// What is left of this path below `base`; nothing where this path does
    /// not lie within `base`.
    pub fn strip_prefix(&self, base: &PathBuf) -> (res: Option<PathBuf>)
        ensures
            match res {
                Some(rel) => stripped(self@, base@) == Some(rel@),
                None => stripped(self@, base@) is None,
            },
    {
        let p = self.components();
        let b = base.components();
        if starts_with(&p, &b) {
            Some(PathBuf::from_components(&p, b.len()))
        } else {
            None
        }
    }

    /// The last component, as a path of its own; none for the empty path.
    pub fn last_component(&self) -> (res: Option<PathBuf>)
        ensures
            match res {
                Some(name) => components(self@).len() > 0 && name@ == components(self@).last(),
                None => components(self@).len() == 0,
            },
    {
        let list = self.components();
        if list.len() == 0 {
            assert(texts(list@).len() == 0);
            None
        } else {
            let last = &list[list.len() - 1];
            assert(texts(list@).last() == last@);
            Some(PathBuf { text: copy_range(last, 0, last.len()) })
        }
    }
}

/// Appends `tail` to `text`.
fn push_all(text: &mut Vec<u8>, tail: &Vec<u8>)
    ensures
        final(text)@ == old(text)@ + tail@,
{
    let ghost before = text@;
    let mut i: usize = 0;
    while i < tail.len()
        invariant
            i <= tail.len(),
            text@ == before + tail@.take(i as int),
        decreases tail.len() - i,
    {
        text.push(tail[i]);
        assert(tail@.take(i + 1) =~= tail@.take(i as int).push(tail@[i as int]));
        assert(text@ =~= before + tail@.take(i + 1));
        i = i + 1;
    }
    assert(tail@.take(i as int) =~= tail@);
}

/// Whether the path is the empty one.
pub fn empty_path(path: &PathBuf) -> (res: bool)
    ensures
        res == (components(path@).len() == 0),
        res == (path@.len() == 0),
{
    proof {
        lemma_empty_components(path@);
    }
    path.text.len() == 0
}

/// A rooted path takes the place of whatever it is joined onto; a relative one
/// adds its names to the base, with the separator between them that is needed.
pub proof fn law_join_adds_names(base: Seq<u8>, rel: Seq<u8>)
    ensures
        rel.len() > 0 && rel[0] == 0x2f ==> joined(base, rel) == rel,
        !(rel.len() > 0 && rel[0] == 0x2f) && (base.len() == 0 || base.last() == 0x2f) ==> joined(
            base,
            rel,
        ) == base + rel,
        !(rel.len() > 0 && rel[0] == 0x2f) && base.len() > 0 && base.last() != 0x2f ==> joined(
            base,
            rel,
        ) == base + seq![0x2f] + rel,
        plain(components(rel)) ==> components(joined(base, rel)) == components(base) + components(
            rel,
        ),
{
    if plain(components(rel)) {
        lemma_plain_path(rel);
        lemma_components_joined(base, rel);
        lemma_empty_components(base);
        assert(components(joined(base, rel)) =~= components(base) + components(rel));
    }
}

/// A name after a separator is one more component; a separator or `.` after a
/// separator is none.
pub proof fn law_names_are_components(base: Seq<u8>, name: Seq<u8>)
    requires
        base.len() > 0,
        name.len() > 0,
        !name.contains(0x2f),
    ensures
        name != seq![0x2eu8] ==> components(base + seq![0x2f] + name) == components(base).push(
            name,
        ),
        components(base + seq![0x2f] + seq![0x2e]) == components(base),
        components(base + seq![0x2f]) == components(base),
{
    let dot = seq![0x2eu8];
    let none = Seq::<u8>::empty();
    let leading = !rooted(base);
    assert((base + seq![0x2f] + name)[0] == base[0]);
    assert((base + seq![0x2f] + dot)[0] == base[0]);
    assert(base + seq![0x2f] + none =~= base + seq![0x2f]);
    assert((base + seq![0x2f])[0] == base[0]);
    lemma_names_split(base, name, leading);
    lemma_names_split(base, dot, leading);
    lemma_names_split(base, none, leading);
    lemma_names_of_name(name, false);
    assert(!dot.contains(SLASH));
    lemma_names_of_name(dot, false);
    assert(dot == dot_component());
    assert(names(none, false) =~= seq![]);
    assert(counted(dot, false) =~= seq![]);
    assert(components(base + seq![0x2f]) =~= components(base));
    assert(components(base + seq![0x2f] + dot) =~= components(base));
    if name != dot {
        assert(counted(name, false) =~= seq![name]);
        assert(components(base + seq![0x2f] + name) =~= components(base).push(name));
    }
}

/// A path is rooted exactly when its first component is `/`, and `.` is kept
/// at the very start alone.
pub proof fn law_first_component(text: Seq<u8>)
    ensures
        text.len() > 0 && text[0] == 0x2f <==> components(text).len() > 0 && components(text)[0]
            == seq![0x2fu8],
        components(seq![0x2eu8]) == seq![seq![0x2eu8]],
        components(seq![]) == Seq::<Seq<u8>>::empty(),
{
    let dot = seq![0x2eu8];
    assert(!dot.contains(SLASH));
    lemma_names_of_name(dot, true);
    assert(components(dot) =~= seq![dot]);
    lemma_piece_len(text);
    lemma_names_plain(after_piece(text));
    if !rooted(text) && components(text).len() > 0 {
        let piece = text.take(piece_len(text) as int);
        assert(piece[0] == text[0]);
        assert(components(text)[0] == piece);
    }
}

/// `.` is no name anywhere but at the very start.
pub proof fn lemma_names_of_dot()
    ensures
        names(dot_component(), false) == Seq::<Seq<u8>>::empty(),
{
    assert(!dot_component().contains(SLASH));
    lemma_names_of_name(dot_component(), false);
    assert(counted(dot_component(), false) =~= seq![]);
}

} // verus!
