//! Copying trees: which operations a walk of the sources queues.

use vstd::prelude::*;

use crate::config::Config;
use crate::entry::{
    law_entries_of_the_source_are_placed, law_targets_lie_within_base, place, placed, target_at,
    Entry,
};
use crate::error::XcpError;
use crate::metadata::{FileType, Metadata};
use crate::path::{
    below, components, dot_component, inside, joined, law_join_adds_names, lemma_components_joined,
    lemma_components_of_text, lemma_components_well_formed, lemma_empty_components,
    lemma_names_of_dot, names, plain_name, root_component, rooted, text_of, within, PathBuf, SLASH,
};
use crate::protocol::{
    add_command, answers, ask, changes, commands_of, fail, finished, given, no_commands,
    out_of_turn, paths_of, reply, replying, Command, Event, Next, Operation, Query, Reply,
    ReplyView,
};

verus! {

/// The source that is being walked and where it is copied to.
pub struct Root<P = PathBuf> {
    pub source: P,
    pub base: P,
}

impl View for Root<PathBuf> {
    type V = Root<Seq<u8>>;

    open spec fn view(&self) -> Root<Seq<u8>> {
        Root { source: self.source@, base: self.base@ }
    }
}

/// What the walk waits for.
pub enum TreePhase<P = PathBuf> {
    /// The start of the run.
    Ready,
    /// Whether the destination is a directory, for the given source and its
    /// last component.
    Placing(P, P),
    /// The walk of a source to begin.
    Opening(Root<P>),
    /// The next entry.
    Walking(Root<P>),
    /// Where the walked path leads.
    Resolving(Root<P>, P),
    /// The metadata of the walked path, read at the second one.
    Reading(Root<P>, P, P),
    /// Whether the entry's target exists.
    Checking(Root<P>, Entry<P>),
    /// What the symlink holds.
    Linking(Root<P>, Entry<P>),
    /// Nothing: the run is over.
    Done,
}

impl View for TreePhase<PathBuf> {
    type V = TreePhase<Seq<u8>>;

    open spec fn view(&self) -> TreePhase<Seq<u8>> {
        match self {
            TreePhase::Ready => TreePhase::Ready,
            TreePhase::Placing(s, n) => TreePhase::Placing(s@, n@),
            TreePhase::Opening(r) => TreePhase::Opening(r@),
            TreePhase::Walking(r) => TreePhase::Walking(r@),
            TreePhase::Resolving(r, p) => TreePhase::Resolving(r@, p@),
            TreePhase::Reading(r, p, q) => TreePhase::Reading(r@, p@, q@),
            TreePhase::Checking(r, e) => TreePhase::Checking(r@, e@),
            TreePhase::Linking(r, e) => TreePhase::Linking(r@, e@),
            TreePhase::Done => TreePhase::Done,
        }
    }
}

/// A walk of several sources, each to be copied to one destination.
pub struct TreeWalk {
    sources: Vec<PathBuf>,
    started: usize,
    dest: PathBuf,
    config: Config,
    phase: TreePhase,
}

/// What is known in the course of a walk.
pub ghost struct TreeView {
    /// What is to be copied, in order.
    pub sources: Seq<Seq<u8>>,
    /// How many of the sources have been taken up.
    pub started: nat,
    /// Where to.
    pub dest: Seq<u8>,
    /// How.
    pub config: Config,
    /// What the walk waits for.
    pub phase: TreePhase<Seq<u8>>,
}

impl View for TreeWalk {
    type V = TreeView;

    closed spec fn view(&self) -> TreeView {
        TreeView {
            sources: paths_of(self.sources@),
            started: self.started as nat,
            dest: self.dest@,
            config: self.config,
            phase: self.phase@,
        }
    }
}

/// Where a source is copied to: below the destination, under the name of the
/// source, where the destination is a directory and that is wanted.
pub open spec fn base_of(
    name: Seq<u8>,
    dest: Seq<u8>,
    config: Config,
    dest_is_dir: bool,
) -> Seq<u8> {
    if dest_is_dir && !config.no_target_directory {
        joined(dest, name)
    } else {
        dest
    }
}

/// Takes up the next source, or ends the run.
pub open spec fn tree_advance(w: TreeView) -> (TreeView, ReplyView) {
    if w.started < w.sources.len() {
        let source = w.sources[w.started as int];
        let w = TreeView { started: w.started + 1, ..w };
        if components(source).len() == 0 {
            tree_stop(w, XcpError::InvalidSource)
        } else {
            tree_ask(
                w,
                TreePhase::Placing(source, components(source).last()),
                Query::IsDir(w.dest),
            )
        }
    } else {
        (TreeView { phase: TreePhase::Done, ..w }, replying(seq![], Next::Finished))
    }
}

/// Waits in the given phase for an answer.
pub open spec fn tree_ask(
    w: TreeView,
    phase: TreePhase<Seq<u8>>,
    query: Query<Seq<u8>>,
) -> (TreeView, ReplyView) {
    (TreeView { phase, ..w }, replying(seq![], Next::Ask(query)))
}

/// Ends the run with an error.
pub open spec fn tree_stop(w: TreeView, error: XcpError<Seq<u8>>) -> (TreeView, ReplyView) {
    (TreeView { phase: TreePhase::Done, ..w }, replying(seq![], Next::Failed(error)))
}

/// Carries out commands and goes on to the next entry.
pub open spec fn tree_go_on(
    w: TreeView,
    root: Root<Seq<u8>>,
    commands: Seq<Command<Seq<u8>>>,
) -> (TreeView, ReplyView) {
    (
        TreeView { phase: TreePhase::Walking(root), ..w },
        replying(commands, Next::Ask(Query::NextEntry)),
    )
}

/// What copying the tree does for an entry whose target may be written.
pub open spec fn tree_entry(
    w: TreeView,
    root: Root<Seq<u8>>,
    e: Entry<Seq<u8>>,
) -> (TreeView, ReplyView) {
    let special = seq![Command::Send(Operation::Special(e.from, e.target))];
    match e.meta.kind {
        FileType::File => tree_go_on(
            w,
            root,
            seq![Command::Size(e.meta.len), Command::Send(Operation::Copy(e.from, e.target))],
        ),
        FileType::Symlink => tree_ask(w, TreePhase::Linking(root, e), Query::ReadLink(e.from)),
        FileType::Dir => tree_go_on(
            w,
            root,
            seq![Command::CreateTargetDir(e.target)] + given(
                w.config.ownership,
                seq![Command::Chown(e.target, e.meta.uid, e.meta.gid)],
            ),
        ),
        FileType::Socket | FileType::Char | FileType::Fifo => tree_go_on(w, root, special),
        FileType::Block => if w.config.copy_special {
            tree_go_on(w, root, special)
        } else {
            tree_stop(w, XcpError::UnknownFileType(e.target))
        },
        FileType::Other => tree_stop(w, XcpError::UnknownFileType(e.target)),
    }
}

/// What copying the tree does once the metadata of an entry is known.
pub open spec fn tree_placed(
    w: TreeView,
    root: Root<Seq<u8>>,
    path: Seq<u8>,
    from: Seq<u8>,
    meta: Metadata,
) -> (TreeView, ReplyView) {
    match placed(root.source, root.base, path) {
        None => tree_stop(w, XcpError::OutsideSource),
        Some((_, target)) => {
            let e = Entry { from, target, meta };
            if w.config.no_clobber {
                tree_ask(w, TreePhase::Checking(root, e), Query::Exists(target))
            } else {
                tree_entry(w, root, e)
            }
        },
    }
}

/// A walk that has not begun.
pub open spec fn tree_start(sources: Seq<Seq<u8>>, dest: Seq<u8>, config: Config) -> TreeView {
    TreeView { sources, started: 0, dest, config, phase: TreePhase::Ready }
}

/// What the walk does on an event.
pub open spec fn tree_step(w: TreeView, event: Event<Seq<u8>>) -> (TreeView, ReplyView) {
    match (w.phase, event) {
        (TreePhase::Ready, Event::Begin) => tree_advance(w),
        (TreePhase::Placing(source, name), Event::Answer(is_dir)) => {
            let root = Root { source, base: base_of(name, w.dest, w.config, is_dir) };
            tree_ask(w, TreePhase::Opening(root), Query::BeginWalk(source))
        },
        (TreePhase::Opening(root), Event::Begun) => tree_go_on(w, root, seq![]),
        (TreePhase::Walking(_), Event::End) => tree_advance(w),
        (TreePhase::Walking(root), Event::Entry(Some(path))) => if w.config.dereference {
            tree_ask(w, TreePhase::Resolving(root, path), Query::Canonicalize(path))
        } else {
            tree_ask(w, TreePhase::Reading(root, path, path), Query::SourceMeta(path))
        },
        (TreePhase::Resolving(root, path), Event::Path(from)) => tree_ask(
            w,
            TreePhase::Reading(root, path, from),
            Query::SourceMeta(from),
        ),
        (TreePhase::Reading(root, path, from), Event::Meta(Some(meta))) => tree_placed(
            w,
            root,
            path,
            from,
            meta,
        ),
        (TreePhase::Checking(root, e), Event::Answer(taken)) => if taken {
            (
                TreeView { phase: TreePhase::Done, ..w },
                replying(
                    seq![Command::ReportExists(e.target)],
                    Next::Failed(XcpError::EarlyShutdown),
                ),
            )
        } else {
            tree_entry(w, root, e)
        },
        (TreePhase::Linking(root, e), Event::Path(text)) => tree_go_on(
            w,
            root,
            seq![Command::Send(Operation::Link(text, e.target))],
        ),
        _ => (w, replying(seq![], Next::OutOfTurn)),
    }
}

impl TreeWalk {
    /// A walk that has not begun.
    pub fn new(sources: Vec<PathBuf>, dest: PathBuf, config: Config) -> (res: TreeWalk)
        ensures
            res@ == tree_start(paths_of(sources@), dest@, config),
    {
        TreeWalk { sources, started: 0, dest, config, phase: TreePhase::Ready }
    }

    /// Waits in the given phase for an answer.
    fn waiting(self, phase: TreePhase, query: Query) -> (res: (TreeWalk, Reply))
        ensures
            (res.0@, res.1@) == tree_ask(self@, phase@, query@),
    {
        (TreeWalk { phase, ..self }, ask(query))
    }

    /// Ends the run with an error.
    fn stop(self, error: XcpError) -> (res: (TreeWalk, Reply))
        ensures
            (res.0@, res.1@) == tree_stop(self@, error@),
    {
        (TreeWalk { phase: TreePhase::Done, ..self }, fail(error))
    }

    /// Carries out commands and goes on to the next entry.
    fn go_on(self, root: Root, commands: Vec<Command>) -> (res: (TreeWalk, Reply))
        ensures
            (res.0@, res.1@) == tree_go_on(self@, root@, commands_of(commands@)),
    {
        (
            TreeWalk { phase: TreePhase::Walking(root), ..self },
            reply(commands, Next::Ask(Query::NextEntry)),
        )
    }

    /// Takes up the next source, or ends the run.
    fn advance(self) -> (res: (TreeWalk, Reply))
        ensures
            (res.0@, res.1@) == tree_advance(self@),
    {
        if self.started < self.sources.len() {
            let source = self.sources[self.started].clone();
            assert(source@ == self@.sources[self.started as int]);
            let walk = TreeWalk { started: self.started + 1, ..self };
            match source.last_component() {
                None => walk.stop(XcpError::InvalidSource),
                Some(name) => {
                    let dest = walk.dest.clone();
                    walk.waiting(TreePhase::Placing(source, name), Query::IsDir(dest))
                },
            }
        } else {
            (TreeWalk { phase: TreePhase::Done, ..self }, finished())
        }
    }

    /// What copying the tree does for an entry whose target may be written.
    fn entry(self, root: Root, e: Entry) -> (res: (TreeWalk, Reply))
        ensures
            (res.0@, res.1@) == tree_entry(self@, root@, e@),
    {
        let mut commands = no_commands();
        match e.meta.kind {
            FileType::File => {
                add_command(&mut commands, Command::Size(e.meta.len));
                add_command(&mut commands, Command::Send(Operation::Copy(e.from, e.target)));
            },
            FileType::Symlink => {
                let from = e.from.clone();
                return self.waiting(TreePhase::Linking(root, e), Query::ReadLink(from));
            },
            FileType::Dir => {
                add_command(&mut commands, Command::CreateTargetDir(e.target.clone()));
                if self.config.ownership {
                    add_command(
                        &mut commands,
                        Command::Chown(e.target, e.meta.uid, e.meta.gid),
                    );
                }
            },
            FileType::Socket | FileType::Char | FileType::Fifo => {
                add_command(&mut commands, Command::Send(Operation::Special(e.from, e.target)));
            },
            FileType::Block => {
                if self.config.copy_special {
                    add_command(
                        &mut commands,
                        Command::Send(Operation::Special(e.from, e.target)),
                    );
                } else {
                    return self.stop(XcpError::UnknownFileType(e.target));
                }
            },
            FileType::Other => {
                return self.stop(XcpError::UnknownFileType(e.target));
            },
        }
        let ghost expected = tree_entry(self@, root@, e@).1.commands;
        assert(commands_of(commands@) =~= expected);
        self.go_on(root, commands)
    }

    /// What copying the tree does once the metadata of an entry is known.
    fn place_entry(
        self,
        root: Root,
        path: PathBuf,
        from: PathBuf,
        meta: Metadata,
    ) -> (res: (TreeWalk, Reply))
        ensures
            (res.0@, res.1@) == tree_placed(self@, root@, path@, from@, meta),
    {
        match place(&root.source, &root.base, &path) {
            None => self.stop(XcpError::OutsideSource),
            Some((_, target)) => {
                let e = Entry { from, target, meta };
                if self.config.no_clobber {
                    let target = e.target.clone();
                    self.waiting(TreePhase::Checking(root, e), Query::Exists(target))
                } else {
                    self.entry(root, e)
                }
            },
        }
    }
}

/// Takes the walk one event further: the next state of the walk, and what
/// the driver is to do before the next event.
pub fn tree_walker(walk: TreeWalk, event: Event) -> (res: (TreeWalk, Reply))
    ensures
        (res.0@, res.1@) == tree_step(walk@, event@),
{
    let TreeWalk { sources, started, dest, config, phase } = walk;
    let idle = TreeWalk { sources, started, dest, config, phase: TreePhase::Done };
    match (phase, event) {
        (TreePhase::Ready, Event::Begin) => idle.advance(),
        (TreePhase::Placing(source, name), Event::Answer(is_dir)) => {
            let base = if is_dir && !idle.config.no_target_directory {
                idle.dest.join(&name)
            } else {
                idle.dest.clone()
            };
            let walked = source.clone();
            idle.waiting(TreePhase::Opening(Root { source, base }), Query::BeginWalk(walked))
        },
        (TreePhase::Opening(root), Event::Begun) => {
            idle.go_on(root, no_commands())
        },
        (TreePhase::Walking(_), Event::End) => idle.advance(),
        (TreePhase::Walking(root), Event::Entry(Some(path))) => {
            let asked = path.clone();
            if idle.config.dereference {
                idle.waiting(TreePhase::Resolving(root, path), Query::Canonicalize(asked))
            } else {
                let from = path.clone();
                idle.waiting(TreePhase::Reading(root, path, from), Query::SourceMeta(asked))
            }
        },
        (TreePhase::Resolving(root, path), Event::Path(from)) => {
            let asked = from.clone();
            idle.waiting(TreePhase::Reading(root, path, from), Query::SourceMeta(asked))
        },
        (TreePhase::Reading(root, path, from), Event::Meta(Some(meta))) => idle.place_entry(
            root,
            path,
            from,
            meta,
        ),
        (TreePhase::Checking(root, e), Event::Answer(taken)) => {
            if taken {
                let mut commands = no_commands();
                add_command(&mut commands, Command::ReportExists(e.target));
                assert(commands_of(commands@) =~= seq![Command::ReportExists(e.target@)]);
                (idle, reply(commands, Next::Failed(XcpError::EarlyShutdown)))
            } else {
                idle.entry(root, e)
            }
        },
        (TreePhase::Linking(root, e), Event::Path(text)) => {
            let mut commands = no_commands();
            add_command(&mut commands, Command::Send(Operation::Link(text, e.target)));
            assert(commands_of(commands@) =~= seq![
                Command::Send(Operation::Link(text@, e.target@)),
            ]);
            idle.go_on(root, commands)
        },
        (phase, _) => (TreeWalk { phase, ..idle }, out_of_turn()),
    }
}

/// Where a walk stands after some events, whatever they are.
pub open spec fn tree_reached(w: TreeView, events: Seq<Event<Seq<u8>>>) -> TreeView
    decreases events.len(),
{
    if events.len() == 0 {
        w
    } else {
        tree_step(tree_reached(w, events.drop_last()), events.last()).0
    }
}

/// Whether the walk asked whether anything exists at a path, and the event at
/// an index says that nothing does.
pub open spec fn found_free(
    w: TreeView,
    events: Seq<Event<Seq<u8>>>,
    i: int,
    path: Seq<u8>,
) -> bool {
    &&& events[i] == Event::<Seq<u8>>::Answer(false)
    &&& tree_reached(w, events.take(i)).phase matches TreePhase::Checking(_, e) && e.target == path
}

proof fn lemma_link_target_is_free(w: TreeView, events: Seq<Event<Seq<u8>>>)
    requires
        w.config.no_clobber,
        !(w.phase is Linking),
    ensures
        tree_reached(w, events).config == w.config,
        tree_reached(w, events).phase matches TreePhase::Linking(_, e) ==> exists|i: int|
            0 <= i < events.len() && #[trigger] found_free(w, events, i, e.target),
    decreases events.len(),
{
    if events.len() > 0 {
        let front = events.drop_last();
        let last = events.len() - 1;
        lemma_link_target_is_free(w, front);
        assert(events.take(last) =~= front);
        let before = tree_reached(w, front);
        match tree_reached(w, events).phase {
            TreePhase::Linking(_, e) => {
                if before.phase is Linking {
                    let i = choose|i: int|
                        0 <= i < front.len() && #[trigger] found_free(w, front, i, e.target);
                    assert(events.take(i) =~= front.take(i));
                    assert(found_free(w, events, i, e.target));
                } else {
                    assert(found_free(w, events, last, e.target));
                }
            },
            _ => {},
        }
    }
}

/// With no-clobber set, whatever a run is told, nothing is changed at a path
/// unless the run was told before that nothing exists there.
pub proof fn law_no_clobber_asks_first(
    sources: Seq<Seq<u8>>,
    dest: Seq<u8>,
    config: Config,
    events: Seq<Event<Seq<u8>>>,
)
    requires
        config.no_clobber,
        events.len() > 0,
    ensures
        ({
            let w = tree_start(sources, dest, config);
            let reply = tree_step(tree_reached(w, events.drop_last()), events.last()).1;
            forall|k: int|
                0 <= k < reply.commands.len() && changes(#[trigger] reply.commands[k]) is Some
                    ==> exists|i: int|
                    0 <= i < events.len() && #[trigger] found_free(
                        w,
                        events,
                        i,
                        changes(reply.commands[k])->0,
                    )
        }),
{
    let w = tree_start(sources, dest, config);
    let front = events.drop_last();
    let last = events.len() - 1;
    lemma_link_target_is_free(w, front);
    assert(events.take(last) =~= front);
    assert(events[last] == events.last());
    let before = tree_reached(w, front);
    let reply = tree_step(before, events.last()).1;
    assert forall|k: int|
        0 <= k < reply.commands.len() && changes(
            #[trigger] reply.commands[k],
        ) is Some implies exists|i: int|
        0 <= i < events.len() && #[trigger] found_free(
            w,
            events,
            i,
            changes(reply.commands[k])->0,
        ) by {
        match before.phase {
            TreePhase::Checking(_, e) => {
                assert(changes(reply.commands[k]) == Some(e.target));
                assert(found_free(w, events, last, changes(reply.commands[k])->0));
            },
            TreePhase::Linking(_, e) => {
                let i = choose|i: int|
                    0 <= i < front.len() && #[trigger] found_free(w, front, i, e.target);
                assert(events.take(i) =~= front.take(i));
                assert(changes(reply.commands[k]) == Some(e.target));
                assert(found_free(w, events, i, changes(reply.commands[k])->0));
            },
            _ => {
                assert(reply.commands.len() == 0);
            },
        }
    }
}

/// Where something exists and may not be replaced, the run reports it and
/// stops.
pub proof fn law_existing_target_stops_the_run(w: TreeView, e: Entry<Seq<u8>>)
    requires
        w.phase matches TreePhase::Checking(_, checked) && checked == e,
    ensures
        tree_step(w, Event::Answer(true)).1.commands == seq![Command::ReportExists(e.target)],
        tree_step(w, Event::Answer(true)).1.next == Next::<Seq<u8>>::Failed(
            XcpError::EarlyShutdown,
        ),
        tree_step(w, Event::Answer(true)).0.phase is Done,
{
}

/// The source that the walk is in, where it is in one.
pub open spec fn root_of(phase: TreePhase<Seq<u8>>) -> Option<Root<Seq<u8>>> {
    match phase {
        TreePhase::Opening(root) => Some(root),
        TreePhase::Walking(root) => Some(root),
        TreePhase::Resolving(root, _) => Some(root),
        TreePhase::Reading(root, _, _) => Some(root),
        TreePhase::Checking(root, _) => Some(root),
        TreePhase::Linking(root, _) => Some(root),
        _ => None,
    }
}

/// Whether the walk is about to write only within the base of a source that
/// has a name.
pub open spec fn keeps_to_base(w: TreeView) -> bool {
    &&& root_of(w.phase) is Some ==> components(root_of(w.phase)->0.source).len() > 0
    &&& w.phase matches TreePhase::Placing(source, _) ==> components(source).len() > 0
    &&& w.phase matches TreePhase::Checking(root, e) ==> inside(e.target, root.base)
    &&& w.phase matches TreePhase::Linking(root, e) ==> inside(e.target, root.base)
}

proof fn lemma_step_stays_inside_base(w: TreeView, event: Event<Seq<u8>>)
    requires
        keeps_to_base(w),
    ensures
        ({
            let (next, reply) = tree_step(w, event);
            &&& keeps_to_base(next)
            &&& forall|i: int|
                0 <= i < reply.commands.len() && changes(#[trigger] reply.commands[i]) is Some
                    ==> root_of(w.phase) is Some && inside(
                    changes(reply.commands[i])->0,
                    root_of(w.phase)->0.base,
                )
        }),
{
    match (w.phase, event) {
        (TreePhase::Reading(root, path, _), Event::Meta(Some(_))) => {
            if placed(root.source, root.base, path) is Some {
                law_targets_lie_within_base(root.source, root.base, path);
            }
        },
        _ => {},
    }
}

proof fn lemma_run_keeps_to_base(w: TreeView, events: Seq<Event<Seq<u8>>>)
    requires
        keeps_to_base(w),
    ensures
        keeps_to_base(tree_reached(w, events)),
    decreases events.len(),
{
    if events.len() > 0 {
        lemma_run_keeps_to_base(w, events.drop_last());
        lemma_step_stays_inside_base(tree_reached(w, events.drop_last()), events.last());
    }
}

/// Whatever a run is told, copying a source changes nothing outside the base
/// that the source is copied to.
pub proof fn law_copy_stays_inside_base(
    sources: Seq<Seq<u8>>,
    dest: Seq<u8>,
    config: Config,
    events: Seq<Event<Seq<u8>>>,
    event: Event<Seq<u8>>,
)
    ensures
        ({
            let w = tree_reached(tree_start(sources, dest, config), events);
            let reply = tree_step(w, event).1;
            forall|i: int|
                0 <= i < reply.commands.len() && changes(#[trigger] reply.commands[i]) is Some
                    ==> root_of(w.phase) is Some && inside(
                    changes(reply.commands[i])->0,
                    root_of(w.phase)->0.base,
                )
        }),
{
    let start = tree_start(sources, dest, config);
    lemma_run_keeps_to_base(start, events);
    lemma_step_stays_inside_base(tree_reached(start, events), event);
}

/// The base of a source lies within the destination, but for the root of the
/// file system, which has no name to be copied under.
pub proof fn law_base_lies_inside_dest(
    source: Seq<u8>,
    dest: Seq<u8>,
    config: Config,
    dest_is_dir: bool,
)
    requires
        components(source).len() > 0,
        components(source).last() != root_component(),
    ensures
        inside(base_of(components(source).last(), dest, config, dest_is_dir), dest),
{
    let name = components(source).last();
    let d = components(dest);
    assert(d.take(d.len() as int) =~= d);
    lemma_components_well_formed(source);
    assert(components(source)[components(source).len() - 1] == name);
    if rooted(name) {
        assert(name.contains(name[0]));
        assert(!dot_component().contains(SLASH));
    }
    lemma_components_joined(dest, name);
    lemma_empty_components(dest);
    if dest.len() > 0 {
        assert((d + names(name, false)).take(d.len() as int) =~= d);
    } else {
        assert(components(joined(dest, name)).take(0) =~= d);
    }
}

/// The sources are taken up one after the other, and the run is complete only
/// when all have been.
pub proof fn law_sources_are_taken_in_order(w: TreeView, event: Event<Seq<u8>>)
    requires
        w.started <= w.sources.len(),
    ensures
        ({
            let (next, reply) = tree_step(w, event);
            &&& next.sources == w.sources && next.dest == w.dest && next.config == w.config
            &&& next.started == w.started || (next.started == w.started + 1 && next.started
                <= w.sources.len())
            &&& next.started > w.started && next.phase is Placing ==> next.phase->Placing_0
                == w.sources[w.started as int]
            &&& reply.next is Finished ==> w.started == w.sources.len()
        }),
{
}

/// An event that the walk did not ask for changes nothing, and after the end
/// of a run every event is of that sort.
pub proof fn law_stray_events_change_nothing(w: TreeView, event: Event<Seq<u8>>)
    ensures
        ({
            let (next, reply) = tree_step(w, event);
            &&& reply.next is OutOfTurn ==> next == w && reply.commands.len() == 0
            &&& w.phase is Done ==> reply.next is OutOfTurn
            &&& reply.next is Finished || reply.next is Failed ==> next.phase is Done
            &&& reply.delete.len() == 0 && reply.verify.len() == 0
        }),
{
}

/// An entry of a source, with all that the walk asks of it.
pub ghost struct Found {
    /// The walked path.
    pub path: Seq<u8>,
    /// Where the entry is read: the walked path, or where it leads.
    pub from: Seq<u8>,
    /// The metadata of what is read.
    pub meta: Metadata,
    /// What it holds, if it is a symlink.
    pub text: Seq<u8>,
}

/// The answers that the walk gets for an entry whose target is free.
pub open spec fn answers_for(config: Config, found: Found) -> Seq<Event<Seq<u8>>> {
    seq![Event::Entry(Some(found.path))] + (if config.dereference {
        seq![Event::Path(found.from)]
    } else {
        seq![]
    }) + seq![Event::Meta(Some(found.meta))] + (if config.no_clobber {
        seq![Event::Answer(false)]
    } else {
        seq![]
    }) + (if found.meta.kind == FileType::Symlink {
        seq![Event::Path(found.text)]
    } else {
        seq![]
    })
}

/// What an entry is copied by.
pub open spec fn orders_for(config: Config, root: Root<Seq<u8>>, found: Found) -> Seq<
    Command<Seq<u8>>,
> {
    let target = target_at(root.source, root.base, found.path);
    match found.meta.kind {
        FileType::File => seq![
            Command::Size(found.meta.len),
            Command::Send(Operation::Copy(found.from, target)),
        ],
        FileType::Symlink => seq![Command::Send(Operation::Link(found.text, target))],
        FileType::Dir => seq![Command::CreateTargetDir(target)] + given(
            config.ownership,
            seq![Command::Chown(target, found.meta.uid, found.meta.gid)],
        ),
        _ => seq![Command::Send(Operation::Special(found.from, target))],
    }
}

/// Whether an entry can be copied: it lies within the source and is of a kind
/// that is copied.
pub open spec fn copyable(config: Config, root: Root<Seq<u8>>, found: Found) -> bool {
    &&& placed(root.source, root.base, found.path) is Some
    &&& config.dereference || found.from == found.path
    &&& found.meta.kind != FileType::Other
    &&& found.meta.kind == FileType::Block ==> config.copy_special
}

/// Where the walk stands after some events, and all that it has ordered on
/// them.
pub open spec fn carried_through(w: TreeView, events: Seq<Event<Seq<u8>>>) -> (
    TreeView,
    Seq<Command<Seq<u8>>>,
)
    decreases events.len(),
{
    if events.len() == 0 {
        (w, seq![])
    } else {
        let (before, ordered) = carried_through(w, events.drop_last());
        let (next, reply) = tree_step(before, events.last());
        (next, ordered + reply.commands)
    }
}

proof fn lemma_carried_through_split(
    w: TreeView,
    a: Seq<Event<Seq<u8>>>,
    b: Seq<Event<Seq<u8>>>,
)
    ensures
        ({
            let (mid, first) = carried_through(w, a);
            let (end, second) = carried_through(mid, b);
            carried_through(w, a + b) == (end, first + second)
        }),
    decreases b.len(),
{
    let (mid, first) = carried_through(w, a);
    if b.len() == 0 {
        assert(a + b =~= a);
        assert(first + Seq::<Command<Seq<u8>>>::empty() =~= first);
    } else {
        assert((a + b).drop_last() =~= a + b.drop_last());
        lemma_carried_through_split(w, a, b.drop_last());
        let (before, second) = carried_through(mid, b.drop_last());
        let (end, reply) = tree_step(before, b.last());
        assert(first + second + reply.commands =~= first + (second + reply.commands));
    }
}

proof fn lemma_carried_through_one(w: TreeView, event: Event<Seq<u8>>)
    ensures
        carried_through(w, seq![event]) == (tree_step(w, event).0, tree_step(w, event).1.commands),
{
    assert(seq![event].drop_last() =~= seq![]);
    assert(carried_through(w, seq![]) == (w, Seq::<Command<Seq<u8>>>::empty()));
    let commands = tree_step(w, event).1.commands;
    assert(Seq::<Command<Seq<u8>>>::empty() + commands =~= commands);
}

/// An entry whose target is free leads to its own orders and no others, and
/// the walk is then ready for the next entry.
pub proof fn law_entry_leads_to_its_orders(w: TreeView, root: Root<Seq<u8>>, found: Found)
    requires
        w.phase == TreePhase::Walking(root),
        copyable(w.config, root, found),
    ensures
        carried_through(w, answers_for(w.config, found)) == (
            w,
            orders_for(w.config, root, found),
        ),
{
    let none: Seq<Event<Seq<u8>>> = seq![];
    let quiet: Seq<Command<Seq<u8>>> = seq![];
    let meeting = seq![Event::Entry(Some(found.path))];
    let resolving = if w.config.dereference {
        seq![Event::Path(found.from)]
    } else {
        none
    };
    let reading = seq![Event::Meta(Some(found.meta))];
    let checking = if w.config.no_clobber {
        seq![Event::Answer(false)]
    } else {
        none
    };
    let linking = if found.meta.kind == FileType::Symlink {
        seq![Event::Path(found.text)]
    } else {
        none
    };
    let target = target_at(root.source, root.base, found.path);
    let e = Entry { from: found.from, target, meta: found.meta };
    let orders = orders_for(w.config, root, found);

    let met = carried_through(w, meeting).0;
    lemma_carried_through_one(w, meeting[0]);
    let ready = TreeView { phase: TreePhase::Reading(root, found.path, found.from), ..w };
    lemma_carried_through_split(w, meeting, resolving);
    lemma_carried_through_one(met, Event::Path(found.from));
    assert(carried_through(met, none) == (met, quiet));
    assert(carried_through(w, meeting + resolving) == (ready, quiet + quiet));
    assert(quiet + quiet =~= quiet);

    lemma_carried_through_split(w, meeting + resolving, reading);
    lemma_carried_through_one(ready, reading[0]);
    let (read, first) = carried_through(w, meeting + resolving + reading);
    let after_read = tree_step(ready, reading[0]);
    assert(quiet + after_read.1.commands =~= after_read.1.commands);

    lemma_carried_through_split(w, meeting + resolving + reading, checking);
    lemma_carried_through_one(read, Event::Answer(false));
    assert(carried_through(read, none) == (read, quiet));
    let (free, second) = carried_through(w, meeting + resolving + reading + checking);
    assert(first + quiet =~= first);
    assert((free, second) == (tree_entry(w, root, e).0, tree_entry(w, root, e).1.commands)) by {
        assert(quiet + tree_entry(w, root, e).1.commands =~= tree_entry(w, root, e).1.commands);
    }

    lemma_carried_through_split(w, meeting + resolving + reading + checking, linking);
    lemma_carried_through_one(free, Event::Path(found.text));
    assert(carried_through(free, none) == (free, quiet));
    assert(orders + quiet =~= orders);
    assert(quiet + orders =~= orders);
}

/// The answers for a list of entries.
pub open spec fn answers_for_all(config: Config, list: Seq<Found>) -> Seq<Event<Seq<u8>>>
    decreases list.len(),
{
    if list.len() == 0 {
        seq![]
    } else {
        answers_for_all(config, list.drop_last()) + answers_for(config, list.last())
    }
}

/// What a list of entries is copied by.
pub open spec fn orders_for_all(config: Config, root: Root<Seq<u8>>, list: Seq<Found>) -> Seq<
    Command<Seq<u8>>,
>
    decreases list.len(),
{
    if list.len() == 0 {
        seq![]
    } else {
        orders_for_all(config, root, list.drop_last()) + orders_for(config, root, list.last())
    }
}

/// A source is copied entry by entry, in the order of its walk: every entry
/// leads to its orders once, and nothing else is ordered.
pub proof fn law_source_is_copied_entry_by_entry(
    w: TreeView,
    root: Root<Seq<u8>>,
    list: Seq<Found>,
)
    requires
        w.phase == TreePhase::Walking(root),
        forall|i: int| 0 <= i < list.len() ==> copyable(w.config, root, #[trigger] list[i]),
    ensures
        carried_through(w, answers_for_all(w.config, list)) == (
            w,
            orders_for_all(w.config, root, list),
        ),
    decreases list.len(),
{
    if list.len() > 0 {
        let front = list.drop_last();
        assert forall|i: int| 0 <= i < front.len() implies copyable(
            w.config,
            root,
            #[trigger] front[i],
        ) by {
            assert(front[i] == list[i]);
        }
        law_source_is_copied_entry_by_entry(w, root, front);
        assert(copyable(w.config, root, list[list.len() - 1]));
        law_entry_leads_to_its_orders(w, root, list.last());
        lemma_carried_through_split(
            w,
            answers_for_all(w.config, front),
            answers_for(w.config, list.last()),
        );
    }
}

/// Whether the walk meets directories before what they hold: every entry below
/// the top of the source lies in an earlier one, a directory.
pub open spec fn holders_first(root: Root<Seq<u8>>, list: Seq<Found>) -> bool {
    forall|i: int|
        0 <= i < list.len() && components((#[trigger] list[i]).path).len() > components(
            root.source,
        ).len() ==> exists|j: int|
            0 <= j < i && holds(#[trigger] list[j], components(list[i].path))
}

/// Whether an entry is the directory that holds the given path.
pub open spec fn holds(found: Found, path: Seq<Seq<u8>>) -> bool {
    found.meta.kind == FileType::Dir && components(found.path) == path.drop_last()
}

/// Whether a command creates the directory that holds the given path.
pub open spec fn creates_holder(c: Command<Seq<u8>>, path: Seq<Seq<u8>>) -> bool {
    match c {
        Command::CreateTargetDir(dir) => components(dir) == path.drop_last(),
        _ => false,
    }
}

/// The order that creates the target of a directory.
proof fn lemma_directory_is_created(
    config: Config,
    root: Root<Seq<u8>>,
    list: Seq<Found>,
    j: int,
) -> (b: int)
    requires
        0 <= j < list.len(),
        list[j].meta.kind == FileType::Dir,
    ensures
        0 <= b < orders_for_all(config, root, list).len(),
        orders_for_all(config, root, list)[b] == Command::CreateTargetDir(
            target_at(root.source, root.base, list[j].path),
        ),
    decreases list.len(),
{
    let front = list.drop_last();
    let before = orders_for_all(config, root, front);
    let last = orders_for(config, root, list.last());
    if j == list.len() - 1 {
        assert((before + last)[before.len() as int] == last[0]);
        before.len() as int
    } else {
        assert(front[j] == list[j]);
        let b = lemma_directory_is_created(config, root, front, j);
        assert((before + last)[b] == before[b]);
        b
    }
}

/// A path within a base is the base and what lies below it.
proof fn lemma_base_and_below(p: Seq<Seq<u8>>, base: Seq<Seq<u8>>)
    requires
        within(p, base),
    ensures
        p == base + below(p, base),
        p.len() == base.len() + below(p, base).len(),
{
    assert(p =~= p.take(base.len() as int) + p.skip(base.len() as int));
}

/// What holds a path below a base lies there where the path lies, less its
/// last name.
proof fn lemma_below_holder(p: Seq<Seq<u8>>, base: Seq<Seq<u8>>)
    requires
        p.len() > base.len(),
    ensures
        below(p.drop_last(), base) == below(p, base).drop_last(),
{
    assert(below(p.drop_last(), base) =~= below(p, base).drop_last());
}

/// The target of what an entry lies in is what the target of the entry lies
/// in.
proof fn lemma_target_of_holder(root: Root<Seq<u8>>, found: Found, holder: Found)
    requires
        components(root.source).len() > 0,
        placed(root.source, root.base, found.path) is Some,
        placed(root.source, root.base, holder.path) is Some,
        components(found.path).len() > components(root.source).len(),
        holds(holder, components(found.path)),
    ensures
        components(target_at(root.source, root.base, holder.path)) == components(
            target_at(root.source, root.base, found.path),
        ).drop_last(),
{
    let s = components(root.source);
    let d = components(root.base);
    let p = components(found.path);
    let t = components(target_at(root.source, root.base, found.path));
    let h = components(target_at(root.source, root.base, holder.path));
    assert(within(t, d) && below(t, d) == below(p, s)) by {
        law_targets_lie_within_base(root.source, root.base, found.path);
    }
    assert(within(h, d) && below(h, d) == below(p.drop_last(), s)) by {
        law_targets_lie_within_base(root.source, root.base, holder.path);
    }
    lemma_below_holder(p, s);
    lemma_base_and_below(t, d);
    lemma_base_and_below(h, d);
    let x = below(t, d);
    assert(x.len() > 0);
    assert((d + x).drop_last() =~= d + x.drop_last());
}

/// What is true of a walk is true of its beginning.
proof fn lemma_beginning_of_walk(config: Config, root: Root<Seq<u8>>, list: Seq<Found>)
    requires
        list.len() > 0,
        forall|i: int| 0 <= i < list.len() ==> copyable(config, root, #[trigger] list[i]),
        holders_first(root, list),
    ensures
        forall|i: int|
            0 <= i < list.drop_last().len() ==> copyable(
                config,
                root,
                #[trigger] list.drop_last()[i],
            ),
        holders_first(root, list.drop_last()),
{
    let front = list.drop_last();
    assert forall|i: int| 0 <= i < front.len() implies copyable(
        config,
        root,
        #[trigger] front[i],
    ) by {
        assert(front[i] == list[i]);
    }
    assert forall|i: int|
        0 <= i < front.len() && components((#[trigger] front[i]).path).len() > components(
            root.source,
        ).len() implies exists|j: int|
        0 <= j < i && holds(#[trigger] front[j], components(front[i].path)) by {
        assert(front[i] == list[i]);
        let j = choose|j: int| 0 <= j < i && holds(#[trigger] list[j], components(list[i].path));
        assert(front[j] == list[j]);
    }
}

/// What an entry is copied by changes its target only.
proof fn lemma_orders_change_the_target(
    config: Config,
    root: Root<Seq<u8>>,
    found: Found,
    a: int,
)
    requires
        0 <= a < orders_for(config, root, found).len(),
        changes(orders_for(config, root, found)[a]) is Some,
    ensures
        changes(orders_for(config, root, found)[a]) == Some(
            target_at(root.source, root.base, found.path),
        ),
{
}

/// An entry whose target is not the base lies below the top of the source.
proof fn lemma_lies_below_the_top(root: Root<Seq<u8>>, found: Found)
    requires
        components(root.source).len() > 0,
        placed(root.source, root.base, found.path) is Some,
        components(target_at(root.source, root.base, found.path)) != components(root.base),
    ensures
        components(found.path).len() > components(root.source).len(),
{
    let s = components(root.source);
    let d = components(root.base);
    let t = components(target_at(root.source, root.base, found.path));
    law_targets_lie_within_base(root.source, root.base, found.path);
    lemma_base_and_below(t, d);
    if below(t, d).len() == 0 {
        assert(t =~= d);
    }
}

/// The directory that is to hold the target of the last entry of a walk is
/// created by an order for an earlier one.
proof fn lemma_holder_of_last(config: Config, root: Root<Seq<u8>>, list: Seq<Found>) -> (b: int)
    requires
        list.len() > 0,
        components(root.source).len() > 0,
        forall|i: int| 0 <= i < list.len() ==> copyable(config, root, #[trigger] list[i]),
        holders_first(root, list),
        components(target_at(root.source, root.base, list.last().path)) != components(root.base),
    ensures
        0 <= b < orders_for_all(config, root, list.drop_last()).len(),
        creates_holder(
            orders_for_all(config, root, list.drop_last())[b],
            components(target_at(root.source, root.base, list.last().path)),
        ),
{
    let front = list.drop_last();
    let end = list.len() - 1;
    let last = list[end];
    assert(copyable(config, root, last));
    lemma_lies_below_the_top(root, last);
    let j = choose|j: int| 0 <= j < end && holds(#[trigger] list[j], components(list[end].path));
    assert(copyable(config, root, list[j]));
    lemma_target_of_holder(root, last, list[j]);
    assert(front[j] == list[j]);
    lemma_directory_is_created(config, root, front, j)
}

proof fn lemma_holder_is_created_first(
    config: Config,
    root: Root<Seq<u8>>,
    list: Seq<Found>,
    a: int,
) -> (b: int)
    requires
        components(root.source).len() > 0,
        forall|i: int| 0 <= i < list.len() ==> copyable(config, root, #[trigger] list[i]),
        holders_first(root, list),
        0 <= a < orders_for_all(config, root, list).len(),
        changes(orders_for_all(config, root, list)[a]) is Some,
        components(changes(orders_for_all(config, root, list)[a])->0) != components(root.base),
    ensures
        0 <= b < a,
        creates_holder(
            orders_for_all(config, root, list)[b],
            components(changes(orders_for_all(config, root, list)[a])->0),
        ),
    decreases list.len(),
{
    let front = list.drop_last();
    let before = orders_for_all(config, root, front);
    let orders = orders_for_all(config, root, list);
    lemma_beginning_of_walk(config, root, list);
    let b = if a < before.len() {
        assert(orders[a] == before[a]);
        lemma_holder_is_created_first(config, root, front, a)
    } else {
        assert(orders[a] == orders_for(config, root, list.last())[a - before.len()]);
        lemma_orders_change_the_target(config, root, list.last(), a - before.len());
        lemma_holder_of_last(config, root, list)
    };
    assert(orders[b] == before[b]);
    b
}

/// Where directories are walked before what they hold, nothing is ordered to
/// be written below the base before the order to create the directory that is
/// to hold it.
pub proof fn law_holders_are_created_first(
    w: TreeView,
    root: Root<Seq<u8>>,
    list: Seq<Found>,
    a: int,
)
    requires
        w.phase == TreePhase::Walking(root),
        components(root.source).len() > 0,
        forall|i: int| 0 <= i < list.len() ==> copyable(w.config, root, #[trigger] list[i]),
        holders_first(root, list),
        ({
            let orders = carried_through(w, answers_for_all(w.config, list)).1;
            &&& 0 <= a < orders.len() && changes(orders[a]) is Some
            &&& components(changes(orders[a])->0) != components(root.base)
        }),
    ensures
        ({
            let orders = carried_through(w, answers_for_all(w.config, list)).1;
            exists|b: int|
                0 <= b < a && creates_holder(
                    #[trigger] orders[b],
                    components(changes(orders[a])->0),
                )
        }),
{
    law_source_is_copied_entry_by_entry(w, root, list);
    let orders = carried_through(w, answers_for_all(w.config, list)).1;
    let b = lemma_holder_is_created_first(w.config, root, list, a);
    assert(creates_holder(orders[b], components(changes(orders[a])->0)));
}

/// What the walk waits to have answered.
pub open spec fn tree_pending(w: TreeView) -> Option<Query<Seq<u8>>> {
    match w.phase {
        TreePhase::Ready => None,
        TreePhase::Placing(_, _) => Some(Query::IsDir(w.dest)),
        TreePhase::Opening(root) => Some(Query::BeginWalk(root.source)),
        TreePhase::Walking(_) => Some(Query::NextEntry),
        TreePhase::Resolving(_, path) => Some(Query::Canonicalize(path)),
        TreePhase::Reading(_, _, from) => Some(Query::SourceMeta(from)),
        TreePhase::Checking(_, e) => Some(Query::Exists(e.target)),
        TreePhase::Linking(_, e) => Some(Query::ReadLink(e.from)),
        TreePhase::Done => None,
    }
}

/// The walk asks what it waits for, and takes every answer to that and no
/// other event.
pub proof fn law_walk_asks_what_it_waits_for(w: TreeView, event: Event<Seq<u8>>)
    ensures
        ({
            let (next, reply) = tree_step(w, event);
            &&& reply.next matches Next::Ask(query) ==> tree_pending(next) == Some(query)
            &&& w.phase is Ready ==> (reply.next is OutOfTurn <==> !(event is Begin))
            &&& tree_pending(w) matches Some(query) ==> (reply.next is OutOfTurn <==> !answers(
                query,
                event,
            ))
        }),
{
}

/// Once an entry has been met it is read, where it leads if symlinks are to be
/// followed and where it was met if not.
pub proof fn law_entries_are_read_where_they_lead(
    w: TreeView,
    root: Root<Seq<u8>>,
    path: Seq<u8>,
    from: Seq<u8>,
)
    requires
        w.phase == TreePhase::Walking(root),
    ensures
        ({
            let met = tree_step(w, Event::Entry(Some(path)));
            let led = tree_step(met.0, Event::Path(from));
            &&& met.1.commands.len() == 0
            &&& !w.config.dereference ==> met.0.phase == TreePhase::Reading(root, path, path)
            &&& w.config.dereference ==> met.0.phase == TreePhase::Resolving(root, path)
            &&& w.config.dereference ==> led.1.commands.len() == 0 && led.0.phase
                == TreePhase::Reading(root, path, from)
        }),
{
}

/// Once an entry has been read, whatever its kind, the walk ends with an error
/// exactly if the entry lies outside the source and otherwise, with no-clobber
/// set, asks whether the entry's target exists, before anything is ordered.
/// Without no-clobber it does at once what it does with it for a free target.
pub proof fn law_target_is_asked_for_first(
    w: TreeView,
    root: Root<Seq<u8>>,
    path: Seq<u8>,
    from: Seq<u8>,
    meta: Metadata,
)
    requires
        w.phase == TreePhase::Reading(root, path, from),
        components(root.source).len() > 0,
    ensures
        ({
            let (next, reply) = tree_step(w, Event::Meta(Some(meta)));
            let target = target_at(root.source, root.base, path);
            let e = Entry { from, target, meta };
            let checking = TreeView { phase: TreePhase::Checking(root, e), ..w };
            if !inside(path, root.source) {
                &&& reply.commands.len() == 0
                &&& reply.next == Next::<Seq<u8>>::Failed(XcpError::OutsideSource)
            } else {
                &&& below(components(target), components(root.base)) == below(
                    components(path),
                    components(root.source),
                ) && inside(target, root.base)
                &&& w.config.no_clobber ==> next == checking && reply.commands.len() == 0
                    && reply.next == Next::<Seq<u8>>::Ask(Query::Exists(target))
                &&& !w.config.no_clobber ==> (next, reply) == tree_step(
                    checking,
                    Event::Answer(false),
                )
            }
        }),
{
    law_entries_of_the_source_are_placed(root.source, root.base, path);
    if inside(path, root.source) {
        law_targets_lie_within_base(root.source, root.base, path);
    }
}

/// What an entry whose target is free is copied by, by its kind: a file by an
/// announcement of its size and a copy, a directory by its creation, with its
/// owner where owners are copied, a special file by a file like it, all
/// without a further question; a symlink is asked for what it holds. Block
/// devices are refused unless special files are asked for, unknown kinds
/// always.
pub proof fn law_free_entry_is_copied_as_what_it_is(
    w: TreeView,
    root: Root<Seq<u8>>,
    e: Entry<Seq<u8>>,
)
    requires
        w.phase == TreePhase::Checking(root, e),
    ensures
        ({
            let (next, reply) = tree_step(w, Event::Answer(false));
            let commands = reply.commands;
            let kind = e.meta.kind;
            let refused = kind == FileType::Other || (kind == FileType::Block
                && !w.config.copy_special);
            &&& refused <==> reply.next is Failed
            &&& refused ==> commands.len() == 0 && reply.next == Next::<Seq<u8>>::Failed(
                XcpError::UnknownFileType(e.target),
            )
            &&& kind == FileType::Symlink <==> next.phase is Linking
            &&& kind == FileType::Symlink ==> commands.len() == 0 && next.phase
                == TreePhase::Linking(root, e)
            &&& !refused && kind != FileType::Symlink ==> next.phase == TreePhase::Walking(root)
            &&& kind == FileType::File ==> {
                &&& commands.len() == 2
                &&& commands[0] == Command::<Seq<u8>>::Size(e.meta.len)
                &&& commands[1] == Command::Send(Operation::Copy(e.from, e.target))
            }
            &&& kind == FileType::Dir ==> {
                &&& commands.len() == if w.config.ownership {
                    2int
                } else {
                    1int
                }
                &&& commands[0] == Command::CreateTargetDir(e.target)
                &&& w.config.ownership ==> commands[1] == Command::Chown(
                    e.target,
                    e.meta.uid,
                    e.meta.gid,
                )
            }
            &&& !refused && kind != FileType::File && kind != FileType::Dir && kind
                != FileType::Symlink ==> commands.len() == 1 && commands[0] == Command::Send(
                Operation::Special(e.from, e.target),
            )
        }),
{
}

/// A symlink is copied as a symlink that holds the same text.
pub proof fn law_symlink_is_copied_as_it_is(
    w: TreeView,
    root: Root<Seq<u8>>,
    e: Entry<Seq<u8>>,
    text: Seq<u8>,
)
    requires
        w.phase == TreePhase::Linking(root, e),
    ensures
        ({
            let (next, reply) = tree_step(w, Event::Path(text));
            &&& next.phase == TreePhase::Walking(root)
            &&& reply.commands.len() == 1
            &&& reply.commands[0] == Command::Send(Operation::Link(text, e.target))
        }),
{
}

/// The sources whose walks a run has asked for in the course of some events.
pub open spec fn walks_asked(w: TreeView, events: Seq<Event<Seq<u8>>>) -> Seq<Seq<u8>>
    decreases events.len(),
{
    if events.len() == 0 {
        seq![]
    } else {
        let front = events.drop_last();
        match tree_step(tree_reached(w, front), events.last()).1.next {
            Next::Ask(Query::BeginWalk(path)) => walks_asked(w, front).push(path),
            _ => walks_asked(w, front),
        }
    }
}

/// Whether the walks asked for are those of the sources taken up so far, but
/// for the one whose base is still to be found.
pub open spec fn in_turn(
    sources: Seq<Seq<u8>>,
    dest: Seq<u8>,
    config: Config,
    w: TreeView,
    asked: Seq<Seq<u8>>,
) -> bool {
    &&& w.sources == sources && w.dest == dest && w.config == config
    &&& w.started <= sources.len()
    &&& match w.phase {
        TreePhase::Ready => w.started == 0 && asked.len() == 0,
        TreePhase::Placing(source, name) => {
            &&& w.started > 0 && source == sources[w.started - 1]
            &&& components(source).len() > 0 && name == components(source).last()
            &&& asked == sources.take(w.started - 1)
        },
        TreePhase::Done => asked.len() <= sources.len() && asked == sources.take(
            asked.len() as int,
        ),
        _ => {
            &&& w.started > 0 && asked == sources.take(w.started as int)
            &&& root_of(w.phase)->0.source == sources[w.started - 1]
            &&& components(sources[w.started - 1]).len() > 0
        },
    }
}

proof fn lemma_run_is_in_turn(
    sources: Seq<Seq<u8>>,
    dest: Seq<u8>,
    config: Config,
    events: Seq<Event<Seq<u8>>>,
)
    ensures
        ({
            let w = tree_start(sources, dest, config);
            in_turn(sources, dest, config, tree_reached(w, events), walks_asked(w, events))
        }),
    decreases events.len(),
{
    if events.len() > 0 {
        let front = events.drop_last();
        lemma_run_is_in_turn(sources, dest, config, front);
        let w = tree_start(sources, dest, config);
        let before = tree_reached(w, front);
        let n = before.started as int;
        if before.phase is Placing {
            assert(sources.take(n) =~= sources.take(n - 1).push(sources[n - 1]));
        }
        if before.phase is Ready {
            assert(walks_asked(w, front) =~= sources.take(0));
        }
        assert(sources.take(sources.len() as int) =~= sources);
    }
}

/// From its beginning, whatever it is told, a run walks the sources it was
/// given, one after the other in their order, and it is complete only when it
/// has walked them all.
pub proof fn law_every_source_is_walked(
    sources: Seq<Seq<u8>>,
    dest: Seq<u8>,
    config: Config,
    events: Seq<Event<Seq<u8>>>,
)
    requires
        events.len() > 0,
    ensures
        ({
            let w = tree_start(sources, dest, config);
            let asked = walks_asked(w, events);
            let reply = tree_step(tree_reached(w, events.drop_last()), events.last()).1;
            &&& asked.len() <= sources.len() && asked == sources.take(asked.len() as int)
            &&& reply.next is Finished ==> asked == sources
        }),
{
    let w = tree_start(sources, dest, config);
    let front = events.drop_last();
    lemma_run_is_in_turn(sources, dest, config, front);
    lemma_run_is_in_turn(sources, dest, config, events);
    let reached = tree_reached(w, events);
    let asked = walks_asked(w, events);
    let n = reached.started as int;
    if reached.phase is Placing {
        assert(asked.len() == n - 1);
    }
    if reached.phase is Ready {
        assert(asked =~= sources.take(0));
    }
    let before = tree_reached(w, front);
    if before.phase is Ready {
        assert(walks_asked(w, front) =~= sources.take(0));
    }
    assert(sources.take(sources.len() as int) =~= sources);
}

/// A source is copied to the destination itself, or, where the destination is
/// a directory and that is not ruled out, below it under the source's own
/// name. The root of the file system has no name to be copied under, nor has
/// the current directory.
pub proof fn law_source_goes_to_its_base(
    sources: Seq<Seq<u8>>,
    dest: Seq<u8>,
    config: Config,
    events: Seq<Event<Seq<u8>>>,
    is_dir: bool,
)
    requires
        tree_reached(tree_start(sources, dest, config), events).phase is Placing,
    ensures
        ({
            let w = tree_reached(tree_start(sources, dest, config), events);
            let (next, reply) = tree_step(w, Event::Answer(is_dir));
            let source = sources[w.started - 1];
            let name = components(source).last();
            &&& 0 < w.started <= sources.len() && components(source).len() > 0
            &&& reply.commands.len() == 0
            &&& next.phase matches TreePhase::Opening(root) && root.source == source && {
                &&& config.no_target_directory || !is_dir ==> root.base == dest
                &&& !config.no_target_directory && is_dir ==> {
                    &&& plain_name(name) ==> components(root.base) == components(dest).push(name)
                    &&& name == root_component() ==> root.base == name
                    &&& name == dot_component() && dest.len() > 0 ==> components(root.base)
                        == components(dest)
                }
            }
        }),
{
    let w = tree_reached(tree_start(sources, dest, config), events);
    lemma_run_is_in_turn(sources, dest, config, events);
    let name = components(sources[w.started - 1]).last();
    if plain_name(name) {
        let list = seq![name];
        assert(list.drop_last() =~= seq![]);
        assert(text_of(seq![]) =~= seq![]);
        assert(text_of(list) =~= name);
        lemma_components_of_text(list);
        law_join_adds_names(dest, name);
        assert(components(dest) + list =~= components(dest).push(name));
    }
    if name == dot_component() && dest.len() > 0 {
        lemma_components_joined(dest, name);
        lemma_names_of_dot();
        assert(components(joined(dest, name)) =~= components(dest));
    }
}

/// Why a run of copies ends with an error: a source has no name, an entry lies
/// outside its source or is of a kind that is not copied, or something exists
/// where nothing may be written over. There is no other reason, and none of
/// these is passed over.
pub proof fn law_why_a_copy_fails(w: TreeView, event: Event<Seq<u8>>)
    ensures
        ({
            let next = tree_step(w, event).1.next;
            let between = w.phase is Ready && event is Begin || w.phase is Walking && event is End;
            let nameless = w.started < w.sources.len() && components(
                w.sources[w.started as int],
            ).len() == 0;
            &&& next == Next::<Seq<u8>>::Failed(XcpError::InvalidSource) <==> between && nameless
            &&& next == Next::<Seq<u8>>::Failed(XcpError::OutsideSource) <==> {
                w.phase matches TreePhase::Reading(root, path, _) && event matches Event::Meta(
                    Some(_),
                ) && !inside(path, root.source)
            }
            &&& next == Next::<Seq<u8>>::Failed(XcpError::EarlyShutdown) <==> w.phase is Checking
                && event == Event::<Seq<u8>>::Answer(true)
            &&& next matches Next::Failed(error) ==> error is InvalidSource
                || error is OutsideSource || error is EarlyShutdown || error is UnknownFileType
        }),
{
    match w.phase {
        TreePhase::Reading(root, path, _) => {
            law_entries_of_the_source_are_placed(root.source, root.base, path);
        },
        _ => {},
    }
}

/// A source is read and written at the same places throughout its walk.
pub proof fn law_root_stays_the_same(w: TreeView, event: Event<Seq<u8>>)
    ensures
        ({
            let next = tree_step(w, event).0;
            root_of(w.phase) is Some && root_of(next.phase) is Some ==> root_of(next.phase)
                == root_of(w.phase)
        }),
{
}

} // verus!
