//! Carrying timestamps and permissions over to the directories of a mirror,
//! once nothing more is written into them.

use vstd::prelude::*;

use crate::config::Config;
use crate::entry::{
    law_targets_lie_within_base, law_targets_nest_like_entries, place, placed, target_at,
};
use crate::metadata::{FileType, Metadata};
use crate::path::{below, components, inside, PathBuf};
use crate::protocol::{
    add_command, answers, ask, changes, commands_of, finished, given, no_commands, out_of_turn,
    reply, replying, Command, Event, Next, Query, Reply, ReplyView,
};

verus! {

/// What the walk waits for.
pub enum StampPhase<P = PathBuf> {
    /// The start of the run.
    Ready,
    /// The walk of the source to begin.
    Opening,
    /// The next entry.
    Walking,
    /// The metadata of the entry.
    Reading(P),
    /// Whether the target of the directory is a directory too.
    Checking(P, P),
    /// Whether both directories can be opened.
    Holding(P, P),
    /// Nothing: the run is over.
    Done,
}

impl View for StampPhase<PathBuf> {
    type V = StampPhase<Seq<u8>>;

    open spec fn view(&self) -> StampPhase<Seq<u8>> {
        match self {
            StampPhase::Ready => StampPhase::Ready,
            StampPhase::Opening => StampPhase::Opening,
            StampPhase::Walking => StampPhase::Walking,
            StampPhase::Reading(p) => StampPhase::Reading(p@),
            StampPhase::Checking(p, t) => StampPhase::Checking(p@, t@),
            StampPhase::Holding(p, t) => StampPhase::Holding(p@, t@),
            StampPhase::Done => StampPhase::Done,
        }
    }
}

/// A walk of the source's directories, what is held before its holders.
pub struct StampWalk {
    source: PathBuf,
    dest: PathBuf,
    config: Config,
    phase: StampPhase,
}

/// What is known in the course of a walk.
pub ghost struct StampView {
    pub source: Seq<u8>,
    pub dest: Seq<u8>,
    pub config: Config,
    pub phase: StampPhase<Seq<u8>>,
}

impl View for StampWalk {
    type V = StampView;

    closed spec fn view(&self) -> StampView {
        StampView {
            source: self.source@,
            dest: self.dest@,
            config: self.config,
            phase: self.phase@,
        }
    }
}

/// Waits in the given phase for an answer.
pub open spec fn stamp_ask(
    w: StampView,
    phase: StampPhase<Seq<u8>>,
    query: Query<Seq<u8>>,
) -> (StampView, ReplyView) {
    (StampView { phase, ..w }, replying(seq![], Next::Ask(query)))
}

/// Carries out commands and goes on to the next entry.
pub open spec fn stamp_go_on(w: StampView, commands: Seq<Command<Seq<u8>>>) -> (
    StampView,
    ReplyView,
) {
    (
        StampView { phase: StampPhase::Walking, ..w },
        replying(commands, Next::Ask(Query::NextOfContents)),
    )
}

/// Ends the run.
pub open spec fn stamp_finish(w: StampView) -> (StampView, ReplyView) {
    (StampView { phase: StampPhase::Done, ..w }, replying(seq![], Next::Finished))
}

/// What a directory of the destination is given of its counterpart.
pub open spec fn stamp_commands(config: Config, path: Seq<u8>, target: Seq<u8>) -> Seq<
    Command<Seq<u8>>,
> {
    given(!config.no_perms, seq![Command::CopyPermissions(path, target)]) + given(
        !config.no_timestamps,
        seq![Command::CopyTimestamps(path, target)],
    )
}

/// What the walk does with an entry, given its metadata.
pub open spec fn stamp_entry(w: StampView, path: Seq<u8>, found: Option<Metadata>) -> (
    StampView,
    ReplyView,
) {
    if found is Some && found->0.kind == FileType::Dir {
        match placed(w.source, w.dest, path) {
            Some((_, target)) => stamp_ask(
                w,
                StampPhase::Checking(path, target),
                Query::IsDir(target),
            ),
            None => stamp_go_on(w, seq![]),
        }
    } else {
        stamp_go_on(w, seq![])
    }
}

/// A walk that has not begun.
pub open spec fn stamp_start(source: Seq<u8>, dest: Seq<u8>, config: Config) -> StampView {
    StampView { source, dest, config, phase: StampPhase::Ready }
}

/// What the walk does on an event.
pub open spec fn stamp_step(w: StampView, event: Event<Seq<u8>>) -> (StampView, ReplyView) {
    match (w.phase, event) {
        (StampPhase::Ready, Event::Begin) => if w.config.no_timestamps && w.config.no_perms {
            stamp_finish(w)
        } else {
            stamp_ask(w, StampPhase::Opening, Query::BeginContentsFirst(w.source))
        },
        (StampPhase::Opening, Event::Begun) => stamp_go_on(w, seq![]),
        (StampPhase::Walking, Event::Entry(Some(path))) => stamp_ask(
            w,
            StampPhase::Reading(path),
            Query::Lstat(path),
        ),
        (StampPhase::Walking, Event::Entry(None)) => stamp_go_on(w, seq![]),
        (StampPhase::Walking, Event::End) => stamp_finish(w),
        (StampPhase::Reading(path), Event::Meta(found)) => stamp_entry(w, path, found),
        (StampPhase::Checking(path, target), Event::Answer(is_dir)) => if is_dir {
            stamp_ask(w, StampPhase::Holding(path, target), Query::OpenDirs(path, target))
        } else {
            stamp_go_on(w, seq![])
        },
        (StampPhase::Holding(path, target), Event::Answer(opened)) => stamp_go_on(
            w,
            given(opened, stamp_commands(w.config, path, target)),
        ),
        _ => (w, replying(seq![], Next::OutOfTurn)),
    }
}

impl StampWalk {
    /// A walk that has not begun.
    pub fn new(source: PathBuf, dest: PathBuf, config: Config) -> (res: StampWalk)
        ensures
            res@ == stamp_start(source@, dest@, config),
    {
        StampWalk { source, dest, config, phase: StampPhase::Ready }
    }

    fn waiting(self, phase: StampPhase, query: Query) -> (res: (StampWalk, Reply))
        ensures
            (res.0@, res.1@) == stamp_ask(self@, phase@, query@),
    {
        (StampWalk { phase, ..self }, ask(query))
    }

    fn go_on(self, commands: Vec<Command>) -> (res: (StampWalk, Reply))
        ensures
            (res.0@, res.1@) == stamp_go_on(self@, commands_of(commands@)),
    {
        (
            StampWalk { phase: StampPhase::Walking, ..self },
            reply(commands, Next::Ask(Query::NextOfContents)),
        )
    }

    fn finish(self) -> (res: (StampWalk, Reply))
        ensures
            (res.0@, res.1@) == stamp_finish(self@),
    {
        (StampWalk { phase: StampPhase::Done, ..self }, finished())
    }

    fn entry(self, path: PathBuf, found: Option<Metadata>) -> (res: (StampWalk, Reply))
        ensures
            (res.0@, res.1@) == stamp_entry(self@, path@, found),
    {
        let is_dir = match found {
            Some(meta) => meta.kind == FileType::Dir,
            None => false,
        };
        if !is_dir {
            return self.go_on(no_commands());
        }
        match place(&self.source, &self.dest, &path) {
            Some((_, target)) => {
                let asked = target.clone();
                self.waiting(StampPhase::Checking(path, target), Query::IsDir(asked))
            },
            None => self.go_on(no_commands()),
        }
    }

    fn stamp(self, path: PathBuf, target: PathBuf, opened: bool) -> (res: (StampWalk, Reply))
        ensures
            (res.0@, res.1@) == stamp_go_on(
                self@,
                given(opened, stamp_commands(self@.config, path@, target@)),
            ),
    {
        let mut commands = no_commands();
        if opened {
            if !self.config.no_perms {
                add_command(
                    &mut commands,
                    Command::CopyPermissions(path.clone(), target.clone()),
                );
            }
            if !self.config.no_timestamps {
                add_command(&mut commands, Command::CopyTimestamps(path, target));
            }
        }
        assert(commands_of(commands@) =~= given(
            opened,
            stamp_commands(self@.config, path@, target@),
        ));
        self.go_on(commands)
    }
}

/// Takes the walk one event further: the next state of the walk, and what
/// the driver is to do before the next event.
pub fn sync_dir_timestamps(walk: StampWalk, event: Event) -> (res: (StampWalk, Reply))
    ensures
        (res.0@, res.1@) == stamp_step(walk@, event@),
{
    let StampWalk { source, dest, config, phase } = walk;
    let idle = StampWalk { source, dest, config, phase: StampPhase::Done };
    match (phase, event) {
        (StampPhase::Ready, Event::Begin) => {
            if idle.config.no_timestamps && idle.config.no_perms {
                idle.finish()
            } else {
                let asked = idle.source.clone();
                idle.waiting(StampPhase::Opening, Query::BeginContentsFirst(asked))
            }
        },
        (StampPhase::Opening, Event::Begun) => idle.go_on(no_commands()),
        (StampPhase::Walking, Event::Entry(Some(path))) => {
            let asked = path.clone();
            idle.waiting(StampPhase::Reading(path), Query::Lstat(asked))
        },
        (StampPhase::Walking, Event::Entry(None)) => idle.go_on(no_commands()),
        (StampPhase::Walking, Event::End) => idle.finish(),
        (StampPhase::Reading(path), Event::Meta(found)) => idle.entry(path, found),
        (StampPhase::Checking(path, target), Event::Answer(is_dir)) => {
            if is_dir {
                let from = path.clone();
                let to = target.clone();
                idle.waiting(StampPhase::Holding(path, target), Query::OpenDirs(from, to))
            } else {
                idle.go_on(no_commands())
            }
        },
        (StampPhase::Holding(path, target), Event::Answer(opened)) => idle.stamp(
            path,
            target,
            opened,
        ),
        (phase, _) => (StampWalk { phase, ..idle }, out_of_turn()),
    }
}

/// Nothing is touched where neither permissions nor timestamps matter.
pub proof fn law_nothing_to_carry_over(w: StampView)
    requires
        w.phase is Ready,
        w.config.no_perms && w.config.no_timestamps,
    ensures
        stamp_step(w, Event::Begin).1.next is Finished,
        stamp_step(w, Event::Begin).1.commands.len() == 0,
{
}

/// Whether the walk is about to stamp only directories within the
/// destination.
pub open spec fn stamps_inside(w: StampView) -> bool {
    &&& w.phase matches StampPhase::Checking(_, target) ==> inside(target, w.dest)
    &&& w.phase matches StampPhase::Holding(_, target) ==> inside(target, w.dest)
}

proof fn lemma_step_stamps_inside(w: StampView, event: Event<Seq<u8>>)
    requires
        components(w.source).len() > 0,
        stamps_inside(w),
    ensures
        ({
            let (next, reply) = stamp_step(w, event);
            &&& stamps_inside(next) && next.source == w.source && next.dest == w.dest
            &&& reply.commands.len() > 0 ==> w.phase is Holding && event
                == Event::<Seq<u8>>::Answer(true)
            &&& forall|i: int|
                0 <= i < reply.commands.len() ==> {
                    let c = #[trigger] reply.commands[i];
                    &&& c is CopyPermissions || c is CopyTimestamps
                    &&& changes(c) is Some && inside(changes(c)->0, w.dest)
                }
        }),
{
    match (w.phase, event) {
        (StampPhase::Reading(path), Event::Meta(Some(_))) => {
            if placed(w.source, w.dest, path) is Some {
                law_targets_lie_within_base(w.source, w.dest, path);
            }
        },
        _ => {},
    }
}

/// Where a walk stands after some events, whatever they are.
pub open spec fn stamp_reached(w: StampView, events: Seq<Event<Seq<u8>>>) -> StampView
    decreases events.len(),
{
    if events.len() == 0 {
        w
    } else {
        stamp_step(stamp_reached(w, events.drop_last()), events.last()).0
    }
}

proof fn lemma_run_stamps_inside(w: StampView, events: Seq<Event<Seq<u8>>>)
    requires
        components(w.source).len() > 0,
        stamps_inside(w),
    ensures
        stamps_inside(stamp_reached(w, events)),
        stamp_reached(w, events).source == w.source,
        stamp_reached(w, events).dest == w.dest,
    decreases events.len(),
{
    if events.len() > 0 {
        lemma_run_stamps_inside(w, events.drop_last());
        lemma_step_stamps_inside(stamp_reached(w, events.drop_last()), events.last());
    }
}

/// Whatever the walk is told, it changes only directories within the
/// destination that it was just told are open, in their permissions and
/// timestamps alone.
pub proof fn law_only_open_directories_are_stamped(
    source: Seq<u8>,
    dest: Seq<u8>,
    config: Config,
    events: Seq<Event<Seq<u8>>>,
    event: Event<Seq<u8>>,
)
    requires
        components(source).len() > 0,
    ensures
        ({
            let w = stamp_reached(stamp_start(source, dest, config), events);
            let reply = stamp_step(w, event).1;
            &&& reply.commands.len() > 0 ==> w.phase is Holding && event
                == Event::<Seq<u8>>::Answer(true)
            &&& forall|i: int|
                0 <= i < reply.commands.len() ==> {
                    let c = #[trigger] reply.commands[i];
                    &&& c is CopyPermissions || c is CopyTimestamps
                    &&& changes(c) is Some && inside(changes(c)->0, dest)
                }
        }),
{
    let start = stamp_start(source, dest, config);
    lemma_run_stamps_inside(start, events);
    lemma_step_stamps_inside(stamp_reached(start, events), event);
}

/// A directory of the source whose target is a directory too, and can be
/// opened, has its permissions and timestamps carried over, by the options;
/// the walk is then ready for the next entry.
pub proof fn law_directory_is_stamped(w: StampView, path: Seq<u8>, meta: Metadata)
    requires
        w.phase is Walking,
        meta.kind == FileType::Dir,
        placed(w.source, w.dest, path) is Some,
    ensures
        ({
            let met = stamp_step(w, Event::Entry(Some(path)));
            let read = stamp_step(met.0, Event::Meta(Some(meta)));
            let checked = stamp_step(read.0, Event::Answer(true));
            let held = stamp_step(checked.0, Event::Answer(true));
            &&& met.1.commands.len() == 0 && read.1.commands.len() == 0
                && checked.1.commands.len() == 0
            &&& held.1.commands == stamp_commands(
                w.config,
                path,
                target_at(w.source, w.dest, path),
            )
            &&& held.0 == w
        }),
{
}

/// Whether no path of the list lies below an earlier one.
pub open spec fn contents_first(list: Seq<Seq<u8>>) -> bool {
    forall|i: int, j: int|
        #![trigger list[i], list[j]]
        0 <= i < j < list.len() ==> !(inside(list[j], list[i]) && components(list[j])
            != components(list[i]))
}

/// What is held is stamped before its holders: walked in such an order, the
/// directories of the source have targets in such an order, so that no stamp
/// disturbs an earlier one.
pub proof fn law_targets_keep_contents_first(source: Seq<u8>, dest: Seq<u8>, paths: Seq<Seq<u8>>)
    requires
        components(source).len() > 0,
        forall|i: int| 0 <= i < paths.len() ==> placed(source, dest, #[trigger] paths[i]) is Some,
        contents_first(paths),
    ensures
        contents_first(paths.map_values(|path: Seq<u8>| target_at(source, dest, path))),
{
    let targets = paths.map_values(|path: Seq<u8>| target_at(source, dest, path));
    assert forall|i: int, j: int|
        #![trigger targets[i], targets[j]]
        0 <= i < j < targets.len() implies !(inside(targets[j], targets[i]) && components(
        targets[j],
    ) != components(targets[i])) by {
        let a = paths[i];
        let b = paths[j];
        assert(targets[i] == target_at(source, dest, a));
        assert(targets[j] == target_at(source, dest, b));
        law_targets_nest_like_entries(source, dest, b, a);
        if components(a) == components(b) {
            law_targets_lie_within_base(source, dest, a);
            law_targets_lie_within_base(source, dest, b);
            let ta = components(targets[i]);
            let tb = components(targets[j]);
            let d = components(dest);
            assert(ta =~= ta.take(d.len() as int) + below(ta, d));
            assert(tb =~= tb.take(d.len() as int) + below(tb, d));
        }
    }
}

/// An event that the walk did not ask for changes nothing, and the walk never
/// fails.
pub proof fn law_stray_events_change_nothing(w: StampView, event: Event<Seq<u8>>)
    ensures
        ({
            let (next, reply) = stamp_step(w, event);
            &&& reply.next is OutOfTurn ==> next == w && reply.commands.len() == 0
            &&& w.phase is Done ==> reply.next is OutOfTurn
            &&& !(reply.next is Failed)
            &&& reply.delete.len() == 0 && reply.verify.len() == 0
        }),
{
}

/// An entry of the source, with all that the walk is told of it.
pub ghost struct Walked {
    /// The path, where it could be read.
    pub path: Option<Seq<u8>>,
    /// The metadata, where they could be read.
    pub found: Option<Metadata>,
    /// Whether the target is a directory.
    pub mirrored: bool,
    /// Whether both directories could be opened.
    pub opened: bool,
}

/// Whether the entry is a directory within the source.
pub open spec fn is_directory(source: Seq<u8>, dest: Seq<u8>, e: Walked) -> bool {
    &&& e.path is Some && e.found is Some && e.found->0.kind == FileType::Dir
    &&& placed(source, dest, e.path->0) is Some
}

/// Whether the entry is a directory that could be opened along with its
/// target.
pub open spec fn is_open(source: Seq<u8>, dest: Seq<u8>, e: Walked) -> bool {
    is_directory(source, dest, e) && e.mirrored && e.opened
}

/// The answers that the walk gets for an entry.
pub open spec fn stamp_answers(source: Seq<u8>, dest: Seq<u8>, e: Walked) -> Seq<
    Event<Seq<u8>>,
> {
    let meeting = seq![Event::Entry(e.path)];
    if e.path is None {
        meeting
    } else if !is_directory(source, dest, e) {
        meeting + seq![Event::Meta(e.found)]
    } else if !e.mirrored {
        meeting + seq![Event::Meta(e.found)] + seq![Event::Answer(false)]
    } else {
        meeting + seq![Event::Meta(e.found)] + seq![Event::Answer(true)] + seq![
            Event::Answer(e.opened),
        ]
    }
}

/// What an entry is stamped by: a directory that could be opened is stamped by
/// the options, and nothing else is.
pub open spec fn stamps_for(config: Config, source: Seq<u8>, dest: Seq<u8>, e: Walked) -> Seq<
    Command<Seq<u8>>,
> {
    if is_open(source, dest, e) {
        stamp_commands(config, e.path->0, target_at(source, dest, e.path->0))
    } else {
        seq![]
    }
}

/// The answers for a list of entries.
pub open spec fn stamp_answers_for_all(
    source: Seq<u8>,
    dest: Seq<u8>,
    list: Seq<Walked>,
) -> Seq<Event<Seq<u8>>>
    decreases list.len(),
{
    if list.len() == 0 {
        seq![]
    } else {
        stamp_answers_for_all(source, dest, list.drop_last()) + stamp_answers(
            source,
            dest,
            list.last(),
        )
    }
}

/// What a list of entries is stamped by.
pub open spec fn stamps_for_all(
    config: Config,
    source: Seq<u8>,
    dest: Seq<u8>,
    list: Seq<Walked>,
) -> Seq<Command<Seq<u8>>>
    decreases list.len(),
{
    if list.len() == 0 {
        seq![]
    } else {
        stamps_for_all(config, source, dest, list.drop_last()) + stamps_for(
            config,
            source,
            dest,
            list.last(),
        )
    }
}

/// Where the walk stands after some events, and all that it has ordered on
/// them.
pub open spec fn stamped_through(w: StampView, events: Seq<Event<Seq<u8>>>) -> (
    StampView,
    Seq<Command<Seq<u8>>>,
)
    decreases events.len(),
{
    if events.len() == 0 {
        (w, seq![])
    } else {
        let (before, ordered) = stamped_through(w, events.drop_last());
        let (next, reply) = stamp_step(before, events.last());
        (next, ordered + reply.commands)
    }
}

proof fn lemma_stamped_one_more(
    w: StampView,
    events: Seq<Event<Seq<u8>>>,
    event: Event<Seq<u8>>,
)
    ensures
        ({
            let (before, ordered) = stamped_through(w, events);
            let (next, reply) = stamp_step(before, event);
            stamped_through(w, events + seq![event]) == (next, ordered + reply.commands)
        }),
{
    assert((events + seq![event]).drop_last() =~= events);
}

proof fn lemma_stamped_split(w: StampView, a: Seq<Event<Seq<u8>>>, b: Seq<Event<Seq<u8>>>)
    ensures
        ({
            let (mid, first) = stamped_through(w, a);
            let (end, second) = stamped_through(mid, b);
            stamped_through(w, a + b) == (end, first + second)
        }),
    decreases b.len(),
{
    let (mid, first) = stamped_through(w, a);
    if b.len() == 0 {
        assert(a + b =~= a);
        assert(first + Seq::<Command<Seq<u8>>>::empty() =~= first);
    } else {
        assert((a + b).drop_last() =~= a + b.drop_last());
        lemma_stamped_split(w, a, b.drop_last());
        let (before, second) = stamped_through(mid, b.drop_last());
        let reply = stamp_step(before, b.last()).1;
        assert(first + second + reply.commands =~= first + (second + reply.commands));
    }
}

/// An entry leads to its own stamp and no other, and the walk is then ready
/// for the next entry.
pub proof fn law_entry_leads_to_its_stamp(w: StampView, e: Walked)
    requires
        w.phase is Walking,
    ensures
        stamped_through(w, stamp_answers(w.source, w.dest, e)) == (
            w,
            stamps_for(w.config, w.source, w.dest, e),
        ),
{
    let none: Seq<Event<Seq<u8>>> = seq![];
    let quiet: Seq<Command<Seq<u8>>> = seq![];
    let meeting = seq![Event::Entry(e.path)];
    assert(stamped_through(w, none) == (w, quiet));
    assert(none + meeting =~= meeting);
    lemma_stamped_one_more(w, none, Event::Entry(e.path));
    assert(quiet + quiet =~= quiet);
    if e.path is Some {
        let reading = meeting + seq![Event::Meta(e.found)];
        lemma_stamped_one_more(w, meeting, Event::Meta(e.found));
        if is_directory(w.source, w.dest, e) {
            lemma_stamped_one_more(w, reading, Event::Answer(e.mirrored));
            if e.mirrored {
                let checking = reading + seq![Event::Answer(true)];
                lemma_stamped_one_more(w, checking, Event::Answer(e.opened));
                let stamps = stamps_for(w.config, w.source, w.dest, e);
                assert(quiet + stamps =~= stamps);
            }
        }
    }
}

proof fn lemma_all_are_stamped(w: StampView, list: Seq<Walked>)
    requires
        w.phase is Walking,
    ensures
        stamped_through(w, stamp_answers_for_all(w.source, w.dest, list)) == (
            w,
            stamps_for_all(w.config, w.source, w.dest, list),
        ),
    decreases list.len(),
{
    if list.len() > 0 {
        let front = list.drop_last();
        lemma_all_are_stamped(w, front);
        law_entry_leads_to_its_stamp(w, list.last());
        lemma_stamped_split(
            w,
            stamp_answers_for_all(w.source, w.dest, front),
            stamp_answers(w.source, w.dest, list.last()),
        );
    }
}

/// A whole run stamps entry by entry, in the order of its walk: from the
/// beginning to the end, every directory that could be opened leads to its
/// stamp once, and nothing else is ordered.
pub proof fn law_directories_are_stamped_one_by_one(
    source: Seq<u8>,
    dest: Seq<u8>,
    config: Config,
    list: Seq<Walked>,
)
    requires
        !(config.no_perms && config.no_timestamps),
    ensures
        ({
            let events = seq![Event::Begin, Event::Begun] + stamp_answers_for_all(
                source,
                dest,
                list,
            );
            let w = stamp_start(source, dest, config);
            let (end, orders) = stamped_through(w, events + seq![Event::End]);
            &&& end.phase is Done
            &&& stamp_step(stamped_through(w, events).0, Event::End).1.next is Finished
            &&& orders == stamps_for_all(config, source, dest, list)
        }),
{
    let w = stamp_start(source, dest, config);
    let none: Seq<Event<Seq<u8>>> = seq![];
    let quiet: Seq<Command<Seq<u8>>> = seq![];
    let walking = StampView { phase: StampPhase::Walking, ..w };
    let begin = seq![Event::<Seq<u8>>::Begin];
    let opening = seq![Event::<Seq<u8>>::Begin, Event::Begun];
    let answers = stamp_answers_for_all(source, dest, list);
    let stamps = stamps_for_all(config, source, dest, list);
    assert(none + begin =~= begin);
    assert(begin + seq![Event::Begun] =~= opening);
    assert(stamped_through(w, none) == (w, quiet));
    lemma_stamped_one_more(w, none, Event::Begin);
    lemma_stamped_one_more(w, begin, Event::Begun);
    assert(quiet + quiet =~= quiet);
    assert(stamped_through(w, opening) == (walking, quiet));
    lemma_all_are_stamped(walking, list);
    lemma_stamped_split(w, opening, answers);
    assert(quiet + stamps =~= stamps);
    lemma_stamped_one_more(w, opening + answers, Event::End);
    assert(stamps + quiet =~= stamps);
}

/// Whether no entry of the list is met twice or lies below an earlier one.
pub open spec fn met_contents_first(list: Seq<Walked>) -> bool {
    forall|i: int, j: int|
        #![trigger list[i], list[j]]
        0 <= i < j < list.len() && list[i].path is Some && list[j].path is Some ==> !inside(
            list[j].path->0,
            list[i].path->0,
        )
}

/// The entry that a stamp is ordered for.
proof fn lemma_stamp_origin(
    config: Config,
    source: Seq<u8>,
    dest: Seq<u8>,
    list: Seq<Walked>,
    a: int,
) -> (i: int)
    requires
        0 <= a < stamps_for_all(config, source, dest, list).len(),
    ensures
        0 <= i < list.len(),
        is_open(source, dest, list[i]),
        stamps_for(config, source, dest, list[i]).contains(
            stamps_for_all(config, source, dest, list)[a],
        ),
    decreases list.len(),
{
    let front = list.drop_last();
    let before = stamps_for_all(config, source, dest, front);
    let last = stamps_for(config, source, dest, list.last());
    if a < before.len() {
        let i = lemma_stamp_origin(config, source, dest, front, a);
        assert(front[i] == list[i]);
        assert((before + last)[a] == before[a]);
        i
    } else {
        assert((before + last)[a] == last[a - before.len()]);
        assert(last.contains(last[a - before.len()]));
        list.len() - 1
    }
}

/// What a stamp of an entry is.
proof fn lemma_stamp_of(
    config: Config,
    source: Seq<u8>,
    dest: Seq<u8>,
    e: Walked,
    c: Command<Seq<u8>>,
)
    requires
        stamps_for(config, source, dest, e).contains(c),
    ensures
        is_open(source, dest, e),
        changes(c) == Some(target_at(source, dest, e.path->0)),
{
    let i = stamps_for(config, source, dest, e).index_of(c);
    assert(stamps_for(config, source, dest, e)[i] == c);
}

/// Of two entries in the order of a walk that meets contents first, the target
/// of the later one is not, and does not lie below, that of the earlier one.
proof fn lemma_later_target(source: Seq<u8>, dest: Seq<u8>, list: Seq<Walked>, i: int, j: int)
    requires
        components(source).len() > 0,
        met_contents_first(list),
        0 <= i < j < list.len(),
        is_open(source, dest, list[i]),
        is_open(source, dest, list[j]),
    ensures
        !inside(
            target_at(source, dest, list[j].path->0),
            target_at(source, dest, list[i].path->0),
        ),
{
    law_targets_nest_like_entries(source, dest, list[j].path->0, list[i].path->0);
}

/// Where the walk meets contents before their holders, each once, a stamp
/// never changes a directory within one that was stamped before: contents come
/// before their holders, and of two stamps of one directory one carries over
/// permissions and the other, later one, timestamps.
pub proof fn law_contents_are_stamped_first(
    config: Config,
    source: Seq<u8>,
    dest: Seq<u8>,
    list: Seq<Walked>,
    a: int,
    b: int,
)
    requires
        components(source).len() > 0,
        met_contents_first(list),
        0 <= a < b < stamps_for_all(config, source, dest, list).len(),
    ensures
        ({
            let first = stamps_for_all(config, source, dest, list)[a];
            let second = stamps_for_all(config, source, dest, list)[b];
            &&& changes(first) is Some && changes(second) is Some
            &&& inside(changes(second)->0, changes(first)->0) ==> changes(first) == changes(second)
                && first is CopyPermissions && second is CopyTimestamps
        }),
    decreases list.len(),
{
    let front = list.drop_last();
    let before = stamps_for_all(config, source, dest, front);
    let stamps = stamps_for(config, source, dest, list.last());
    let all = stamps_for_all(config, source, dest, list);
    let end = list.len() - 1;
    assert(met_contents_first(front)) by {
        assert forall|i: int, j: int|
            #![trigger front[i], front[j]]
            0 <= i < j < front.len() && front[i].path is Some && front[j].path is Some implies
            !inside(front[j].path->0, front[i].path->0) by {
            assert(front[i] == list[i] && front[j] == list[j]);
        }
    }
    if b < before.len() {
        law_contents_are_stamped_first(config, source, dest, front, a, b);
        assert(all[a] == before[a] && all[b] == before[b]);
    } else {
        assert(all[b] == stamps[b - before.len()]);
        assert(stamps.contains(all[b]));
        lemma_stamp_of(config, source, dest, list.last(), all[b]);
        if a < before.len() {
            let i = lemma_stamp_origin(config, source, dest, front, a);
            assert(all[a] == before[a]);
            lemma_stamp_of(config, source, dest, front[i], all[a]);
            assert(front[i] == list[i] && list[end] == list.last());
            lemma_later_target(source, dest, list, i, end);
        } else {
            assert(all[a] == stamps[a - before.len()]);
        }
    }
}

/// No directory that could be opened is passed over: all of its stamp is
/// ordered.
pub proof fn law_no_open_directory_is_passed_over(
    config: Config,
    source: Seq<u8>,
    dest: Seq<u8>,
    list: Seq<Walked>,
    i: int,
)
    requires
        0 <= i < list.len(),
        is_open(source, dest, list[i]),
    ensures
        ({
            let path = list[i].path->0;
            let target = target_at(source, dest, path);
            let orders = stamps_for_all(config, source, dest, list);
            &&& !config.no_perms ==> orders.contains(Command::CopyPermissions(path, target))
            &&& !config.no_timestamps ==> orders.contains(Command::CopyTimestamps(path, target))
        }),
    decreases list.len(),
{
    let path = list[i].path->0;
    let target = target_at(source, dest, path);
    let perms = Command::CopyPermissions(path, target);
    let times = Command::CopyTimestamps(path, target);
    let front = list.drop_last();
    let before = stamps_for_all(config, source, dest, front);
    let stamps = stamps_for(config, source, dest, list.last());
    let all = stamps_for_all(config, source, dest, list);
    if i < front.len() {
        assert(front[i] == list[i]);
        law_no_open_directory_is_passed_over(config, source, dest, front, i);
        if !config.no_perms {
            let a = before.index_of(perms);
            assert(all[a] == perms);
        }
        if !config.no_timestamps {
            let a = before.index_of(times);
            assert(all[a] == times);
        }
    } else {
        let n = before.len() as int;
        if !config.no_perms {
            assert(all[n] == perms);
        }
        if !config.no_timestamps {
            assert(all[n + stamps.len() - 1] == times);
        }
    }
}

/// What the walk waits to have answered.
pub open spec fn stamp_pending(w: StampView) -> Option<Query<Seq<u8>>> {
    match w.phase {
        StampPhase::Ready => None,
        StampPhase::Opening => Some(Query::BeginContentsFirst(w.source)),
        StampPhase::Walking => Some(Query::NextOfContents),
        StampPhase::Reading(path) => Some(Query::Lstat(path)),
        StampPhase::Checking(_, target) => Some(Query::IsDir(target)),
        StampPhase::Holding(path, target) => Some(Query::OpenDirs(path, target)),
        StampPhase::Done => None,
    }
}

/// The walk asks what it waits for, and takes every answer to that and no
/// other event.
pub proof fn law_walk_asks_what_it_waits_for(w: StampView, event: Event<Seq<u8>>)
    ensures
        ({
            let (next, reply) = stamp_step(w, event);
            &&& reply.next matches Next::Ask(query) ==> stamp_pending(next) == Some(query)
            &&& w.phase is Ready ==> (reply.next is OutOfTurn <==> !(event is Begin))
            &&& stamp_pending(w) matches Some(query) ==> (reply.next is OutOfTurn <==> !answers(
                query,
                event,
            ))
            &&& reply.next is Finished <==> w.phase is Walking && event is End || (w.phase is Ready
                && event is Begin && w.config.no_perms && w.config.no_timestamps)
        }),
{
}

/// Permissions and timestamps are carried over only as the options say, each
/// from a directory of the source to its own target, at most once at a step.
pub proof fn law_stamps_follow_the_options(w: StampView, event: Event<Seq<u8>>, i: int)
    requires
        0 <= i < stamp_step(w, event).1.commands.len(),
    ensures
        ({
            let commands = stamp_step(w, event).1.commands;
            &&& w.phase matches StampPhase::Holding(path, target) && match commands[i] {
                Command::CopyPermissions(a, b) => {
                    !w.config.no_perms && a == path && b == target && i == 0
                },
                Command::CopyTimestamps(a, b) => {
                    !w.config.no_timestamps && a == path && b == target && i == commands.len() - 1
                },
                _ => false,
            }
        }),
{
}

} // verus!
