//! What every step of a mirroring run keeps to, whatever it is told.

use vstd::prelude::*;

use crate::checksum::compared;
use crate::config::Config;
use crate::entry::{
    law_entries_of_the_source_are_placed, law_targets_lie_within_base, placed, target_at, Entry,
};
use crate::error::XcpError;
use crate::metadata::{inode_key, law_unchanged_files_agree, FileType, Metadata};
use crate::path::{below, components, inside};
use crate::protocol::{
    answers, changes, law_unlocking_adds_owner_write, Candidate, Command, Event, Next, Notice,
    Operation, Query, ReplyView,
};
use crate::prune::{
    is_stale, is_top, law_removal_fits_the_kind, lemma_filter_holds, lemma_stale_place, tops,
};
use crate::sync::{beginning, delete_notices, sync_step, SyncPhase, SyncView};

verus! {

/// Where a walk stands after some events, whatever they are.
pub open spec fn reached(w: SyncView, events: Seq<Event<Seq<u8>>>) -> SyncView
    decreases events.len(),
{
    if events.len() == 0 {
        w
    } else {
        sync_step(reached(w, events.drop_last()), events.last()).0
    }
}

/// The entry that the walk is mirroring.
pub open spec fn entry_of(phase: SyncPhase<Seq<u8>>) -> Option<Entry<Seq<u8>>> {
    match phase {
        SyncPhase::DirTarget(e) => Some(e),
        SyncPhase::DirMode(e) => Some(e),
        SyncPhase::FileTarget(e, _) => Some(e),
        SyncPhase::FileDigest(e) => Some(e),
        SyncPhase::FileWritable(e, _) => Some(e),
        SyncPhase::NameTarget(e, _) => Some(e),
        SyncPhase::NamePeer(e, _, _) => Some(e),
        SyncPhase::NameClear(e, _) => Some(e),
        SyncPhase::LinkText(e) => Some(e),
        SyncPhase::LinkTarget(e, _) => Some(e),
        SyncPhase::LinkPeer(e, _) => Some(e),
        SyncPhase::LinkClear(e, _) => Some(e),
        _ => None,
    }
}

/// Whether all that the walk is about to write, to compare or to remove lies
/// within the destination.
pub open spec fn keeps_inside(w: SyncView) -> bool {
    &&& entry_of(w.phase) is Some ==> inside(entry_of(w.phase)->0.target, w.dest)
    &&& forall|i: int|
        0 <= i < w.candidates.len() ==> inside((#[trigger] w.candidates[i]).target, w.dest)
}

proof fn lemma_step_stays_inside_dest(w: SyncView, event: Event<Seq<u8>>)
    requires
        components(w.source).len() > 0,
        keeps_inside(w),
    ensures
        ({
            let (next, reply) = sync_step(w, event);
            &&& keeps_inside(next) && next.source == w.source && next.dest == w.dest
            &&& forall|i: int|
                0 <= i < reply.commands.len() && changes(#[trigger] reply.commands[i]) is Some
                    ==> inside(changes(reply.commands[i])->0, w.dest)
            &&& forall|i: int|
                0 <= i < reply.verify.len() ==> inside((#[trigger] reply.verify[i]).target, w.dest)
        }),
{
    let d = components(w.dest);
    assert(d.take(d.len() as int) =~= d);
    match (w.phase, event) {
        (SyncPhase::Reading(path, _), Event::Meta(Some(_))) => {
            if placed(w.source, w.dest, path) is Some {
                law_targets_lie_within_base(w.source, w.dest, path);
            }
        },
        _ => {},
    }
}

proof fn lemma_run_keeps_inside(w: SyncView, events: Seq<Event<Seq<u8>>>)
    requires
        components(w.source).len() > 0,
        keeps_inside(w),
    ensures
        keeps_inside(reached(w, events)),
        reached(w, events).source == w.source,
        reached(w, events).dest == w.dest,
    decreases events.len(),
{
    if events.len() > 0 {
        lemma_run_keeps_inside(w, events.drop_last());
        lemma_step_stays_inside_dest(reached(w, events.drop_last()), events.last());
    }
}

/// Whatever a run is told, it changes nothing outside the destination.
pub proof fn law_run_stays_inside_dest(
    source: Seq<u8>,
    dest: Seq<u8>,
    config: Config,
    events: Seq<Event<Seq<u8>>>,
    event: Event<Seq<u8>>,
)
    requires
        components(source).len() > 0,
    ensures
        ({
            let reply = sync_step(reached(beginning(source, dest, config), events), event).1;
            &&& forall|i: int|
                0 <= i < reply.commands.len() && changes(#[trigger] reply.commands[i]) is Some
                    ==> inside(changes(reply.commands[i])->0, dest)
            &&& forall|i: int|
                0 <= i < reply.verify.len() ==> inside((#[trigger] reply.verify[i]).target, dest)
            &&& forall|i: int|
                0 <= i < reply.delete.len() ==> inside(#[trigger] reply.delete[i], dest)
        }),
{
    let w = beginning(source, dest, config);
    lemma_run_keeps_inside(w, events);
    lemma_step_stays_inside_dest(reached(w, events), event);
    lemma_run_marks_stale(w, events);
    lemma_step_removes_only_stale(reached(w, events), event);
    let reply = sync_step(reached(w, events), event).1;
    assert forall|i: int| 0 <= i < reply.delete.len() implies inside(
        #[trigger] reply.delete[i],
        dest,
    ) by {
        lemma_stale_place(reply.delete[i], dest, reached(w, events).seen);
    }
}

/// Whether what the walk has found to remove lies below the destination and
/// has no counterpart.
pub open spec fn marks_stale(w: SyncView) -> bool {
    &&& w.stale.len() > 0 ==> w.phase is Listing || w.phase is Done
    &&& forall|i: int|
        0 <= i < w.stale.len() ==> is_stale(#[trigger] w.stale[i], w.dest, w.seen)
}

proof fn lemma_step_removes_only_stale(w: SyncView, event: Event<Seq<u8>>)
    requires
        marks_stale(w),
    ensures
        ({
            let (next, reply) = sync_step(w, event);
            &&& marks_stale(next)
            &&& reply.delete.len() > 0 ==> reply.next is Finished
            &&& forall|i: int|
                0 <= i < reply.delete.len() ==> is_stale(
                    #[trigger] reply.delete[i],
                    w.dest,
                    w.seen,
                )
        }),
{
    let reply = sync_step(w, event).1;
    assert forall|i: int| 0 <= i < reply.delete.len() implies is_stale(
        #[trigger] reply.delete[i],
        w.dest,
        w.seen,
    ) by {
        let root = tops(w.stale)[i];
        assert(tops(w.stale).contains(root));
        lemma_filter_holds(w.stale, |path: Seq<u8>| is_top(path, w.stale), root);
        let j = w.stale.index_of(root);
        assert(is_stale(w.stale[j], w.dest, w.seen));
    }
}

proof fn lemma_run_marks_stale(w: SyncView, events: Seq<Event<Seq<u8>>>)
    requires
        marks_stale(w),
    ensures
        marks_stale(reached(w, events)),
    decreases events.len(),
{
    if events.len() > 0 {
        lemma_run_marks_stale(w, events.drop_last());
        lemma_step_removes_only_stale(reached(w, events.drop_last()), events.last());
    }
}

/// Whatever a run is told, it removes subtrees only at its very end, and only
/// such as lie below the destination at a place that was not met in the
/// source.
pub proof fn law_only_stale_subtrees_are_removed(
    source: Seq<u8>,
    dest: Seq<u8>,
    config: Config,
    events: Seq<Event<Seq<u8>>>,
    event: Event<Seq<u8>>,
)
    ensures
        ({
            let w = reached(beginning(source, dest, config), events);
            let reply = sync_step(w, event).1;
            &&& reply.delete.len() > 0 ==> reply.next is Finished
            &&& forall|i: int|
                0 <= i < reply.delete.len() ==> is_stale(#[trigger] reply.delete[i], dest, w.seen)
        }),
{
    let start = beginning(source, dest, config);
    lemma_run_marks_stale(start, events);
    lemma_step_removes_only_stale(reached(start, events), event);
    lemma_run_keeps_setting(start, events);
}

proof fn lemma_run_keeps_setting(w: SyncView, events: Seq<Event<Seq<u8>>>)
    ensures
        reached(w, events).dest == w.dest,
        reached(w, events).config == w.config,
    decreases events.len(),
{
    if events.len() > 0 {
        lemma_run_keeps_setting(w, events.drop_last());
    }
}

/// Whether a phase is one that a dry run can reach.
pub open spec fn only_looks(phase: SyncPhase<Seq<u8>>) -> bool {
    &&& !(phase is DirMode)
    &&& !(phase is FileWritable)
    &&& !(phase is NameClear)
    &&& !(phase is LinkClear)
}

proof fn lemma_dry_step_only_gives_notice(w: SyncView, event: Event<Seq<u8>>)
    requires
        w.config.dry_run,
        only_looks(w.phase),
    ensures
        ({
            let (next, reply) = sync_step(w, event);
            &&& only_looks(next.phase) && next.config == w.config
            &&& forall|i: int|
                0 <= i < reply.commands.len() ==> #[trigger] reply.commands[i] is Notice
            &&& reply.delete.len() == 0
        }),
{
}

proof fn lemma_dry_run_only_looks(w: SyncView, events: Seq<Event<Seq<u8>>>)
    requires
        w.config.dry_run,
        only_looks(w.phase),
    ensures
        reached(w, events).config == w.config,
        only_looks(reached(w, events).phase),
    decreases events.len(),
{
    if events.len() > 0 {
        lemma_dry_run_only_looks(w, events.drop_last());
        lemma_dry_step_only_gives_notice(reached(w, events.drop_last()), events.last());
    }
}

/// Whatever a dry run is told, it only says what it would do.
pub proof fn law_dry_run_only_gives_notice(
    source: Seq<u8>,
    dest: Seq<u8>,
    config: Config,
    events: Seq<Event<Seq<u8>>>,
    event: Event<Seq<u8>>,
)
    requires
        config.dry_run,
    ensures
        ({
            let reply = sync_step(reached(beginning(source, dest, config), events), event).1;
            &&& forall|i: int|
                0 <= i < reply.commands.len() ==> #[trigger] reply.commands[i] is Notice
            &&& reply.delete.len() == 0
        }),
{
    let w = beginning(source, dest, config);
    lemma_dry_run_only_looks(w, events);
    lemma_dry_step_only_gives_notice(reached(w, events), event);
}

/// The comparison of contents that ends a dry run only says what it would
/// copy.
pub proof fn law_dry_comparison_only_gives_notice(
    c: Candidate<Seq<u8>>,
    found: Option<Metadata>,
    same: bool,
    copy_xattrs: bool,
)
    ensures
        ({
            let commands = compared(c, found, same, true, copy_xattrs);
            &&& forall|i: int| 0 <= i < commands.len() ==> #[trigger] commands[i] is Notice
            &&& commands.len() > 0 <==> !same
        }),
{
}

/// Special files are mirrored only where that is asked for.
pub proof fn law_special_files_are_opt_in(w: SyncView, event: Event<Seq<u8>>, i: int)
    requires
        0 <= i < sync_step(w, event).1.commands.len(),
        sync_step(w, event).1.commands[i] matches Command::Send(op) && op is Special,
    ensures
        w.config.copy_special,
{
}

/// What the walk has learnt it keeps: the places it has met, the first name
/// of each inode, and the files still to be compared.
pub proof fn law_walk_forgets_nothing(w: SyncView, event: Event<Seq<u8>>)
    ensures
        ({
            let next = sync_step(w, event).0;
            &&& next.source == w.source && next.dest == w.dest && next.config == w.config
            &&& w.seen.subset_of(next.seen)
            &&& w.first_names.submap_of(next.first_names)
            &&& w.candidates.is_prefix_of(next.candidates)
            &&& w.stale.is_prefix_of(next.stale)
        }),
{
}

/// An event that the walk did not ask for changes nothing, and after the end
/// of a run every event is of that sort.
pub proof fn law_stray_events_change_nothing(w: SyncView, event: Event<Seq<u8>>)
    ensures
        ({
            let (next, reply) = sync_step(w, event);
            &&& reply.next is OutOfTurn ==> next == w && reply.commands.len() == 0
                && reply.delete.len() == 0 && reply.verify.len() == 0
            &&& w.phase is Done ==> reply.next is OutOfTurn
            &&& reply.next is Finished || reply.next is Failed ==> next.phase is Done
        }),
{
}

/// Whether the walk is to copy the file it is at before it goes on.
pub open spec fn at_once(phase: SyncPhase<Seq<u8>>) -> bool {
    match phase {
        SyncPhase::FileTarget(_, now) => now,
        SyncPhase::FileDigest(_) => true,
        SyncPhase::FileWritable(_, now) => now,
        _ => false,
    }
}

/// The first name met of an inode with several, where that is to be mirrored,
/// is noted, and its file is to be copied before the walk goes on.
pub proof fn law_first_names_are_copied_at_once(
    w: SyncView,
    path: Seq<u8>,
    e: Entry<Seq<u8>>,
    rel: Seq<u8>,
)
    requires
        w.phase == SyncPhase::Reading(path, e.from),
        placed(w.source, w.dest, path) == Some((rel, e.target)),
        e.meta.kind == FileType::File,
    ensures
        ({
            let next = sync_step(w, Event::Meta(Some(e.meta))).0;
            let key = inode_key(e.meta.dev, e.meta.ino);
            let several = w.config.preserve_hardlinks && e.meta.nlink > 1;
            &&& at_once(next.phase) <==> several && !w.first_names.contains_key(key)
            &&& several ==> next.first_names.contains_key(key)
            &&& at_once(next.phase) ==> next.first_names[key] == e.target
        }),
{
}

/// A file that is to be copied at once is never left to the workers.
pub proof fn law_at_once_is_not_left_to_workers(w: SyncView, event: Event<Seq<u8>>)
    requires
        at_once(w.phase),
    ensures
        ({
            let (next, reply) = sync_step(w, event);
            &&& next.phase is Walking || at_once(next.phase)
            &&& forall|i: int|
                0 <= i < reply.commands.len() ==> !(#[trigger] reply.commands[i] is Send)
        }),
{
}

/// What the walk waits to have answered.
pub open spec fn sync_pending(w: SyncView) -> Option<Query<Seq<u8>>> {
    match w.phase {
        SyncPhase::Ready => None,
        SyncPhase::Preparing => Some(Query::Exists(w.dest)),
        SyncPhase::Opening => Some(Query::BeginWalk(w.source)),
        SyncPhase::Walking => Some(Query::NextEntry),
        SyncPhase::Resolving(path) => Some(Query::Canonicalize(path)),
        SyncPhase::Reading(_, from) => Some(Query::SourceMeta(from)),
        SyncPhase::FileDigest(e) => Some(Query::Digests(e.from, e.target)),
        SyncPhase::NamePeer(_, first, _) => Some(Query::Lstat(first)),
        SyncPhase::LinkText(e) => Some(Query::ReadLink(e.from)),
        SyncPhase::LinkPeer(e, _) => Some(Query::ReadLink(e.target)),
        SyncPhase::Surveying => Some(Query::IsDir(w.dest)),
        SyncPhase::OpeningList => Some(Query::BeginListing(w.dest)),
        SyncPhase::Listing => Some(Query::NextListed),
        SyncPhase::Done => None,
        _ => Some(Query::Lstat(entry_of(w.phase)->0.target)),
    }
}

/// The walk asks what it waits for, and takes every answer to that and no
/// other event.
pub proof fn law_walk_asks_what_it_waits_for(w: SyncView, event: Event<Seq<u8>>)
    ensures
        ({
            let (next, reply) = sync_step(w, event);
            &&& reply.next matches Next::Ask(query) ==> sync_pending(next) == Some(query)
            &&& w.phase is Ready ==> (reply.next is OutOfTurn <==> !(event is Begin))
            &&& sync_pending(w) matches Some(query) ==> (reply.next is OutOfTurn <==> !answers(
                query,
                event,
            ))
        }),
{
}

/// While an entry is being mirrored, it stays the same entry.
pub proof fn law_entry_stays_the_same(w: SyncView, event: Event<Seq<u8>>)
    ensures
        ({
            let next = sync_step(w, event).0;
            entry_of(w.phase) is Some ==> next.phase is Walking || entry_of(next.phase) == entry_of(
                w.phase,
            )
        }),
{
}

/// Once an entry has been met it is read, where it leads if symlinks are to be
/// followed and where it was met if not.
pub proof fn law_entries_are_read_where_they_lead(w: SyncView, path: Seq<u8>, from: Seq<u8>)
    requires
        w.phase is Walking,
    ensures
        ({
            let met = sync_step(w, Event::Entry(Some(path)));
            let led = sync_step(met.0, Event::Path(from));
            &&& met.1.commands.len() == 0
            &&& !w.config.dereference ==> met.0.phase == SyncPhase::Reading(path, path)
            &&& w.config.dereference ==> met.0.phase == SyncPhase::Resolving(path)
            &&& w.config.dereference ==> led.1.commands.len() == 0 && led.0.phase
                == SyncPhase::Reading(path, from)
        }),
{
}

/// Once an entry has been read, its place is noted, whatever its kind, and the
/// walk goes on to mirror it as what it is, at the place below the destination
/// at which it lies below the source. The run ends with an error exactly if
/// the entry lies outside the source or is of an unknown kind.
pub proof fn law_entries_are_mirrored_as_what_they_are(
    w: SyncView,
    path: Seq<u8>,
    from: Seq<u8>,
    meta: Metadata,
)
    requires
        w.phase == SyncPhase::Reading(path, from),
        components(w.source).len() > 0,
    ensures
        ({
            let (next, reply) = sync_step(w, Event::Meta(Some(meta)));
            let target = target_at(w.source, w.dest, path);
            let place = below(components(path), components(w.source));
            let kind = meta.kind;
            if !inside(path, w.source) {
                &&& reply.commands.len() == 0
                &&& reply.next == Next::<Seq<u8>>::Failed(XcpError::OutsideSource)
            } else {
                &&& inside(target, w.dest) && below(components(target), components(w.dest)) == place
                &&& next.seen == w.seen.insert(place)
                &&& next.candidates == w.candidates && next.stale == w.stale
                &&& entry_of(next.phase) is Some ==> entry_of(next.phase) == Some(
                    Entry { from, target, meta },
                ) && reply.commands.len() == 0
                &&& kind == FileType::Dir <==> next.phase is DirTarget
                &&& kind == FileType::Symlink <==> next.phase is LinkText
                &&& kind == FileType::File <==> next.phase is FileTarget || next.phase is NameTarget
                &&& reply.next is Failed <==> kind == FileType::Other
                &&& kind == FileType::Other ==> reply.next == Next::<Seq<u8>>::Failed(
                    XcpError::UnknownFileType(target),
                ) && reply.commands.len() == 0
                &&& entry_of(next.phase) is None && kind != FileType::Other ==> {
                    &&& next.phase is Walking
                    &&& reply.commands == (if !w.config.copy_special {
                        Seq::<Command<Seq<u8>>>::empty()
                    } else if w.config.dry_run {
                        seq![Command::Notice(Notice::CopySpecial(from, target))]
                    } else {
                        seq![Command::Send(Operation::Special(from, target))]
                    })
                }
            }
        }),
{
    law_entries_of_the_source_are_placed(w.source, w.dest, path);
    if inside(path, w.source) {
        law_targets_lie_within_base(w.source, w.dest, path);
    }
}

/// Why a mirroring run ends with an error: an entry lies outside the source or
/// is of an unknown kind. There is no other reason.
pub proof fn law_why_a_mirror_fails(w: SyncView, event: Event<Seq<u8>>)
    ensures
        sync_step(w, event).1.next matches Next::Failed(error) ==> {
            &&& w.phase is Reading
            &&& error is OutsideSource || error is UnknownFileType
        },
{
}

/// A further name of a file that is to be mirrored with all its names is
/// linked to the target of the first name met, and no other file is.
pub proof fn law_further_names_lead_to_the_first(
    w: SyncView,
    path: Seq<u8>,
    from: Seq<u8>,
    meta: Metadata,
)
    requires
        w.phase == SyncPhase::Reading(path, from),
        inside(path, w.source),
        meta.kind == FileType::File,
    ensures
        ({
            let next = sync_step(w, Event::Meta(Some(meta))).0;
            let key = inode_key(meta.dev, meta.ino);
            let several = w.config.preserve_hardlinks && meta.nlink > 1;
            &&& next.phase matches SyncPhase::NameTarget(_, first) ==> several
                && w.first_names.contains_key(key) && first == w.first_names[key]
            &&& several && w.first_names.contains_key(key) ==> next.phase is NameTarget
                && next.first_names == w.first_names
            &&& next.phase matches SyncPhase::FileTarget(e, now) ==> {
                &&& now == several
                &&& now ==> next.first_names == w.first_names.insert(key, e.target)
                &&& !now ==> next.first_names == w.first_names
            }
        }),
{
    law_entries_of_the_source_are_placed(w.source, w.dest, path);
}

/// The destination is created, before anything is walked, exactly where
/// nothing stands there.
pub proof fn law_destination_is_created(w: SyncView, stands: bool)
    requires
        w.phase is Preparing,
    ensures
        ({
            let (next, reply) = sync_step(w, Event::Answer(stands));
            &&& next.phase is Opening
            &&& stands || w.config.dry_run ==> reply.commands.len() == 0
            &&& !stands && !w.config.dry_run ==> reply.commands == seq![
                Command::CreateDirAll(w.dest),
            ]
        }),
{
}

/// A file is left alone exactly when something that is neither a directory nor
/// a symlink stands at its target, of the source's size, with both parts of
/// its time of change and, where permissions are mirrored, with its mode. With
/// content checks on it is then compared, at once or after the walk, and
/// otherwise it has at most its extended attributes mirrored. Every other file
/// is copied, or announced by a dry run, and a directory or a symlink is taken
/// out of its way first.
pub proof fn law_files_are_left_alone_only_if_they_agree(
    w: SyncView,
    e: Entry<Seq<u8>>,
    now: bool,
    found: Option<Metadata>,
)
    requires
        w.phase == SyncPhase::FileTarget(e, now),
    ensures
        ({
            let (next, reply) = sync_step(w, Event::Meta(found));
            let m = found->0;
            let agrees = {
                &&& found is Some && m.kind != FileType::Dir && m.kind != FileType::Symlink
                &&& m.len == e.meta.len
                &&& m.mtime == e.meta.mtime && m.mtime_nsec == e.meta.mtime_nsec
                &&& w.config.no_perms || m.mode == e.meta.mode
            };
            let candidate = Candidate { from: e.from, target: e.target, len: e.meta.len };
            &&& agrees && !w.config.checksum ==> next == (SyncView {
                phase: SyncPhase::Walking,
                ..w
            }) && refreshes(w, e, reply.commands)
            &&& agrees && w.config.checksum ==> reply.commands.len() == 0
            &&& agrees && w.config.checksum && now ==> next == (SyncView {
                phase: SyncPhase::FileDigest(e),
                ..w
            })
            &&& agrees && w.config.checksum && !now ==> next == (SyncView {
                phase: SyncPhase::Walking,
                candidates: w.candidates.push(candidate),
                ..w
            })
            &&& !agrees && w.config.dry_run ==> next == (SyncView {
                phase: SyncPhase::Walking,
                ..w
            }) && reply.commands == seq![Command::Notice(Notice::Copy(e.from, e.target))]
            &&& !agrees && !w.config.dry_run ==> {
                &&& next == (SyncView { phase: SyncPhase::FileWritable(e, now), ..w })
                &&& found is Some && m.kind == FileType::Dir ==> reply.commands == seq![
                    Command::RemoveDirAll(e.target),
                ]
                &&& found is Some && m.kind == FileType::Symlink ==> reply.commands == seq![
                    Command::RemoveFile(e.target),
                ]
                &&& !(found is Some && (m.kind == FileType::Dir || m.kind == FileType::Symlink))
                    ==> reply.commands.len() == 0
            }
        }),
{
    law_unchanged_files_agree(e.meta, found->0, w.config);
}

/// Whether the commands mirror the extended attributes of an entry, where that
/// is asked for, and do nothing else.
pub open spec fn refreshes(
    w: SyncView,
    e: Entry<Seq<u8>>,
    commands: Seq<Command<Seq<u8>>>,
) -> bool {
    if w.config.copy_xattrs && !w.config.dry_run {
        commands == seq![Command::SyncXattrs(e.from, e.target)]
    } else {
        commands.len() == 0
    }
}

/// A file whose contents were compared at once is kept, with its extended
/// attributes mirrored where that is asked for, unless the digests differ.
pub proof fn law_compared_files_are_refreshed(
    w: SyncView,
    e: Entry<Seq<u8>>,
    digests: Option<([u8; 32], [u8; 32])>,
)
    requires
        w.phase == SyncPhase::FileDigest(e),
    ensures
        ({
            let (next, reply) = sync_step(w, Event::Digests(digests));
            let differ = digests is Some && (digests->0).0@ != (digests->0).1@;
            &&& !differ ==> next.phase is Walking && refreshes(w, e, reply.commands)
            &&& differ && !w.config.dry_run ==> next.phase == SyncPhase::FileWritable(e, true)
                && reply.commands.len() == 0
            &&& differ && w.config.dry_run ==> next.phase is Walking && reply.commands == seq![
                Command::Notice(Notice::Copy(e.from, e.target)),
            ]
        }),
{
}

/// A file that is written is made writable if it is locked, has its size
/// announced and is copied, in this order: before the walk goes on if it is to
/// be copied at once, and by the workers otherwise.
pub proof fn law_files_are_announced_and_copied(
    w: SyncView,
    e: Entry<Seq<u8>>,
    now: bool,
    found: Option<Metadata>,
)
    requires
        w.phase == SyncPhase::FileWritable(e, now),
    ensures
        ({
            let (next, reply) = sync_step(w, Event::Meta(found));
            let n = reply.commands.len();
            let locked = found is Some && found->0.kind == FileType::File && found->0.mode & 0x80
                == 0;
            &&& next == (SyncView { phase: SyncPhase::Walking, ..w })
            &&& n == if locked {
                3int
            } else {
                2int
            }
            &&& locked ==> reply.commands[0] == Command::SetMode(e.target, found->0.mode | 0x80)
            &&& reply.commands[n - 2] == Command::<Seq<u8>>::Size(e.meta.len)
            &&& now ==> reply.commands[n - 1] == Command::CopyNow(e.from, e.target)
            &&& !now ==> reply.commands[n - 1] == Command::Send(Operation::Copy(e.from, e.target))
        }),
{
    law_unlocking_adds_owner_write(e.target, found);
}

/// A name or a symlink that is missing is made once whatever stands in its way
/// is gone: the name as one of the first name's file, the symlink with the
/// text of the source's.
pub proof fn law_links_are_made_once_the_way_is_clear(w: SyncView, found: Option<Metadata>)
    requires
        w.phase is NameClear || w.phase is LinkClear,
    ensures
        ({
            let (next, reply) = sync_step(w, Event::Meta(found));
            let target = entry_of(w.phase)->0.target;
            let n = reply.commands.len();
            &&& next == (SyncView { phase: SyncPhase::Walking, ..w })
            &&& n == if found is Some {
                2int
            } else {
                1int
            }
            &&& found is Some ==> reply.commands[0] == (if found->0.kind == FileType::Dir {
                Command::RemoveDirAll(target)
            } else {
                Command::RemoveFile(target)
            })
            &&& w.phase matches SyncPhase::NameClear(_, first) ==> reply.commands[n - 1]
                == Command::HardLink(first, target)
            &&& w.phase matches SyncPhase::LinkClear(_, text) ==> reply.commands[n - 1]
                == Command::Send(Operation::Link(text, target))
        }),
{
    law_removal_fits_the_kind(entry_of(w.phase)->0.target, found);
}

/// A name is left alone exactly when it is one of the first name's inode
/// already, and a symlink exactly when it leads where the source's does.
pub proof fn law_links_are_left_alone_only_if_they_agree(w: SyncView, event: Event<Seq<u8>>)
    requires
        w.phase is NameTarget || w.phase is NamePeer || w.phase is LinkTarget
            || w.phase is LinkPeer,
        answers(sync_pending(w)->0, event),
        !w.config.dry_run,
    ensures
        ({
            let (next, reply) = sync_step(w, event);
            let e = entry_of(w.phase)->0;
            &&& reply.commands.len() == 0
            &&& w.phase matches SyncPhase::NameTarget(_, first) ==> match event {
                Event::Meta(Some(m)) => if m.kind == FileType::File {
                    next.phase == SyncPhase::NamePeer(e, first, m)
                } else {
                    next.phase == SyncPhase::NameClear(e, first)
                },
                _ => next.phase == SyncPhase::NameClear(e, first),
            }
            &&& w.phase matches SyncPhase::NamePeer(_, first, stands) ==> match event {
                Event::Meta(Some(m)) => if m.dev == stands.dev && m.ino == stands.ino {
                    next.phase is Walking
                } else {
                    next.phase == SyncPhase::NameClear(e, first)
                },
                _ => next.phase == SyncPhase::NameClear(e, first),
            }
            &&& w.phase matches SyncPhase::LinkTarget(_, text) ==> match event {
                Event::Meta(Some(m)) => if m.kind == FileType::Symlink {
                    next.phase == SyncPhase::LinkPeer(e, text)
                } else {
                    next.phase == SyncPhase::LinkClear(e, text)
                },
                _ => next.phase == SyncPhase::LinkClear(e, text),
            }
            &&& w.phase matches SyncPhase::LinkPeer(_, text) ==> match event {
                Event::Path(peer) => if components(peer) == components(text) {
                    next.phase is Walking
                } else {
                    next.phase == SyncPhase::LinkClear(e, text)
                },
                _ => false,
            }
        }),
{
}

/// All that is ordered for a directory, given what stands at its target at
/// first and what stands there when its mode is looked at.
pub open spec fn orders_for_dir(
    w: SyncView,
    found: Option<Metadata>,
    then: Option<Metadata>,
) -> Seq<Command<Seq<u8>>> {
    let first = sync_step(w, Event::Meta(found));
    if first.0.phase is DirMode {
        first.1.commands + sync_step(first.0, Event::Meta(then)).1.commands
    } else {
        first.1.commands
    }
}

/// The command, where it is wanted.
pub open spec fn wanted(on: bool, c: Command<Seq<u8>>) -> Seq<Command<Seq<u8>>> {
    if on {
        seq![c]
    } else {
        seq![]
    }
}

/// A directory is put in place where none stands, once whatever stands there
/// is gone. Then its owner and group are mirrored exactly where that is asked
/// for, its mode is set exactly where permissions are mirrored and it has
/// another one, and its extended attributes are mirrored exactly where that is
/// asked for, each once.
pub proof fn law_directories_are_tended(
    w: SyncView,
    e: Entry<Seq<u8>>,
    found: Option<Metadata>,
    then: Option<Metadata>,
)
    requires
        w.phase == SyncPhase::DirTarget(e),
        !w.config.dry_run,
    ensures
        ({
            let first = sync_step(w, Event::Meta(found)).0;
            let blocked = found is Some && found->0.kind != FileType::Dir;
            let other_mode = then is Some && then->0.mode != e.meta.mode;
            let perms = !w.config.no_perms;
            let owner = Command::Chown(e.target, e.meta.uid, e.meta.gid);
            let mode = Command::SetMode(e.target, e.meta.mode);
            let xattrs = Command::SyncXattrs(e.from, e.target);
            &&& first.phase == if perms {
                SyncPhase::DirMode(e)
            } else {
                SyncPhase::Walking
            }
            &&& perms ==> sync_step(first, Event::Meta(then)).0.phase is Walking
            &&& orders_for_dir(w, found, then) == wanted(
                found is None,
                Command::CreateTargetDir(e.target),
            ) + wanted(blocked, Command::RemoveFile(e.target)) + wanted(
                blocked,
                Command::CreateDirAll(e.target),
            ) + wanted(w.config.ownership, owner) + wanted(perms && other_mode, mode) + wanted(
                w.config.copy_xattrs,
                xattrs,
            )
        }),
{
}

/// The same walk, not dry.
pub open spec fn in_earnest(w: SyncView) -> SyncView {
    SyncView { config: Config { dry_run: false, ..w.config }, ..w }
}

/// Whether a run does, or sets out to do, what a notice says.
pub open spec fn carries_through(n: Notice<Seq<u8>>, next: SyncView, reply: ReplyView) -> bool {
    match n {
        Notice::CreateDir(p) => reply.commands.contains(Command::CreateTargetDir(p)),
        Notice::ReplaceWithDir(p) => reply.commands.contains(Command::RemoveFile(p))
            && reply.commands.contains(Command::CreateDirAll(p)),
        Notice::Copy(p, q) => {
            next.phase matches SyncPhase::FileWritable(e, _) && e.from == p && e.target == q
        },
        Notice::HardLink(p, q) => {
            next.phase matches SyncPhase::NameClear(e, first) && e.target == p && first == q
        },
        Notice::CreateSymlink(p, q) => {
            next.phase matches SyncPhase::LinkClear(e, text) && e.target == p && text == q
        },
        Notice::CopySpecial(p, q) => reply.commands.contains(
            Command::Send(Operation::Special(p, q)),
        ),
        Notice::Delete(p) => reply.delete.contains(p),
        Notice::CopyDiffering(_, _) => false,
    }
}

/// Whether a dry run gives a notice.
pub open spec fn says(reply: ReplyView, n: Notice<Seq<u8>>) -> bool {
    reply.commands.contains(Command::Notice(n))
}

proof fn lemma_notices_of_deletes(roots: Seq<Seq<u8>>, path: Seq<u8>)
    requires
        roots.contains(path),
    ensures
        delete_notices(roots).contains(Command::Notice(Notice::Delete(path))),
{
    let i = roots.index_of(path);
    assert(delete_notices(roots)[i] == Command::Notice(Notice::Delete(path)));
}

/// Whether of every notice the run in earnest does, or sets out to do, what it
/// says.
pub open spec fn said_is_done(notices: ReplyView, done: SyncView, orders: ReplyView) -> bool {
    forall|i: int|
        #![trigger notices.commands[i]]
        0 <= i < notices.commands.len() ==> {
            notices.commands[i] matches Command::Notice(n) && carries_through(n, done, orders)
        }
}

/// Whether a notice says what an order does, or the order only tends what
/// stands there or makes the destination itself.
pub open spec fn is_said(w: SyncView, notices: ReplyView, c: Command<Seq<u8>>) -> bool {
    match c {
        Command::CreateTargetDir(p) => says(notices, Notice::CreateDir(p)),
        Command::CreateDirAll(p) => w.phase is Preparing || says(
            notices,
            Notice::ReplaceWithDir(p),
        ),
        Command::Send(Operation::Special(p, q)) => says(notices, Notice::CopySpecial(p, q)),
        Command::RemoveFile(_) => notices.commands.len() > 0,
        Command::RemoveDirAll(_) => notices.commands.len() > 0,
        Command::Chown(_, _, _) => true,
        Command::SyncXattrs(_, _) => true,
        _ => false,
    }
}

/// Whether what is created, replaced, copied, linked or removed in earnest is
/// in a notice.
pub open spec fn done_is_said(
    w: SyncView,
    notices: ReplyView,
    done: SyncView,
    orders: ReplyView,
) -> bool {
    &&& done.phase matches SyncPhase::FileWritable(e, _) ==> says(
        notices,
        Notice::Copy(e.from, e.target),
    )
    &&& done.phase matches SyncPhase::NameClear(e, first) ==> says(
        notices,
        Notice::HardLink(e.target, first),
    )
    &&& done.phase matches SyncPhase::LinkClear(e, text) ==> says(
        notices,
        Notice::CreateSymlink(e.target, text),
    )
    &&& forall|i: int|
        0 <= i < orders.commands.len() ==> is_said(w, notices, #[trigger] orders.commands[i])
    &&& forall|i: int|
        0 <= i < orders.delete.len() ==> says(notices, Notice::Delete(#[trigger] orders.delete[i]))
}

/// Whether a dry step and one in earnest say and do the same.
pub open spec fn keeps_word(w: SyncView, event: Event<Seq<u8>>) -> bool {
    let notices = sync_step(w, event).1;
    let (done, orders) = sync_step(in_earnest(w), event);
    said_is_done(notices, done, orders) && done_is_said(w, notices, done, orders)
}

proof fn lemma_dry_end_keeps_word(w: SyncView, event: Event<Seq<u8>>)
    requires
        w.config.dry_run,
        w.phase is Surveying || w.phase is Listing,
    ensures
        keeps_word(w, event),
{
    let notices = sync_step(w, event).1;
    let (done, orders) = sync_step(in_earnest(w), event);
    let roots = tops(w.stale);
    assert forall|i: int| 0 <= i < orders.delete.len() implies says(
        notices,
        Notice::Delete(#[trigger] orders.delete[i]),
    ) by {
        assert(roots.contains(roots[i]));
        lemma_notices_of_deletes(roots, roots[i]);
    }
    assert forall|i: int|
        #![trigger notices.commands[i]]
        0 <= i < notices.commands.len() implies {
        notices.commands[i] matches Command::Notice(n) && carries_through(n, done, orders)
    } by {
        assert(roots.contains(roots[i]));
    }
}

proof fn lemma_dry_dir_keeps_word(w: SyncView, event: Event<Seq<u8>>)
    requires
        w.config.dry_run,
        w.phase is DirTarget,
    ensures
        keeps_word(w, event),
{
    let notices = sync_step(w, event).1;
    let orders = sync_step(in_earnest(w), event).1;
    match (w.phase, event) {
        (SyncPhase::DirTarget(e), Event::Meta(found)) => {
            if found is None {
                assert(notices.commands[0] == Command::Notice(Notice::CreateDir(e.target)));
                assert(orders.commands[0] == Command::CreateTargetDir(e.target));
            } else if found->0.kind != FileType::Dir {
                assert(notices.commands[0] == Command::Notice(Notice::ReplaceWithDir(e.target)));
                assert(orders.commands[0] == Command::RemoveFile(e.target));
                assert(orders.commands[1] == Command::CreateDirAll(e.target));
            }
        },
        _ => {},
    }
}

proof fn lemma_dry_file_keeps_word(w: SyncView, event: Event<Seq<u8>>)
    requires
        w.config.dry_run,
        w.phase is FileTarget || w.phase is FileDigest,
    ensures
        keeps_word(w, event),
{
    let notices = sync_step(w, event).1;
    let done = sync_step(in_earnest(w), event).0;
    let e = entry_of(w.phase)->0;
    if done.phase is FileWritable {
        assert(notices.commands[0] == Command::Notice(Notice::Copy(e.from, e.target)));
    }
}

proof fn lemma_dry_link_keeps_word(w: SyncView, event: Event<Seq<u8>>)
    requires
        w.config.dry_run,
        w.phase is NameTarget || w.phase is NamePeer || w.phase is LinkTarget
            || w.phase is LinkPeer,
    ensures
        keeps_word(w, event),
{
    let notices = sync_step(w, event).1;
    let done = sync_step(in_earnest(w), event).0;
    if done.phase is NameClear || done.phase is LinkClear {
        assert(notices.commands.len() == 1);
        assert(notices.commands[0] is Notice);
    }
}

proof fn lemma_dry_reading_keeps_word(w: SyncView, event: Event<Seq<u8>>)
    requires
        w.config.dry_run,
        w.phase is Reading,
    ensures
        keeps_word(w, event),
{
    let notices = sync_step(w, event).1;
    let orders = sync_step(in_earnest(w), event).1;
    if orders.commands.len() > 0 {
        assert(notices.commands.len() == 1 && orders.commands.len() == 1);
        assert(notices.commands[0] is Notice);
        assert(orders.commands.contains(orders.commands[0]));
    }
}

/// A dry run says what a run in earnest does on the same answer: of every
/// notice the run in earnest does, or sets out to do, what it says, and
/// whatever is created, replaced, copied, linked or removed in earnest is in a
/// notice.
pub proof fn law_dry_run_says_what_a_run_does(w: SyncView, event: Event<Seq<u8>>)
    requires
        w.config.dry_run,
        only_looks(w.phase),
    ensures
        ({
            let notices = sync_step(w, event).1;
            let (done, orders) = sync_step(in_earnest(w), event);
            said_is_done(notices, done, orders) && done_is_said(w, notices, done, orders)
        }),
{
    match w.phase {
        SyncPhase::Surveying => lemma_dry_end_keeps_word(w, event),
        SyncPhase::Listing => lemma_dry_end_keeps_word(w, event),
        SyncPhase::DirTarget(_) => lemma_dry_dir_keeps_word(w, event),
        SyncPhase::FileTarget(_, _) => lemma_dry_file_keeps_word(w, event),
        SyncPhase::FileDigest(_) => lemma_dry_file_keeps_word(w, event),
        SyncPhase::NameTarget(_, _) => lemma_dry_link_keeps_word(w, event),
        SyncPhase::NamePeer(_, _, _) => lemma_dry_link_keeps_word(w, event),
        SyncPhase::LinkTarget(_, _) => lemma_dry_link_keeps_word(w, event),
        SyncPhase::LinkPeer(_, _) => lemma_dry_link_keeps_word(w, event),
        SyncPhase::Reading(_, _) => lemma_dry_reading_keeps_word(w, event),
        _ => {},
    }
}

/// Whether two walks know the same of source and destination.
pub open spec fn knows_the_same(a: SyncView, b: SyncView) -> bool {
    &&& a.source == b.source && a.dest == b.dest
    &&& a.seen == b.seen
    &&& a.first_names == b.first_names
    &&& a.candidates == b.candidates
    &&& a.stale == b.stale
}

/// A dry run learns what a run in earnest learns on the same answer, goes the
/// same way unless that would change something, and has the same files
/// compared in the end.
pub proof fn law_dry_run_learns_the_same(w: SyncView, event: Event<Seq<u8>>)
    requires
        w.config.dry_run,
        only_looks(w.phase),
    ensures
        ({
            let (said, notices) = sync_step(w, event);
            let (done, orders) = sync_step(in_earnest(w), event);
            &&& knows_the_same(said, done)
            &&& only_looks(done.phase) ==> said.phase == done.phase && notices.next == orders.next
            &&& !only_looks(done.phase) ==> said.phase is Walking
            &&& notices.verify == orders.verify
        }),
{
}

/// The destination is listed exactly where it is a directory, of what is
/// listed exactly that is noted which lies below the destination at a place
/// that was not met in the source, and nothing else is told of by the end of
/// the walk. All files that are left to be compared are, at the end of the
/// run.
pub proof fn law_listing_finds_what_is_stale(w: SyncView, event: Event<Seq<u8>>)
    ensures
        ({
            let (next, reply) = sync_step(w, event);
            &&& w.phase is Surveying && event == Event::<Seq<u8>>::Answer(true)
                ==> next.phase is OpeningList
            &&& w.phase is Surveying && event == Event::<Seq<u8>>::Answer(false)
                ==> reply.next is Finished
            &&& w.phase is Listing ==> match event {
                Event::Entry(Some(path)) => next.stale == (if inside(path, w.dest) && components(
                    path,
                ).len() > components(w.dest).len() && !w.seen.contains(
                    below(components(path), components(w.dest)),
                ) {
                    w.stale.push(path)
                } else {
                    w.stale
                }),
                _ => next.stale == w.stale,
            }
            &&& w.phase is Walking && event is End ==> next.phase is Surveying
            &&& reply.next is Finished ==> {
                &&& reply.verify == w.candidates
                &&& w.phase is Listing && event is End || w.phase is Surveying && event
                    == Event::<Seq<u8>>::Answer(false)
            }
            &&& !(reply.next is Finished) ==> reply.verify.len() == 0 && reply.delete.len() == 0
        }),
{
    match (w.phase, event) {
        (SyncPhase::Listing, Event::Entry(Some(path))) => lemma_stale_place(path, w.dest, w.seen),
        _ => {},
    }
}

} // verus!
