//! Mirroring a tree: what a walk of the source queues and changes, and what
//! it then removes from the destination.

use std::collections::HashMap;
use vstd::prelude::*;

use crate::checksum::same_digest;
use crate::config::Config;
use crate::entry::{place, placed, Entry};
use crate::error::XcpError;
use crate::metadata::{differs, inode_key, inode_key_of, needs_copy, FileType, Metadata};
use crate::path::{components, PathBuf};
use crate::path_set::PathSet;
use crate::protocol::{
    add_command, add_unlocking, ask, candidates_of, commands_of, fail, given, no_commands,
    out_of_turn, paths_of, reply, replying, unlocking, Candidate, Command, Event, Next, Notice,
    Operation, Query, Reply, ReplyView,
};
use crate::prune::{is_stale, removal, remove_entry, stale, subtree_roots, tops};

verus! {

/// What the walk waits for.
pub enum SyncPhase<P = PathBuf> {
    /// The start of the run.
    Ready,
    /// Whether the destination exists.
    Preparing,
    /// The walk of the source to begin.
    Opening,
    /// The next entry of the source.
    Walking,
    /// Where the walked path leads.
    Resolving(P),
    /// The metadata of the walked path, read at the second one.
    Reading(P, P),
    /// What stands where a directory belongs.
    DirTarget(Entry<P>),
    /// The mode of the directory that stands there now.
    DirMode(Entry<P>),
    /// What stands where a file belongs; whether the file is to be copied at
    /// once.
    FileTarget(Entry<P>, bool),
    /// The digests of a file and of its target.
    FileDigest(Entry<P>),
    /// Whether what stands there now can be written; whether the file is to
    /// be copied at once.
    FileWritable(Entry<P>, bool),
    /// What stands where another name of the given target belongs.
    NameTarget(Entry<P>, P),
    /// The given target itself, for a file found where its name belongs.
    NamePeer(Entry<P>, P, Metadata),
    /// What is in the way of the name.
    NameClear(Entry<P>, P),
    /// What the source's symlink holds.
    LinkText(Entry<P>),
    /// What stands where a symlink with the given text belongs.
    LinkTarget(Entry<P>, P),
    /// What the symlink that stands there holds.
    LinkPeer(Entry<P>, P),
    /// What is in the way of the symlink.
    LinkClear(Entry<P>, P),
    /// Whether the destination is a directory.
    Surveying,
    /// The listing of the destination to begin.
    OpeningList,
    /// The next path of the destination.
    Listing,
    /// Nothing: the run is over.
    Done,
}

impl View for SyncPhase<PathBuf> {
    type V = SyncPhase<Seq<u8>>;

    open spec fn view(&self) -> SyncPhase<Seq<u8>> {
        match self {
            SyncPhase::Ready => SyncPhase::Ready,
            SyncPhase::Preparing => SyncPhase::Preparing,
            SyncPhase::Opening => SyncPhase::Opening,
            SyncPhase::Walking => SyncPhase::Walking,
            SyncPhase::Resolving(p) => SyncPhase::Resolving(p@),
            SyncPhase::Reading(p, q) => SyncPhase::Reading(p@, q@),
            SyncPhase::DirTarget(e) => SyncPhase::DirTarget(e@),
            SyncPhase::DirMode(e) => SyncPhase::DirMode(e@),
            SyncPhase::FileTarget(e, now) => SyncPhase::FileTarget(e@, *now),
            SyncPhase::FileDigest(e) => SyncPhase::FileDigest(e@),
            SyncPhase::FileWritable(e, now) => SyncPhase::FileWritable(e@, *now),
            SyncPhase::NameTarget(e, first) => SyncPhase::NameTarget(e@, first@),
            SyncPhase::NamePeer(e, first, m) => SyncPhase::NamePeer(e@, first@, *m),
            SyncPhase::NameClear(e, first) => SyncPhase::NameClear(e@, first@),
            SyncPhase::LinkText(e) => SyncPhase::LinkText(e@),
            SyncPhase::LinkTarget(e, t) => SyncPhase::LinkTarget(e@, t@),
            SyncPhase::LinkPeer(e, t) => SyncPhase::LinkPeer(e@, t@),
            SyncPhase::LinkClear(e, t) => SyncPhase::LinkClear(e@, t@),
            SyncPhase::Surveying => SyncPhase::Surveying,
            SyncPhase::OpeningList => SyncPhase::OpeningList,
            SyncPhase::Listing => SyncPhase::Listing,
            SyncPhase::Done => SyncPhase::Done,
        }
    }
}

/// A walk of a source tree that makes a destination tree mirror it.
pub struct SyncWalk {
    source: PathBuf,
    dest: PathBuf,
    config: Config,
    seen: PathSet,
    first_names: HashMap<u128, PathBuf>,
    candidates: Vec<Candidate>,
    stale: Vec<PathBuf>,
    phase: SyncPhase,
}

/// What is known in the course of a walk.
#[verifier::ext_equal]
pub ghost struct SyncView {
    /// What is mirrored.
    pub source: Seq<u8>,
    /// Where to.
    pub dest: Seq<u8>,
    /// How.
    pub config: Config,
    /// The places of all entries met in the source.
    pub seen: Set<Seq<Seq<u8>>>,
    /// The target of the first name met of each inode that has several.
    pub first_names: Map<u128, Seq<u8>>,
    /// The files whose contents are still to be compared.
    pub candidates: Seq<Candidate<Seq<u8>>>,
    /// The paths of the destination that have no counterpart.
    pub stale: Seq<Seq<u8>>,
    /// What the walk waits for.
    pub phase: SyncPhase<Seq<u8>>,
}

/// The texts of the paths that a map leads to.
pub open spec fn names_of(map: Map<u128, PathBuf>) -> Map<u128, Seq<u8>> {
    map.map_values(|p: PathBuf| p@)
}

impl View for SyncWalk {
    type V = SyncView;

    closed spec fn view(&self) -> SyncView {
        SyncView {
            source: self.source@,
            dest: self.dest@,
            config: self.config,
            seen: self.seen@,
            first_names: names_of(self.first_names@),
            candidates: candidates_of(self.candidates@),
            stale: paths_of(self.stale@),
            phase: self.phase@,
        }
    }
}

/// A walk that has not begun.
pub open spec fn beginning(source: Seq<u8>, dest: Seq<u8>, config: Config) -> SyncView {
    SyncView {
        source,
        dest,
        config,
        seen: Set::empty(),
        first_names: Map::empty(),
        candidates: seq![],
        stale: seq![],
        phase: SyncPhase::Ready,
    }
}

/// Waits in the given phase for an answer, after the given commands.
pub open spec fn sync_ask(
    w: SyncView,
    phase: SyncPhase<Seq<u8>>,
    commands: Seq<Command<Seq<u8>>>,
    query: Query<Seq<u8>>,
) -> (SyncView, ReplyView) {
    (SyncView { phase, ..w }, replying(commands, Next::Ask(query)))
}

/// Carries out commands and goes on to the next entry.
pub open spec fn sync_go_on(
    w: SyncView,
    commands: Seq<Command<Seq<u8>>>,
) -> (SyncView, ReplyView) {
    sync_ask(w, SyncPhase::Walking, commands, Query::NextEntry)
}

/// Ends the run with an error.
pub open spec fn sync_stop(w: SyncView, error: XcpError<Seq<u8>>) -> (SyncView, ReplyView) {
    (SyncView { phase: SyncPhase::Done, ..w }, replying(seq![], Next::Failed(error)))
}

/// The extended attributes of an entry, where they are mirrored.
pub open spec fn xattr_commands(w: SyncView, e: Entry<Seq<u8>>) -> Seq<Command<Seq<u8>>> {
    given(
        !w.config.dry_run && w.config.copy_xattrs,
        seq![Command::SyncXattrs(e.from, e.target)],
    )
}

/// What makes a directory stand at the target, given what stands there.
pub open spec fn dir_commands(
    w: SyncView,
    e: Entry<Seq<u8>>,
    found: Option<Metadata>,
) -> Seq<Command<Seq<u8>>> {
    match found {
        None => if w.config.dry_run {
            seq![Command::Notice(Notice::CreateDir(e.target))]
        } else {
            seq![Command::CreateTargetDir(e.target)]
        },
        Some(meta) => if meta.kind == FileType::Dir {
            seq![]
        } else if w.config.dry_run {
            seq![Command::Notice(Notice::ReplaceWithDir(e.target))]
        } else {
            seq![Command::RemoveFile(e.target), Command::CreateDirAll(e.target)]
        },
    }
}

/// What the walk does for a directory, given what stands at its target.
pub open spec fn sync_dir_target(
    w: SyncView,
    e: Entry<Seq<u8>>,
    found: Option<Metadata>,
) -> (SyncView, ReplyView) {
    let commands = dir_commands(w, e, found) + given(
        !w.config.dry_run && w.config.ownership,
        seq![Command::Chown(e.target, e.meta.uid, e.meta.gid)],
    );
    if !w.config.dry_run && !w.config.no_perms {
        sync_ask(w, SyncPhase::DirMode(e), commands, Query::Lstat(e.target))
    } else {
        sync_go_on(w, commands + xattr_commands(w, e))
    }
}

/// What the walk does for a directory that is in place.
pub open spec fn sync_dir_mode(
    w: SyncView,
    e: Entry<Seq<u8>>,
    found: Option<Metadata>,
) -> (SyncView, ReplyView) {
    let commands = given(
        found is Some && found->0.mode != e.meta.mode,
        seq![Command::SetMode(e.target, e.meta.mode)],
    );
    sync_go_on(w, commands + xattr_commands(w, e))
}

/// Whether a file must be copied, by what stands at its target: nothing, a
/// directory or a symlink that is not a file at all, or something that
/// differs from the source.
pub open spec fn must_copy(w: SyncView, e: Entry<Seq<u8>>, found: Option<Metadata>) -> bool {
    match found {
        None => true,
        Some(meta) => {
            ||| meta.kind == FileType::Dir
            ||| meta.kind == FileType::Symlink
            ||| differs(e.meta, meta, w.config)
        },
    }
}

/// What takes a directory or a symlink out of the way of a file.
pub open spec fn file_clearing(
    e: Entry<Seq<u8>>,
    found: Option<Metadata>,
) -> Seq<Command<Seq<u8>>> {
    given(
        found is Some && (found->0.kind == FileType::Dir || found->0.kind == FileType::Symlink),
        removal(e.target, found),
    )
}

/// What the walk does for a file that must be copied.
pub open spec fn sync_copy(
    w: SyncView,
    e: Entry<Seq<u8>>,
    now: bool,
    clearing: Seq<Command<Seq<u8>>>,
) -> (SyncView, ReplyView) {
    if w.config.dry_run {
        sync_go_on(w, seq![Command::Notice(Notice::Copy(e.from, e.target))])
    } else {
        sync_ask(w, SyncPhase::FileWritable(e, now), clearing, Query::Lstat(e.target))
    }
}

/// What the walk does for a file, given what stands at its target.
pub open spec fn sync_file_target(
    w: SyncView,
    e: Entry<Seq<u8>>,
    now: bool,
    found: Option<Metadata>,
) -> (SyncView, ReplyView) {
    if must_copy(w, e, found) {
        sync_copy(w, e, now, file_clearing(e, found))
    } else if w.config.checksum {
        if now {
            sync_ask(w, SyncPhase::FileDigest(e), seq![], Query::Digests(e.from, e.target))
        } else {
            let candidate = Candidate { from: e.from, target: e.target, len: e.meta.len };
            sync_go_on(SyncView { candidates: w.candidates.push(candidate), ..w }, seq![])
        }
    } else {
        sync_go_on(w, xattr_commands(w, e))
    }
}

/// What the walk does for a file once the contents are compared. Contents
/// that could not be read count as the same.
pub open spec fn sync_file_digest(
    w: SyncView,
    e: Entry<Seq<u8>>,
    digests: Option<([u8; 32], [u8; 32])>,
) -> (SyncView, ReplyView) {
    match digests {
        Some((a, b)) if a@ != b@ => sync_copy(w, e, true, seq![]),
        _ => sync_go_on(w, xattr_commands(w, e)),
    }
}

/// What copies a file, given what stands at its target by now: a file that
/// its owner may not write is made writable first.
pub open spec fn sync_file_writable(
    w: SyncView,
    e: Entry<Seq<u8>>,
    now: bool,
    found: Option<Metadata>,
) -> (SyncView, ReplyView) {
    let copying = if now {
        Command::CopyNow(e.from, e.target)
    } else {
        Command::Send(Operation::Copy(e.from, e.target))
    };
    sync_go_on(w, unlocking(e.target, found) + seq![Command::Size(e.meta.len), copying])
}

/// What the walk does where a name of the first target is missing.
pub open spec fn sync_name(
    w: SyncView,
    e: Entry<Seq<u8>>,
    first: Seq<u8>,
) -> (SyncView, ReplyView) {
    if w.config.dry_run {
        sync_go_on(w, seq![Command::Notice(Notice::HardLink(e.target, first))])
    } else {
        sync_ask(w, SyncPhase::NameClear(e, first), seq![], Query::Lstat(e.target))
    }
}

/// What the walk does for a further name of an inode, given what stands at
/// its target.
pub open spec fn sync_name_target(
    w: SyncView,
    e: Entry<Seq<u8>>,
    first: Seq<u8>,
    found: Option<Metadata>,
) -> (SyncView, ReplyView) {
    if found is Some && found->0.kind == FileType::File {
        sync_ask(w, SyncPhase::NamePeer(e, first, found->0), seq![], Query::Lstat(first))
    } else {
        sync_name(w, e, first)
    }
}

/// What the walk does for a further name of an inode, given the file that
/// stands at its target and the first name's target.
pub open spec fn sync_name_peer(
    w: SyncView,
    e: Entry<Seq<u8>>,
    first: Seq<u8>,
    stands: Metadata,
    peer: Option<Metadata>,
) -> (SyncView, ReplyView) {
    if peer is Some && peer->0.ino == stands.ino && peer->0.dev == stands.dev {
        sync_go_on(w, seq![])
    } else {
        sync_name(w, e, first)
    }
}

/// What makes the target another name of the first one.
pub open spec fn sync_name_clear(
    w: SyncView,
    e: Entry<Seq<u8>>,
    first: Seq<u8>,
    found: Option<Metadata>,
) -> (SyncView, ReplyView) {
    sync_go_on(w, removal(e.target, found) + seq![Command::HardLink(first, e.target)])
}

/// What the walk does where a symlink is missing.
pub open spec fn sync_link(w: SyncView, e: Entry<Seq<u8>>, text: Seq<u8>) -> (SyncView, ReplyView) {
    if w.config.dry_run {
        sync_go_on(w, seq![Command::Notice(Notice::CreateSymlink(e.target, text))])
    } else {
        sync_ask(w, SyncPhase::LinkClear(e, text), seq![], Query::Lstat(e.target))
    }
}

/// What the walk does for a symlink, given what stands at its target.
pub open spec fn sync_link_target(
    w: SyncView,
    e: Entry<Seq<u8>>,
    text: Seq<u8>,
    found: Option<Metadata>,
) -> (SyncView, ReplyView) {
    if found is Some && found->0.kind == FileType::Symlink {
        sync_ask(w, SyncPhase::LinkPeer(e, text), seq![], Query::ReadLink(e.target))
    } else {
        sync_link(w, e, text)
    }
}

/// What the walk does for a symlink, given what the one at its target holds.
pub open spec fn sync_link_peer(
    w: SyncView,
    e: Entry<Seq<u8>>,
    text: Seq<u8>,
    peer: Seq<u8>,
) -> (SyncView, ReplyView) {
    if components(peer) == components(text) {
        sync_go_on(w, seq![])
    } else {
        sync_link(w, e, text)
    }
}

/// What makes the target a symlink.
pub open spec fn sync_link_clear(
    w: SyncView,
    e: Entry<Seq<u8>>,
    text: Seq<u8>,
    found: Option<Metadata>,
) -> (SyncView, ReplyView) {
    sync_go_on(
        w,
        removal(e.target, found) + seq![Command::Send(Operation::Link(text, e.target))],
    )
}

/// What the walk does for a special file.
pub open spec fn sync_special(w: SyncView, e: Entry<Seq<u8>>) -> (SyncView, ReplyView) {
    let commands = if w.config.dry_run {
        seq![Command::Notice(Notice::CopySpecial(e.from, e.target))]
    } else {
        seq![Command::Send(Operation::Special(e.from, e.target))]
    };
    sync_go_on(w, given(w.config.copy_special, commands))
}

/// What the walk does for a regular file. Of an inode with several names, the
/// first name met is copied at once, for the others to be linked to.
pub open spec fn sync_file(w: SyncView, e: Entry<Seq<u8>>) -> (SyncView, ReplyView) {
    let key = inode_key(e.meta.dev, e.meta.ino);
    let shared = w.config.preserve_hardlinks && e.meta.nlink > 1;
    let query = Query::Lstat(e.target);
    if shared && w.first_names.contains_key(key) {
        sync_ask(w, SyncPhase::NameTarget(e, w.first_names[key]), seq![], query)
    } else if shared {
        let w = SyncView { first_names: w.first_names.insert(key, e.target), ..w };
        sync_ask(w, SyncPhase::FileTarget(e, true), seq![], query)
    } else {
        sync_ask(w, SyncPhase::FileTarget(e, false), seq![], query)
    }
}

/// What the walk does for an entry, by its kind.
pub open spec fn sync_entry(w: SyncView, e: Entry<Seq<u8>>) -> (SyncView, ReplyView) {
    match e.meta.kind {
        FileType::Dir => sync_ask(
            w,
            SyncPhase::DirTarget(e),
            seq![],
            Query::Lstat(e.target),
        ),
        FileType::File => sync_file(w, e),
        FileType::Symlink => sync_ask(
            w,
            SyncPhase::LinkText(e),
            seq![],
            Query::ReadLink(e.from),
        ),
        FileType::Socket | FileType::Char | FileType::Fifo | FileType::Block => sync_special(w, e),
        FileType::Other => sync_stop(w, XcpError::UnknownFileType(e.target)),
    }
}

/// What the walk does once the metadata of an entry is known: its place is
/// noted, whatever its kind.
pub open spec fn sync_placed(
    w: SyncView,
    path: Seq<u8>,
    from: Seq<u8>,
    meta: Metadata,
) -> (SyncView, ReplyView) {
    match placed(w.source, w.dest, path) {
        None => sync_stop(w, XcpError::OutsideSource),
        Some((rel, target)) => sync_entry(
            SyncView { seen: w.seen.insert(components(rel)), ..w },
            Entry { from, target, meta },
        ),
    }
}

/// What a dry run says of subtrees that would be removed.
pub open spec fn delete_notices(roots: Seq<Seq<u8>>) -> Seq<Command<Seq<u8>>> {
    roots.map_values(|p: Seq<u8>| Command::Notice(Notice::Delete(p)))
}

/// The end of the run: the subtrees without counterpart are removed, and the
/// contents that are still to be compared are compared.
pub open spec fn sync_finish(w: SyncView) -> (SyncView, ReplyView) {
    let roots = tops(w.stale);
    (
        SyncView { phase: SyncPhase::Done, ..w },
        ReplyView {
            commands: if w.config.dry_run {
                delete_notices(roots)
            } else {
                seq![]
            },
            delete: if w.config.dry_run {
                seq![]
            } else {
                roots
            },
            verify: w.candidates,
            next: Next::Finished,
        },
    )
}

/// What the walk does on an event.
pub open spec fn sync_step(w: SyncView, event: Event<Seq<u8>>) -> (SyncView, ReplyView) {
    match (w.phase, event) {
        (SyncPhase::Ready, Event::Begin) => sync_ask(
            w,
            SyncPhase::Preparing,
            seq![],
            Query::Exists(w.dest),
        ),
        (SyncPhase::Preparing, Event::Answer(stands)) => sync_ask(
            w,
            SyncPhase::Opening,
            given(!stands && !w.config.dry_run, seq![Command::CreateDirAll(w.dest)]),
            Query::BeginWalk(w.source),
        ),
        (SyncPhase::Opening, Event::Begun) => sync_go_on(w, seq![]),
        (SyncPhase::Walking, Event::Entry(Some(path))) => if w.config.dereference {
            sync_ask(w, SyncPhase::Resolving(path), seq![], Query::Canonicalize(path))
        } else {
            sync_ask(w, SyncPhase::Reading(path, path), seq![], Query::SourceMeta(path))
        },
        (SyncPhase::Walking, Event::End) => sync_ask(
            w,
            SyncPhase::Surveying,
            seq![],
            Query::IsDir(w.dest),
        ),
        (SyncPhase::Resolving(path), Event::Path(from)) => sync_ask(
            w,
            SyncPhase::Reading(path, from),
            seq![],
            Query::SourceMeta(from),
        ),
        (SyncPhase::Reading(path, from), Event::Meta(Some(meta))) => sync_placed(
            w,
            path,
            from,
            meta,
        ),
        (SyncPhase::DirTarget(e), Event::Meta(found)) => sync_dir_target(w, e, found),
        (SyncPhase::DirMode(e), Event::Meta(found)) => sync_dir_mode(w, e, found),
        (SyncPhase::FileTarget(e, now), Event::Meta(found)) => sync_file_target(w, e, now, found),
        (SyncPhase::FileDigest(e), Event::Digests(digests)) => sync_file_digest(w, e, digests),
        (SyncPhase::FileWritable(e, now), Event::Meta(found)) => sync_file_writable(
            w,
            e,
            now,
            found,
        ),
        (SyncPhase::NameTarget(e, first), Event::Meta(found)) => sync_name_target(
            w,
            e,
            first,
            found,
        ),
        (SyncPhase::NamePeer(e, first, stands), Event::Meta(peer)) => sync_name_peer(
            w,
            e,
            first,
            stands,
            peer,
        ),
        (SyncPhase::NameClear(e, first), Event::Meta(found)) => sync_name_clear(
            w,
            e,
            first,
            found,
        ),
        (SyncPhase::LinkText(e), Event::Path(text)) => sync_ask(
            w,
            SyncPhase::LinkTarget(e, text),
            seq![],
            Query::Lstat(e.target),
        ),
        (SyncPhase::LinkTarget(e, text), Event::Meta(found)) => sync_link_target(
            w,
            e,
            text,
            found,
        ),
        (SyncPhase::LinkPeer(e, text), Event::Path(peer)) => sync_link_peer(w, e, text, peer),
        (SyncPhase::LinkClear(e, text), Event::Meta(found)) => sync_link_clear(
            w,
            e,
            text,
            found,
        ),
        (SyncPhase::Surveying, Event::Answer(is_dir)) => if is_dir {
            sync_ask(w, SyncPhase::OpeningList, seq![], Query::BeginListing(w.dest))
        } else {
            sync_finish(w)
        },
        (SyncPhase::OpeningList, Event::Begun) => sync_ask(
            w,
            SyncPhase::Listing,
            seq![],
            Query::NextListed,
        ),
        (SyncPhase::Listing, Event::Entry(path)) => {
            let stale = if path is Some && is_stale(path->0, w.dest, w.seen) {
                w.stale.push(path->0)
            } else {
                w.stale
            };
            sync_ask(SyncView { stale, ..w }, SyncPhase::Listing, seq![], Query::NextListed)
        },
        (SyncPhase::Listing, Event::End) => sync_finish(w),
        _ => (w, replying(seq![], Next::OutOfTurn)),
    }
}

impl SyncWalk {
    /// A walk that has not begun.
    pub fn new(source: PathBuf, dest: PathBuf, config: Config) -> (res: SyncWalk)
        ensures
            res@ == beginning(source@, dest@, config),
    {
        let res = SyncWalk {
            source,
            dest,
            config,
            seen: PathSet::new(),
            first_names: HashMap::new(),
            candidates: Vec::new(),
            stale: Vec::new(),
            phase: SyncPhase::Ready,
        };
        assert(res@.first_names =~= Map::empty());
        assert(res@.candidates =~= seq![]);
        assert(res@.stale =~= seq![]);
        res
    }

    /// Waits in the given phase for an answer, after the given commands.
    fn waiting(self, phase: SyncPhase, commands: Vec<Command>, query: Query) -> (res: (
        SyncWalk,
        Reply,
    ))
        ensures
            (res.0@, res.1@) == sync_ask(self@, phase@, commands_of(commands@), query@),
    {
        (SyncWalk { phase, ..self }, reply(commands, Next::Ask(query)))
    }

    /// Waits in the given phase for an answer.
    fn asking(self, phase: SyncPhase, query: Query) -> (res: (SyncWalk, Reply))
        ensures
            (res.0@, res.1@) == sync_ask(self@, phase@, seq![], query@),
    {
        (SyncWalk { phase, ..self }, ask(query))
    }

    /// Carries out commands and goes on to the next entry.
    fn go_on(self, commands: Vec<Command>) -> (res: (SyncWalk, Reply))
        ensures
            (res.0@, res.1@) == sync_go_on(self@, commands_of(commands@)),
    {
        self.waiting(SyncPhase::Walking, commands, Query::NextEntry)
    }

    /// Ends the run with an error.
    fn stop(self, error: XcpError) -> (res: (SyncWalk, Reply))
        ensures
            (res.0@, res.1@) == sync_stop(self@, error@),
    {
        (SyncWalk { phase: SyncPhase::Done, ..self }, fail(error))
    }

    /// Adds the extended attributes of an entry, where they are mirrored.
    fn add_xattrs(&self, commands: &mut Vec<Command>, e: &Entry)
        ensures
            commands_of(final(commands)@) == commands_of(old(commands)@) + xattr_commands(
                self@,
                e@,
            ),
    {
        if !self.config.dry_run && self.config.copy_xattrs {
            add_command(commands, Command::SyncXattrs(e.from.clone(), e.target.clone()));
        }
        assert(commands_of(commands@) =~= commands_of(old(commands)@) + xattr_commands(self@, e@));
    }

    fn dir_target(self, e: Entry, found: Option<Metadata>) -> (res: (SyncWalk, Reply))
        ensures
            (res.0@, res.1@) == sync_dir_target(self@, e@, found),
    {
        let mut commands = no_commands();
        let target = e.target.clone();
        match found {
            None => {
                if self.config.dry_run {
                    add_command(&mut commands, Command::Notice(Notice::CreateDir(target)));
                } else {
                    add_command(&mut commands, Command::CreateTargetDir(target));
                }
            },
            Some(meta) => {
                if meta.kind == FileType::Dir {
                } else if self.config.dry_run {
                    add_command(&mut commands, Command::Notice(Notice::ReplaceWithDir(target)));
                } else {
                    add_command(&mut commands, Command::RemoveFile(e.target.clone()));
                    add_command(&mut commands, Command::CreateDirAll(target));
                }
            },
        }
        assert(commands_of(commands@) =~= dir_commands(self@, e@, found));
        if !self.config.dry_run && self.config.ownership {
            add_command(
                &mut commands,
                Command::Chown(e.target.clone(), e.meta.uid, e.meta.gid),
            );
        }
        assert(commands_of(commands@) =~= dir_commands(self@, e@, found) + given(
            self@.config.dry_run == false && self@.config.ownership,
            seq![Command::Chown(e@.target, e@.meta.uid, e@.meta.gid)],
        ));
        if !self.config.dry_run && !self.config.no_perms {
            let asked = e.target.clone();
            self.waiting(SyncPhase::DirMode(e), commands, Query::Lstat(asked))
        } else {
            self.add_xattrs(&mut commands, &e);
            self.go_on(commands)
        }
    }

    fn dir_mode(self, e: Entry, found: Option<Metadata>) -> (res: (SyncWalk, Reply))
        ensures
            (res.0@, res.1@) == sync_dir_mode(self@, e@, found),
    {
        let mut commands = no_commands();
        match found {
            Some(meta) => {
                if meta.mode != e.meta.mode {
                    add_command(&mut commands, Command::SetMode(e.target.clone(), e.meta.mode));
                }
            },
            None => {},
        }
        assert(commands_of(commands@) =~= given(
            found is Some && found->0.mode != e@.meta.mode,
            seq![Command::SetMode(e@.target, e@.meta.mode)],
        ));
        self.add_xattrs(&mut commands, &e);
        self.go_on(commands)
    }

    fn copy(self, e: Entry, now: bool, clearing: Vec<Command>) -> (res: (SyncWalk, Reply))
        ensures
            (res.0@, res.1@) == sync_copy(self@, e@, now, commands_of(clearing@)),
    {
        if self.config.dry_run {
            let mut commands = no_commands();
            add_command(&mut commands, Command::Notice(Notice::Copy(e.from, e.target)));
            assert(commands_of(commands@) =~= seq![
                Command::Notice(Notice::Copy(e@.from, e@.target)),
            ]);
            self.go_on(commands)
        } else {
            let asked = e.target.clone();
            self.waiting(SyncPhase::FileWritable(e, now), clearing, Query::Lstat(asked))
        }
    }

    fn file_target(self, e: Entry, now: bool, found: Option<Metadata>) -> (res: (SyncWalk, Reply))
        ensures
            (res.0@, res.1@) == sync_file_target(self@, e@, now, found),
    {
        let mut clearing = no_commands();
        let must = match found {
            None => true,
            Some(meta) => {
                if meta.kind == FileType::Dir || meta.kind == FileType::Symlink {
                    clearing = remove_entry(e.target.clone(), found);
                    true
                } else {
                    needs_copy(&e.meta, &meta, &self.config)
                }
            },
        };
        assert(must == must_copy(self@, e@, found));
        assert(commands_of(clearing@) =~= file_clearing(e@, found));
        if must {
            self.copy(e, now, clearing)
        } else if self.config.checksum {
            if now {
                let from = e.from.clone();
                let target = e.target.clone();
                self.asking(SyncPhase::FileDigest(e), Query::Digests(from, target))
            } else {
                let candidate = Candidate { from: e.from, target: e.target, len: e.meta.len };
                let mut walk = self;
                walk.candidates.push(candidate);
                assert(walk@.candidates =~= self@.candidates.push(candidate@));
                walk.go_on(no_commands())
            }
        } else {
            let mut commands = no_commands();
            self.add_xattrs(&mut commands, &e);
            assert(commands_of(commands@) =~= xattr_commands(self@, e@));
            self.go_on(commands)
        }
    }

    fn file_digest(self, e: Entry, digests: Option<([u8; 32], [u8; 32])>) -> (res: (
        SyncWalk,
        Reply,
    ))
        ensures
            (res.0@, res.1@) == sync_file_digest(self@, e@, digests),
    {
        let mut commands = no_commands();
        let differ = match digests {
            Some((a, b)) => !same_digest(&a, &b),
            None => false,
        };
        if differ {
            self.copy(e, true, commands)
        } else {
            self.add_xattrs(&mut commands, &e);
            assert(commands_of(commands@) =~= xattr_commands(self@, e@));
            self.go_on(commands)
        }
    }

    fn file_writable(self, e: Entry, now: bool, found: Option<Metadata>) -> (res: (SyncWalk, Reply))
        ensures
            (res.0@, res.1@) == sync_file_writable(self@, e@, now, found),
    {
        let mut commands = no_commands();
        add_unlocking(&mut commands, &e.target, found);
        add_command(&mut commands, Command::Size(e.meta.len));
        if now {
            add_command(&mut commands, Command::CopyNow(e.from, e.target));
        } else {
            add_command(&mut commands, Command::Send(Operation::Copy(e.from, e.target)));
        }
        assert(commands_of(commands@) =~= sync_file_writable(self@, e@, now, found).1.commands);
        self.go_on(commands)
    }

    fn name(self, e: Entry, first: PathBuf) -> (res: (SyncWalk, Reply))
        ensures
            (res.0@, res.1@) == sync_name(self@, e@, first@),
    {
        if self.config.dry_run {
            let mut commands = no_commands();
            add_command(&mut commands, Command::Notice(Notice::HardLink(e.target, first)));
            assert(commands_of(commands@) =~= seq![
                Command::Notice(Notice::HardLink(e@.target, first@)),
            ]);
            self.go_on(commands)
        } else {
            let asked = e.target.clone();
            self.asking(SyncPhase::NameClear(e, first), Query::Lstat(asked))
        }
    }

    fn name_target(self, e: Entry, first: PathBuf, found: Option<Metadata>) -> (res: (
        SyncWalk,
        Reply,
    ))
        ensures
            (res.0@, res.1@) == sync_name_target(self@, e@, first@, found),
    {
        match found {
            Some(meta) => {
                if meta.kind == FileType::File {
                    let asked = first.clone();
                    return self.asking(SyncPhase::NamePeer(e, first, meta), Query::Lstat(asked));
                }
            },
            None => {},
        }
        self.name(e, first)
    }

    fn name_peer(self, e: Entry, first: PathBuf, stands: Metadata, peer: Option<Metadata>) -> (res:
        (SyncWalk, Reply))
        ensures
            (res.0@, res.1@) == sync_name_peer(self@, e@, first@, stands, peer),
    {
        match peer {
            Some(meta) => {
                if meta.ino == stands.ino && meta.dev == stands.dev {
                    return self.go_on(no_commands());
                }
            },
            None => {},
        }
        self.name(e, first)
    }

    fn name_clear(self, e: Entry, first: PathBuf, found: Option<Metadata>) -> (res: (
        SyncWalk,
        Reply,
    ))
        ensures
            (res.0@, res.1@) == sync_name_clear(self@, e@, first@, found),
    {
        let mut commands = remove_entry(e.target.clone(), found);
        add_command(&mut commands, Command::HardLink(first, e.target));
        assert(commands_of(commands@) =~= removal(e@.target, found) + seq![
            Command::HardLink(first@, e@.target),
        ]);
        self.go_on(commands)
    }

    fn link(self, e: Entry, text: PathBuf) -> (res: (SyncWalk, Reply))
        ensures
            (res.0@, res.1@) == sync_link(self@, e@, text@),
    {
        if self.config.dry_run {
            let mut commands = no_commands();
            add_command(&mut commands, Command::Notice(Notice::CreateSymlink(e.target, text)));
            assert(commands_of(commands@) =~= seq![
                Command::Notice(Notice::CreateSymlink(e@.target, text@)),
            ]);
            self.go_on(commands)
        } else {
            let asked = e.target.clone();
            self.asking(SyncPhase::LinkClear(e, text), Query::Lstat(asked))
        }
    }

    fn link_target(self, e: Entry, text: PathBuf, found: Option<Metadata>) -> (res: (
        SyncWalk,
        Reply,
    ))
        ensures
            (res.0@, res.1@) == sync_link_target(self@, e@, text@, found),
    {
        match found {
            Some(meta) => {
                if meta.kind == FileType::Symlink {
                    let asked = e.target.clone();
                    return self.asking(SyncPhase::LinkPeer(e, text), Query::ReadLink(asked));
                }
            },
            None => {},
        }
        self.link(e, text)
    }

    fn link_peer(self, e: Entry, text: PathBuf, peer: PathBuf) -> (res: (SyncWalk, Reply))
        ensures
            (res.0@, res.1@) == sync_link_peer(self@, e@, text@, peer@),
    {
        if peer.same_as(&text) {
            self.go_on(no_commands())
        } else {
            self.link(e, text)
        }
    }

    fn link_clear(self, e: Entry, text: PathBuf, found: Option<Metadata>) -> (res: (
        SyncWalk,
        Reply,
    ))
        ensures
            (res.0@, res.1@) == sync_link_clear(self@, e@, text@, found),
    {
        let mut commands = remove_entry(e.target.clone(), found);
        add_command(&mut commands, Command::Send(Operation::Link(text, e.target)));
        assert(commands_of(commands@) =~= removal(e@.target, found) + seq![
            Command::Send(Operation::Link(text@, e@.target)),
        ]);
        self.go_on(commands)
    }

    fn special(self, e: Entry) -> (res: (SyncWalk, Reply))
        ensures
            (res.0@, res.1@) == sync_special(self@, e@),
    {
        let mut commands = no_commands();
        if self.config.copy_special {
            if self.config.dry_run {
                add_command(&mut commands, Command::Notice(Notice::CopySpecial(e.from, e.target)));
            } else {
                add_command(&mut commands, Command::Send(Operation::Special(e.from, e.target)));
            }
        }
        assert(commands_of(commands@) =~= sync_special(self@, e@).1.commands);
        self.go_on(commands)
    }

    fn file(self, e: Entry) -> (res: (SyncWalk, Reply))
        ensures
            (res.0@, res.1@) == sync_file(self@, e@),
    {
        broadcast use vstd::std_specs::hash::group_hash_axioms;

        let asked = Query::Lstat(e.target.clone());
        if self.config.preserve_hardlinks && e.meta.nlink > 1 {
            let key: u128 = inode_key_of(&e.meta);
            let known = match self.first_names.get(&key) {
                Some(first) => Some(first.clone()),
                None => None,
            };
            match known {
                Some(first) => self.asking(SyncPhase::NameTarget(e, first), asked),
                None => {
                    let mut walk = self;
                    walk.first_names.insert(key, e.target.clone());
                    assert(walk@.first_names =~= self@.first_names.insert(key, e@.target));
                    walk.asking(SyncPhase::FileTarget(e, true), asked)
                },
            }
        } else {
            self.asking(SyncPhase::FileTarget(e, false), asked)
        }
    }

    fn entry(self, e: Entry) -> (res: (SyncWalk, Reply))
        ensures
            (res.0@, res.1@) == sync_entry(self@, e@),
    {
        match e.meta.kind {
            FileType::Dir => {
                let asked = Query::Lstat(e.target.clone());
                self.asking(SyncPhase::DirTarget(e), asked)
            },
            FileType::File => self.file(e),
            FileType::Symlink => {
                let asked = Query::ReadLink(e.from.clone());
                self.asking(SyncPhase::LinkText(e), asked)
            },
            FileType::Socket | FileType::Char | FileType::Fifo | FileType::Block => self.special(
                e,
            ),
            FileType::Other => self.stop(XcpError::UnknownFileType(e.target)),
        }
    }

    fn place_entry(self, path: PathBuf, from: PathBuf, meta: Metadata) -> (res: (SyncWalk, Reply))
        ensures
            (res.0@, res.1@) == sync_placed(self@, path@, from@, meta),
    {
        match place(&self.source, &self.dest, &path) {
            None => self.stop(XcpError::OutsideSource),
            Some((rel, target)) => {
                let mut walk = self;
                walk.seen.insert(rel.components());
                walk.entry(Entry { from, target, meta })
            },
        }
    }

    fn finish(self) -> (res: (SyncWalk, Reply))
        ensures
            (res.0@, res.1@) == sync_finish(self@),
    {
        let roots = subtree_roots(&self.stale);
        let SyncWalk { source, dest, config, seen, first_names, candidates, stale, phase: _ } =
            self;
        let verify = copy_candidates(&candidates);
        let walk = SyncWalk {
            source,
            dest,
            config,
            seen,
            first_names,
            candidates,
            stale,
            phase: SyncPhase::Done,
        };
        if walk.config.dry_run {
            let commands = announce(&roots);
            let res = Reply { commands, delete: Vec::new(), verify, next: Next::Finished };
            assert(res@ =~= sync_finish(self@).1);
            (walk, res)
        } else {
            let res = Reply { commands: Vec::new(), delete: roots, verify, next: Next::Finished };
            assert(res@ =~= sync_finish(self@).1);
            (walk, res)
        }
    }

    fn listed(self, path: Option<PathBuf>) -> (res: (SyncWalk, Reply))
        ensures
            self@.phase is Listing ==> (res.0@, res.1@) == sync_step(
                self@,
                Event::Entry(
                    match path {
                        Some(p) => Some(p@),
                        None => None,
                    },
                ),
            ),
    {
        let mut walk = self;
        match path {
            Some(p) => {
                if stale(&p, &walk.dest, &walk.seen) {
                    walk.stale.push(p);
                    assert(walk@.stale =~= self@.stale.push(p@));
                }
            },
            None => {},
        }
        walk.asking(SyncPhase::Listing, Query::NextListed)
    }
}

/// What a dry run says of subtrees that would be removed.
fn announce(roots: &Vec<PathBuf>) -> (res: Vec<Command>)
    ensures
        commands_of(res@) == delete_notices(paths_of(roots@)),
{
    let ghost all = delete_notices(paths_of(roots@));
    let mut commands = no_commands();
    let mut i: usize = 0;
    while i < roots.len()
        invariant
            i <= roots.len(),
            all == delete_notices(paths_of(roots@)),
            commands_of(commands@) == all.take(i as int),
        decreases roots.len() - i,
    {
        add_command(&mut commands, Command::Notice(Notice::Delete(roots[i].clone())));
        assert(commands_of(commands@) =~= all.take(i + 1));
        i = i + 1;
    }
    assert(all.take(i as int) =~= all);
    commands
}

/// A copy of the list.
fn copy_candidates(list: &Vec<Candidate>) -> (res: Vec<Candidate>)
    ensures
        candidates_of(res@) == candidates_of(list@),
{
    let ghost all = candidates_of(list@);
    let mut res: Vec<Candidate> = Vec::new();
    let mut i: usize = 0;
    assert(candidates_of(res@) =~= all.take(0));
    while i < list.len()
        invariant
            i <= list.len(),
            all == candidates_of(list@),
            candidates_of(res@) == all.take(i as int),
        decreases list.len() - i,
    {
        let c = Candidate {
            from: list[i].from.clone(),
            target: list[i].target.clone(),
            len: list[i].len,
        };
        res.push(c);
        assert(candidates_of(res@) =~= all.take(i as int).push(all[i as int]));
        assert(candidates_of(res@) =~= all.take(i + 1));
        i = i + 1;
    }
    assert(all.take(i as int) =~= all);
    res
}

/// Takes the walk one event further: the next state of the walk, and what
/// the driver is to do before the next event.
pub fn sync_walker(walk: SyncWalk, event: Event) -> (res: (SyncWalk, Reply))
    ensures
        (res.0@, res.1@) == sync_step(walk@, event@),
{
    let SyncWalk { source, dest, config, seen, first_names, candidates, stale, phase } = walk;
    let idle = SyncWalk {
        source,
        dest,
        config,
        seen,
        first_names,
        candidates,
        stale,
        phase: SyncPhase::Done,
    };
    match (phase, event) {
        (SyncPhase::Ready, Event::Begin) => {
            let asked = idle.dest.clone();
            idle.asking(SyncPhase::Preparing, Query::Exists(asked))
        },
        (SyncPhase::Preparing, Event::Answer(stands)) => {
            let mut commands = no_commands();
            if !stands && !idle.config.dry_run {
                add_command(&mut commands, Command::CreateDirAll(idle.dest.clone()));
            }
            assert(commands_of(commands@) =~= given(
                !stands && !idle@.config.dry_run,
                seq![Command::CreateDirAll(idle@.dest)],
            ));
            let asked = idle.source.clone();
            idle.waiting(SyncPhase::Opening, commands, Query::BeginWalk(asked))
        },
        (SyncPhase::Opening, Event::Begun) => idle.go_on(no_commands()),
        (SyncPhase::Walking, Event::Entry(Some(path))) => {
            let asked = path.clone();
            if idle.config.dereference {
                idle.asking(SyncPhase::Resolving(path), Query::Canonicalize(asked))
            } else {
                let from = path.clone();
                idle.asking(SyncPhase::Reading(path, from), Query::SourceMeta(asked))
            }
        },
        (SyncPhase::Walking, Event::End) => {
            let asked = idle.dest.clone();
            idle.asking(SyncPhase::Surveying, Query::IsDir(asked))
        },
        (SyncPhase::Resolving(path), Event::Path(from)) => {
            let asked = from.clone();
            idle.asking(SyncPhase::Reading(path, from), Query::SourceMeta(asked))
        },
        (SyncPhase::Reading(path, from), Event::Meta(Some(meta))) => idle.place_entry(
            path,
            from,
            meta,
        ),
        (SyncPhase::DirTarget(e), Event::Meta(found)) => idle.dir_target(e, found),
        (SyncPhase::DirMode(e), Event::Meta(found)) => idle.dir_mode(e, found),
        (SyncPhase::FileTarget(e, now), Event::Meta(found)) => idle.file_target(e, now, found),
        (SyncPhase::FileDigest(e), Event::Digests(digests)) => idle.file_digest(e, digests),
        (SyncPhase::FileWritable(e, now), Event::Meta(found)) => idle.file_writable(
            e,
            now,
            found,
        ),
        (SyncPhase::NameTarget(e, first), Event::Meta(found)) => idle.name_target(
            e,
            first,
            found,
        ),
        (SyncPhase::NamePeer(e, first, stands), Event::Meta(peer)) => idle.name_peer(
            e,
            first,
            stands,
            peer,
        ),
        (SyncPhase::NameClear(e, first), Event::Meta(found)) => idle.name_clear(e, first, found),
        (SyncPhase::LinkText(e), Event::Path(text)) => {
            let asked = e.target.clone();
            idle.asking(SyncPhase::LinkTarget(e, text), Query::Lstat(asked))
        },
        (SyncPhase::LinkTarget(e, text), Event::Meta(found)) => idle.link_target(e, text, found),
        (SyncPhase::LinkPeer(e, text), Event::Path(peer)) => idle.link_peer(e, text, peer),
        (SyncPhase::LinkClear(e, text), Event::Meta(found)) => idle.link_clear(e, text, found),
        (SyncPhase::Surveying, Event::Answer(is_dir)) => {
            if is_dir {
                let asked = idle.dest.clone();
                idle.asking(SyncPhase::OpeningList, Query::BeginListing(asked))
            } else {
                idle.finish()
            }
        },
        (SyncPhase::OpeningList, Event::Begun) => idle.asking(
            SyncPhase::Listing,
            Query::NextListed,
        ),
        (SyncPhase::Listing, Event::Entry(path)) => {
            let walk = SyncWalk { phase: SyncPhase::Listing, ..idle };
            walk.listed(path)
        },
        (SyncPhase::Listing, Event::End) => idle.finish(),
        (phase, _) => (SyncWalk { phase, ..idle }, out_of_turn()),
    }
}

} // verus!
