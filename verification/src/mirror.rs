//! What mirroring achieves: the commands that a walk gives for an entry,
//! carried out on whatever stands at the entry's target, make the target
//! mirror the source.

use vstd::prelude::*;

use crate::checksum::{blake3_digest, compared};
use crate::conduct::at_once;
use crate::config::Config;
use crate::copy::{final_steps, law_final_steps_follow_the_options, FinalStep};
use crate::entry::{placed, Entry};
use crate::metadata::{
    differs, inode_key, law_unlock_adds_one_bit, locked, unlocked_mode, FileType, Metadata,
};
use crate::path::components;
use crate::protocol::{
    given, unlocking, Candidate, Command, Event, Next, Operation, Query, ReplyView,
};
use crate::prune::removal;
use crate::sync::{
    dir_commands, must_copy, sync_dir_target, sync_step, xattr_commands, SyncPhase, SyncView,
};

verus! {

/// What can stand at a path.
pub ghost struct Node {
    /// The metadata.
    pub meta: Metadata,
    /// What a symlink holds.
    pub text: Seq<u8>,
    /// What a file holds.
    pub data: Seq<u8>,
}

/// An entry of the source and the surroundings of its target.
pub ghost struct Site {
    /// What is mirrored.
    pub source: Node,
    /// Where it is read.
    pub from: Seq<u8>,
    /// Where its mirror belongs.
    pub target: Seq<u8>,
    /// The target of the first name met of the source's inode.
    pub first: Seq<u8>,
    /// What stands there.
    pub peer: Option<Node>,
    /// What a directory is like that was just created.
    pub new_dir: Node,
    /// What a file or a symlink is like that was just created.
    pub new_file: Node,
    /// Whether a first name counts as mirrored only with its contents.
    pub exact: bool,
}

/// The metadata of what stands at a path.
pub open spec fn meta_of(slot: Option<Node>) -> Option<Metadata> {
    match slot {
        Some(node) => Some(node.meta),
        None => None,
    }
}

/// What a copy of the source leaves at the target, over what stood there.
pub open spec fn copy_of(source: Node, config: Config, over: Node) -> Node {
    let steps = final_steps(config);
    Node {
        meta: Metadata {
            kind: FileType::File,
            len: source.meta.len,
            mode: if steps.contains(FinalStep::Permissions) {
                source.meta.mode
            } else {
                over.meta.mode
            },
            mtime: if steps.contains(FinalStep::Timestamps) {
                source.meta.mtime
            } else {
                over.meta.mtime
            },
            mtime_nsec: if steps.contains(FinalStep::Timestamps) {
                source.meta.mtime_nsec
            } else {
                over.meta.mtime_nsec
            },
            uid: if steps.contains(FinalStep::Owner) {
                source.meta.uid
            } else {
                over.meta.uid
            },
            gid: if steps.contains(FinalStep::Owner) {
                source.meta.gid
            } else {
                over.meta.gid
            },
            ..over.meta
        },
        text: seq![],
        data: source.data,
    }
}

/// What a command, once it is carried out, leaves at the target. A command
/// that cannot be carried out there leaves what stood there: a directory is
/// not removed as a file, nor a file as a directory, nothing is created over
/// something else, and only a regular file that can be written is written.
pub open spec fn effect(
    c: Command<Seq<u8>>,
    site: Site,
    config: Config,
    slot: Option<Node>,
) -> Option<Node> {
    match c {
        Command::RemoveFile(p) => if p == site.target && slot is Some && slot->0.meta.kind
            != FileType::Dir {
            None
        } else {
            slot
        },
        Command::RemoveDirAll(p) => if p == site.target && slot is Some && slot->0.meta.kind
            == FileType::Dir {
            None
        } else {
            slot
        },
        Command::CreateDirAll(p) => if p == site.target && slot is None {
            Some(site.new_dir)
        } else {
            slot
        },
        Command::CreateTargetDir(p) => if p == site.target && slot is None {
            Some(site.new_dir)
        } else {
            slot
        },
        Command::SetMode(p, mode) => if p == site.target && slot is Some {
            Some(Node { meta: Metadata { mode, ..slot->0.meta }, ..slot->0 })
        } else {
            slot
        },
        Command::Chown(p, uid, gid) => if p == site.target && slot is Some {
            Some(Node { meta: Metadata { uid, gid, ..slot->0.meta }, ..slot->0 })
        } else {
            slot
        },
        Command::HardLink(p, q) => if p == site.first && q == site.target && slot is None {
            site.peer
        } else {
            slot
        },
        Command::CopyNow(p, q) => write(p, q, site, config, slot),
        Command::Send(Operation::Copy(p, q)) => write(p, q, site, config, slot),
        Command::Send(Operation::Link(text, p)) => if p == site.target && slot is None {
            Some(
                Node {
                    meta: Metadata { kind: FileType::Symlink, ..site.new_file.meta },
                    text,
                    data: seq![],
                },
            )
        } else {
            slot
        },
        _ => slot,
    }
}

/// What copying `p` to `q` leaves at the target.
pub open spec fn write(
    p: Seq<u8>,
    q: Seq<u8>,
    site: Site,
    config: Config,
    slot: Option<Node>,
) -> Option<Node> {
    if p == site.from && q == site.target {
        match slot {
            None => Some(copy_of(site.source, config, site.new_file)),
            Some(node) => if node.meta.kind == FileType::File && !locked(node.meta) {
                Some(copy_of(site.source, config, node))
            } else {
                slot
            },
        }
    } else {
        slot
    }
}

/// What a list of commands leaves at the target.
pub open spec fn effects(
    commands: Seq<Command<Seq<u8>>>,
    site: Site,
    config: Config,
    slot: Option<Node>,
) -> Option<Node>
    decreases commands.len(),
{
    if commands.len() == 0 {
        slot
    } else {
        effect(
            commands.last(),
            site,
            config,
            effects(commands.drop_last(), site, config, slot),
        )
    }
}

/// Whether a file holds the source's bytes and has of its metadata what the
/// options carry over.
pub open spec fn carried_over(source: Node, config: Config, node: Node) -> bool {
    &&& node.data == source.data
    &&& node.meta.len == source.meta.len
    &&& config.no_perms || node.meta.mode == source.meta.mode
    &&& config.no_timestamps || (node.meta.mtime == source.meta.mtime && node.meta.mtime_nsec
        == source.meta.mtime_nsec)
    &&& config.ownership ==> node.meta.uid == source.meta.uid && node.meta.gid == source.meta.gid
}

/// Whether what stands at the target mirrors the source: a directory with its
/// permissions, a symlink that holds the same path, or a file of its size and
/// with its permissions that is a copy or has its time of change.
pub open spec fn mirrored(source: Node, config: Config, slot: Option<Node>) -> bool {
    match slot {
        None => false,
        Some(node) => {
            &&& node.meta.kind == source.meta.kind
            &&& match source.meta.kind {
                FileType::Dir => config.no_perms || node.meta.mode == source.meta.mode,
                FileType::Symlink => components(node.text) == components(source.text),
                FileType::File => {
                    &&& node.meta.len == source.meta.len
                    &&& config.no_perms || node.meta.mode == source.meta.mode
                    &&& carried_over(source, config, node) || (node.meta.mtime
                        == source.meta.mtime && node.meta.mtime_nsec == source.meta.mtime_nsec)
                },
                _ => false,
            }
        },
    }
}

/// Whether what stands at the target is of the source's kind and, if it is a
/// symlink, holds the same path.
pub open spec fn alike(source: Node, slot: Option<Node>) -> bool {
    &&& slot is Some
    &&& slot->0.meta.kind == source.meta.kind
    &&& source.meta.kind == FileType::Symlink ==> components(slot->0.text) == components(
        source.text,
    )
}

/// Whether the contents of a file are known to agree with the source's by
/// digest, where that is asked for.
pub open spec fn assured(source: Node, config: Config, slot: Option<Node>) -> bool {
    config.checksum && source.meta.kind == FileType::File ==> slot is Some && blake3_digest(
        slot->0.data,
    ) == blake3_digest(source.data)
}

/// Whether the target mirrors the source, as far as the site asks for that.
pub open spec fn satisfied(site: Site, config: Config, slot: Option<Node>) -> bool {
    alike(site.source, slot) && (site.exact ==> mirrored(site.source, config, slot))
}

/// Whether the contents of an entry are still to be compared.
pub open spec fn queued(w: SyncView, e: Entry<Seq<u8>>) -> bool {
    w.candidates.contains(Candidate { from: e.from, target: e.target, len: e.meta.len })
}

/// What the walk of an entry waits for.
pub open spec fn pending(phase: SyncPhase<Seq<u8>>) -> Query<Seq<u8>> {
    match phase {
        SyncPhase::Resolving(path) => Query::Canonicalize(path),
        SyncPhase::Reading(_, from) => Query::SourceMeta(from),
        SyncPhase::DirTarget(e) => Query::Lstat(e.target),
        SyncPhase::DirMode(e) => Query::Lstat(e.target),
        SyncPhase::FileTarget(e, _) => Query::Lstat(e.target),
        SyncPhase::FileDigest(e) => Query::Digests(e.from, e.target),
        SyncPhase::FileWritable(e, _) => Query::Lstat(e.target),
        SyncPhase::NameTarget(e, _) => Query::Lstat(e.target),
        SyncPhase::NamePeer(_, first, _) => Query::Lstat(first),
        SyncPhase::NameClear(e, _) => Query::Lstat(e.target),
        SyncPhase::LinkText(e) => Query::ReadLink(e.from),
        SyncPhase::LinkTarget(e, _) => Query::Lstat(e.target),
        SyncPhase::LinkPeer(e, _) => Query::ReadLink(e.target),
        SyncPhase::LinkClear(e, _) => Query::Lstat(e.target),
        _ => Query::NextEntry,
    }
}

/// How many answers an entry needs at most.
pub open spec fn answers_left(phase: SyncPhase<Seq<u8>>) -> nat {
    match phase {
        SyncPhase::DirTarget(_) => 2,
        SyncPhase::DirMode(_) => 1,
        SyncPhase::FileTarget(_, _) => 3,
        SyncPhase::FileDigest(_) => 2,
        SyncPhase::FileWritable(_, _) => 1,
        SyncPhase::NameTarget(_, _) => 3,
        SyncPhase::NamePeer(_, _, _) => 2,
        SyncPhase::NameClear(_, _) => 1,
        SyncPhase::LinkText(_) => 4,
        SyncPhase::LinkTarget(_, _) => 3,
        SyncPhase::LinkPeer(_, _) => 2,
        SyncPhase::LinkClear(_, _) => 1,
        _ => 0,
    }
}

/// Whether an event answers a question truly.
pub open spec fn true_answer(
    query: Query<Seq<u8>>,
    event: Event<Seq<u8>>,
    site: Site,
    slot: Option<Node>,
) -> bool {
    match (query, event) {
        (Query::Lstat(p), Event::Meta(found)) => if p == site.target {
            found == meta_of(slot)
        } else {
            p == site.first && found == meta_of(site.peer)
        },
        (Query::ReadLink(p), Event::Path(text)) => if p == site.target {
            slot is Some && text == slot->0.text
        } else {
            p == site.from && text == site.source.text
        },
        (Query::Digests(p, q), Event::Digests(Some((a, b)))) => {
            &&& p == site.from && q == site.target
            &&& a@ == blake3_digest(site.source.data)
            &&& slot is Some && b@ == blake3_digest(slot->0.data)
        },
        _ => false,
    }
}

/// Whether a site is one that can be: its paths are different ones and new
/// entries are of their kind.
pub open spec fn possible(site: Site) -> bool {
    &&& site.from != site.target
    &&& site.first != site.target
    &&& site.new_dir.meta.kind == FileType::Dir
    &&& site.new_file.meta.kind == FileType::File
}

/// Whether one inode is one file: what stands at the target and what stands
/// at the first name are the same where their inodes are.
pub open spec fn one_file(site: Site, slot: Option<Node>) -> bool {
    slot is Some && site.peer is Some && slot->0.meta.dev == site.peer->0.meta.dev
        && slot->0.meta.ino == site.peer->0.meta.ino ==> slot == site.peer
}

/// Whether a regular file or something that makes way for one stands at the
/// target.
pub open spec fn replaceable(slot: Option<Node>) -> bool {
    slot is Some ==> {
        ||| slot->0.meta.kind == FileType::File
        ||| slot->0.meta.kind == FileType::Dir
        ||| slot->0.meta.kind == FileType::Symlink
    }
}

/// Whether the walk of the site's entry is under way, with what the walk has
/// found so far true of the site, or is over with the target mirroring the
/// source.
pub open spec fn on_course(w: SyncView, site: Site, slot: Option<Node>) -> bool {
    let here = Entry { from: site.from, target: site.target, meta: site.source.meta };
    let kind = site.source.meta.kind;
    let named = {
        &&& satisfied(site, w.config, site.peer)
        &&& site.exact ==> assured(site.source, w.config, site.peer)
    };
    match w.phase {
        SyncPhase::DirTarget(e) => e == here && kind == FileType::Dir,
        SyncPhase::DirMode(e) => {
            &&& e == here && kind == FileType::Dir
            &&& slot is Some && slot->0.meta.kind == FileType::Dir
        },
        SyncPhase::FileTarget(e, _) => e == here && kind == FileType::File && replaceable(slot),
        SyncPhase::FileDigest(e) => {
            &&& e == here && kind == FileType::File
            &&& slot is Some && slot->0.meta.kind == FileType::File
            &&& site.exact ==> !differs(site.source.meta, slot->0.meta, w.config)
        },
        SyncPhase::FileWritable(e, _) => {
            &&& e == here && kind == FileType::File
            &&& slot is Some ==> slot->0.meta.kind == FileType::File
        },
        SyncPhase::NameTarget(e, first) => {
            &&& e == here && kind == FileType::File && first == site.first && named
            &&& one_file(site, slot)
        },
        SyncPhase::NamePeer(e, first, stands) => {
            &&& e == here && kind == FileType::File && first == site.first && named
            &&& one_file(site, slot)
            &&& slot is Some && slot->0.meta.kind == stands.kind
            &&& slot->0.meta.dev == stands.dev && slot->0.meta.ino == stands.ino
        },
        SyncPhase::NameClear(e, first) => {
            e == here && kind == FileType::File && first == site.first && named
        },
        SyncPhase::LinkText(e) => e == here && kind == FileType::Symlink,
        SyncPhase::LinkTarget(e, text) => {
            e == here && kind == FileType::Symlink && text == site.source.text
        },
        SyncPhase::LinkPeer(e, text) => {
            &&& e == here && kind == FileType::Symlink && text == site.source.text
            &&& slot is Some && slot->0.meta.kind == FileType::Symlink
        },
        SyncPhase::LinkClear(e, text) => {
            e == here && kind == FileType::Symlink && text == site.source.text
        },
        SyncPhase::Walking => {
            &&& satisfied(site, w.config, slot)
            &&& site.exact ==> assured(site.source, w.config, slot) || queued(w, here)
        },
        _ => false,
    }
}

proof fn lemma_effects_append(
    a: Seq<Command<Seq<u8>>>,
    b: Seq<Command<Seq<u8>>>,
    site: Site,
    config: Config,
    slot: Option<Node>,
)
    ensures
        effects(a + b, site, config, slot) == effects(
            b,
            site,
            config,
            effects(a, site, config, slot),
        ),
    decreases b.len(),
{
    if b.len() == 0 {
        assert(a + b =~= a);
    } else {
        assert((a + b).drop_last() =~= a + b.drop_last());
        lemma_effects_append(a, b.drop_last(), site, config, slot);
    }
}

proof fn lemma_effects_of_one(
    c: Command<Seq<u8>>,
    site: Site,
    config: Config,
    slot: Option<Node>,
)
    ensures
        effects(seq![c], site, config, slot) == effect(c, site, config, slot),
{
    assert(seq![c].drop_last() =~= seq![]);
    assert(effects(seq![], site, config, slot) == slot);
}

proof fn lemma_effects_of_two(
    c: Command<Seq<u8>>,
    d: Command<Seq<u8>>,
    site: Site,
    config: Config,
    slot: Option<Node>,
)
    ensures
        effects(seq![c, d], site, config, slot) == effect(
            d,
            site,
            config,
            effect(c, site, config, slot),
        ),
{
    assert(seq![c, d].drop_last() =~= seq![c]);
    lemma_effects_of_one(c, site, config, slot);
}

/// Extended attributes are no part of what is compared.
proof fn lemma_xattrs_no_effect(
    w: SyncView,
    e: Entry<Seq<u8>>,
    site: Site,
    slot: Option<Node>,
)
    ensures
        effects(xattr_commands(w, e), site, w.config, slot) == slot,
{
    lemma_effects_of_one(Command::SyncXattrs(e.from, e.target), site, w.config, slot);
}

/// Removing what is known to stand at the target leaves nothing.
proof fn lemma_removal_clears(site: Site, config: Config, slot: Option<Node>)
    ensures
        effects(removal(site.target, meta_of(slot)), site, config, slot) is None,
{
    if slot is Some {
        lemma_effects_of_one(Command::RemoveDirAll(site.target), site, config, slot);
        lemma_effects_of_one(Command::RemoveFile(site.target), site, config, slot);
    }
}

/// A file that is unlocked as it must be can be written, and is the same file
/// apart from its mode.
proof fn lemma_unlocking_works(site: Site, config: Config, slot: Option<Node>)
    requires
        slot is Some ==> slot->0.meta.kind == FileType::File,
    ensures
        ({
            let unlocked = effects(unlocking(site.target, meta_of(slot)), site, config, slot);
            &&& slot is None ==> unlocked is None
            &&& slot is Some ==> {
                &&& unlocked is Some
                &&& unlocked->0.meta.kind == FileType::File
                &&& !locked(unlocked->0.meta)
                &&& unlocked->0.data == slot->0.data
            }
        }),
{
    if slot is Some {
        let mode = unlocked_mode(slot->0.meta.mode);
        lemma_effects_of_one(Command::SetMode(site.target, mode), site, config, slot);
        law_unlock_adds_one_bit(slot->0.meta.mode);
    }
}

/// What is carried over at the end of a copy, by the options.
proof fn lemma_final_steps(config: Config)
    ensures
        final_steps(config).contains(FinalStep::Permissions) <==> !config.no_perms,
        final_steps(config).contains(FinalStep::Timestamps) <==> !config.no_timestamps,
        final_steps(config).contains(FinalStep::Owner) <==> config.ownership,
{
    law_final_steps_follow_the_options(config);
}

/// A copy carries over what it is to carry over.
pub(crate) proof fn lemma_copy_carries_over(source: Node, config: Config, over: Node)
    requires
        source.meta.kind == FileType::File,
    ensures
        carried_over(source, config, copy_of(source, config, over)),
        mirrored(source, config, Some(copy_of(source, config, over))),
        assured(source, config, Some(copy_of(source, config, over))),
{
    lemma_final_steps(config);
}

proof fn lemma_dir_stays_on_course(
    w: SyncView,
    site: Site,
    slot: Option<Node>,
    event: Event<Seq<u8>>,
)
    requires
        !w.config.dry_run,
        possible(site),
        on_course(w, site, slot),
        w.phase is DirTarget || w.phase is DirMode,
        true_answer(pending(w.phase), event, site, slot),
    ensures
        ({
            let (next, reply) = sync_step(w, event);
            on_course(next, site, effects(reply.commands, site, w.config, slot))
        }),
{
    let (next, reply) = sync_step(w, event);
    let e = Entry { from: site.from, target: site.target, meta: site.source.meta };
    let found = meta_of(slot);
    match w.phase {
        SyncPhase::DirTarget(_) => {
            let making = dir_commands(w, e, found);
            let owning = given(
                w.config.ownership,
                seq![Command::Chown(e.target, e.meta.uid, e.meta.gid)],
            );
            let made = effects(making, site, w.config, slot);
            lemma_effects_of_one(Command::CreateTargetDir(site.target), site, w.config, slot);
            lemma_effects_of_two(
                Command::RemoveFile(site.target),
                Command::CreateDirAll(site.target),
                site,
                w.config,
                slot,
            );
            assert(made is Some && made->0.meta.kind == FileType::Dir);
            lemma_effects_append(making, owning, site, w.config, slot);
            lemma_effects_of_one(
                Command::Chown(e.target, e.meta.uid, e.meta.gid),
                site,
                w.config,
                made,
            );
            let owned = effects(making + owning, site, w.config, slot);
            assert(owned is Some && owned->0.meta.kind == FileType::Dir);
            if w.config.no_perms {
                lemma_effects_append(making + owning, xattr_commands(w, e), site, w.config, slot);
                lemma_xattrs_no_effect(w, e, site, owned);
            }
        },
        _ => {
            let setting = given(
                found is Some && found->0.mode != e.meta.mode,
                seq![Command::SetMode(e.target, e.meta.mode)],
            );
            lemma_effects_of_one(
                Command::SetMode(e.target, e.meta.mode),
                site,
                w.config,
                slot,
            );
            let set = effects(setting, site, w.config, slot);
            lemma_effects_append(setting, xattr_commands(w, e), site, w.config, slot);
            lemma_xattrs_no_effect(w, e, site, set);
        },
    }
}

/// A file that is written, whatever stood at its target before, holds the
/// source's bytes and has of its metadata what the options carry over.
pub proof fn law_written_file_is_a_copy(
    w: SyncView,
    site: Site,
    slot: Option<Node>,
    event: Event<Seq<u8>>,
)
    requires
        possible(site),
        on_course(w, site, slot),
        w.phase is FileWritable,
        true_answer(pending(w.phase), event, site, slot),
    ensures
        ({
            let (next, reply) = sync_step(w, event);
            let done = effects(reply.commands, site, w.config, slot);
            &&& next.phase is Walking
            &&& done is Some && done->0.meta.kind == FileType::File
            &&& carried_over(site.source, w.config, done->0)
        }),
{
    let (next, reply) = sync_step(w, event);
    let e = Entry { from: site.from, target: site.target, meta: site.source.meta };
    let found = meta_of(slot);
    let copying = if w.phase->FileWritable_1 {
        Command::CopyNow(e.from, e.target)
    } else {
        Command::Send(Operation::Copy(e.from, e.target))
    };
    let unlocked = effects(unlocking(e.target, found), site, w.config, slot);
    lemma_unlocking_works(site, w.config, slot);
    lemma_effects_append(
        unlocking(e.target, found),
        seq![Command::Size(e.meta.len), copying],
        site,
        w.config,
        slot,
    );
    lemma_effects_of_two(Command::Size(e.meta.len), copying, site, w.config, unlocked);
    lemma_final_steps(w.config);
}

proof fn lemma_file_stays_on_course(
    w: SyncView,
    site: Site,
    slot: Option<Node>,
    event: Event<Seq<u8>>,
)
    requires
        !w.config.dry_run,
        possible(site),
        on_course(w, site, slot),
        w.phase is FileTarget || w.phase is FileDigest || w.phase is FileWritable,
        true_answer(pending(w.phase), event, site, slot),
    ensures
        ({
            let (next, reply) = sync_step(w, event);
            on_course(next, site, effects(reply.commands, site, w.config, slot))
        }),
{
    let (next, reply) = sync_step(w, event);
    let e = Entry { from: site.from, target: site.target, meta: site.source.meta };
    let found = meta_of(slot);
    lemma_xattrs_no_effect(w, e, site, slot);
    match w.phase {
        SyncPhase::FileTarget(_, now) => {
            lemma_removal_clears(site, w.config, slot);
            if !must_copy(w, e, found) && w.config.checksum && !now {
                assert(next.candidates[w.candidates.len() as int] == (Candidate {
                    from: e.from,
                    target: e.target,
                    len: e.meta.len,
                }));
            }
        },
        SyncPhase::FileDigest(_) => {},
        SyncPhase::FileWritable(_, _) => law_written_file_is_a_copy(w, site, slot, event),
        _ => {},
    }
}

proof fn lemma_name_stays_on_course(
    w: SyncView,
    site: Site,
    slot: Option<Node>,
    event: Event<Seq<u8>>,
)
    requires
        !w.config.dry_run,
        possible(site),
        on_course(w, site, slot),
        w.phase is NameTarget || w.phase is NamePeer || w.phase is NameClear,
        true_answer(pending(w.phase), event, site, slot),
    ensures
        ({
            let (next, reply) = sync_step(w, event);
            on_course(next, site, effects(reply.commands, site, w.config, slot))
        }),
{
    match w.phase {
        SyncPhase::NameClear(_, first) => {
            let clearing = removal(site.target, meta_of(slot));
            let linking = Command::HardLink(site.first, site.target);
            lemma_removal_clears(site, w.config, slot);
            lemma_effects_append(clearing, seq![linking], site, w.config, slot);
            lemma_effects_of_one(linking, site, w.config, None);
        },
        _ => {},
    }
}

proof fn lemma_link_stays_on_course(
    w: SyncView,
    site: Site,
    slot: Option<Node>,
    event: Event<Seq<u8>>,
)
    requires
        !w.config.dry_run,
        possible(site),
        on_course(w, site, slot),
        w.phase is LinkText || w.phase is LinkTarget || w.phase is LinkPeer
            || w.phase is LinkClear,
        true_answer(pending(w.phase), event, site, slot),
    ensures
        ({
            let (next, reply) = sync_step(w, event);
            on_course(next, site, effects(reply.commands, site, w.config, slot))
        }),
{
    match w.phase {
        SyncPhase::LinkClear(_, text) => {
            let clearing = removal(site.target, meta_of(slot));
            let linking = Command::Send(Operation::Link(text, site.target));
            lemma_removal_clears(site, w.config, slot);
            lemma_effects_append(clearing, seq![linking], site, w.config, slot);
            lemma_effects_of_one(linking, site, w.config, None);
        },
        _ => {},
    }
}

/// While an entry is being mirrored, every true answer keeps the walk on
/// course and brings it closer to the end of the entry, and the walk asks
/// what it waits for.
pub proof fn law_entry_stays_on_course(
    w: SyncView,
    site: Site,
    slot: Option<Node>,
    event: Event<Seq<u8>>,
)
    requires
        !w.config.dry_run,
        possible(site),
        on_course(w, site, slot),
        !(w.phase is Walking),
        true_answer(pending(w.phase), event, site, slot),
    ensures
        ({
            let (next, reply) = sync_step(w, event);
            &&& on_course(next, site, effects(reply.commands, site, w.config, slot))
            &&& reply.next == Next::<Seq<u8>>::Ask(pending(next.phase))
            &&& answers_left(next.phase) < answers_left(w.phase)
            &&& next.config == w.config
        }),
{
    match w.phase {
        SyncPhase::DirTarget(_) => lemma_dir_stays_on_course(w, site, slot, event),
        SyncPhase::DirMode(_) => lemma_dir_stays_on_course(w, site, slot, event),
        SyncPhase::FileTarget(_, _) => lemma_file_stays_on_course(w, site, slot, event),
        SyncPhase::FileDigest(_) => lemma_file_stays_on_course(w, site, slot, event),
        SyncPhase::FileWritable(_, _) => lemma_file_stays_on_course(w, site, slot, event),
        SyncPhase::NameTarget(_, _) => lemma_name_stays_on_course(w, site, slot, event),
        SyncPhase::NamePeer(_, _, _) => lemma_name_stays_on_course(w, site, slot, event),
        SyncPhase::NameClear(_, _) => lemma_name_stays_on_course(w, site, slot, event),
        SyncPhase::LinkText(_) => lemma_link_stays_on_course(w, site, slot, event),
        SyncPhase::LinkTarget(_, _) => lemma_link_stays_on_course(w, site, slot, event),
        SyncPhase::LinkPeer(_, _) => lemma_link_stays_on_course(w, site, slot, event),
        SyncPhase::LinkClear(_, _) => lemma_link_stays_on_course(w, site, slot, event),
        _ => {},
    }
}

/// Whether what the walk knows of an entry that it has just met is true of the
/// site: a further name of an inode has its first name mirrored already, and
/// the place of a file holds nothing that a file cannot replace.
pub open spec fn met(w: SyncView, site: Site, slot: Option<Node>) -> bool {
    let meta = site.source.meta;
    let key = inode_key(meta.dev, meta.ino);
    match meta.kind {
        FileType::Dir => true,
        FileType::Symlink => true,
        FileType::File => if w.config.preserve_hardlinks && meta.nlink > 1
            && w.first_names.contains_key(key) {
            &&& site.first == w.first_names[key]
            &&& satisfied(site, w.config, site.peer)
            &&& site.exact ==> assured(site.source, w.config, site.peer)
            &&& one_file(site, slot)
        } else {
            replaceable(slot)
        },
        _ => false,
    }
}

/// Once the metadata of an entry is known, the walk notes its place and sets
/// out to mirror it; nothing has changed at the target by then.
pub proof fn law_entry_sets_out(
    w: SyncView,
    site: Site,
    slot: Option<Node>,
    path: Seq<u8>,
    rel: Seq<u8>,
)
    requires
        w.phase == SyncPhase::Reading(path, site.from),
        placed(w.source, w.dest, path) == Some((rel, site.target)),
        met(w, site, slot),
    ensures
        ({
            let (next, reply) = sync_step(w, Event::Meta(Some(site.source.meta)));
            &&& on_course(next, site, slot)
            &&& !(next.phase is Walking)
            &&& reply.commands.len() == 0
            &&& reply.next == Next::<Seq<u8>>::Ask(pending(next.phase))
            &&& next.config == w.config
            &&& next.seen == w.seen.insert(components(rel))
        }),
{
}

/// Whether each event in turn answers truly what the walk of the entry waits
/// for.
pub open spec fn told(
    w: SyncView,
    site: Site,
    slot: Option<Node>,
    events: Seq<Event<Seq<u8>>>,
) -> bool
    decreases events.len(),
{
    events.len() > 0 ==> {
        let (next, reply) = sync_step(w, events[0]);
        &&& !(w.phase is Walking)
        &&& true_answer(pending(w.phase), events[0], site, slot)
        &&& told(next, site, effects(reply.commands, site, w.config, slot), events.skip(1))
    }
}

/// Where the walk stands after the events, and what stands at the target once
/// all that the walk has ordered by then is carried out.
pub open spec fn outcome(
    w: SyncView,
    site: Site,
    slot: Option<Node>,
    events: Seq<Event<Seq<u8>>>,
) -> (SyncView, Option<Node>)
    decreases events.len(),
{
    if events.len() == 0 {
        (w, slot)
    } else {
        let (next, reply) = sync_step(w, events[0]);
        outcome(next, site, effects(reply.commands, site, w.config, slot), events.skip(1))
    }
}

/// Whatever stands at the target of an entry, and whatever the options: once
/// the walk has been told the truth until it asks for the next entry, which
/// takes at most four answers, the target mirrors the source, as far as the
/// site asks for that.
pub proof fn law_entry_is_mirrored(
    w: SyncView,
    site: Site,
    slot: Option<Node>,
    events: Seq<Event<Seq<u8>>>,
)
    requires
        !w.config.dry_run,
        possible(site),
        on_course(w, site, slot),
        told(w, site, slot, events),
    ensures
        events.len() <= answers_left(w.phase) <= 4,
        on_course(outcome(w, site, slot, events).0, site, outcome(w, site, slot, events).1),
        outcome(w, site, slot, events).0.phase is Walking ==> satisfied(
            site,
            w.config,
            outcome(w, site, slot, events).1,
        ),
        events.len() == answers_left(w.phase) ==> outcome(w, site, slot, events).0.phase is Walking,
    decreases events.len(),
{
    if events.len() > 0 {
        law_entry_stays_on_course(w, site, slot, events[0]);
        let (next, reply) = sync_step(w, events[0]);
        law_entry_is_mirrored(
            next,
            site,
            effects(reply.commands, site, w.config, slot),
            events.skip(1),
        );
    }
}

/// Whether nothing is left to mirror: what stands at the target is of the
/// source's kind and does not differ from it, nor do its contents where they
/// are to be compared.
pub open spec fn settled(source: Node, config: Config, slot: Option<Node>) -> bool {
    match slot {
        None => false,
        Some(node) => {
            &&& node.meta.kind == source.meta.kind
            &&& match source.meta.kind {
                FileType::Dir => config.no_perms || node.meta.mode == source.meta.mode,
                FileType::Symlink => components(node.text) == components(source.text),
                FileType::File => !differs(source.meta, node.meta, config) && assured(
                    source,
                    config,
                    slot,
                ),
                _ => false,
            }
        },
    }
}

/// What was mirrored with its timestamps is settled, with its contents
/// compared where that is asked for.
pub proof fn law_mirrored_is_settled(source: Node, config: Config, slot: Option<Node>)
    requires
        mirrored(source, config, slot),
        !config.no_timestamps,
        assured(source, config, slot),
    ensures
        settled(source, config, slot),
{
}

/// Whether the walk has found nothing to mirror at a settled target so far.
pub open spec fn undisturbed(w: SyncView, site: Site, slot: Option<Node>) -> bool {
    let still = settled(site.source, w.config, slot);
    let one_inode = {
        &&& slot is Some && slot->0.meta.kind == FileType::File && site.peer is Some
        &&& slot->0.meta.dev == site.peer->0.meta.dev
        &&& slot->0.meta.ino == site.peer->0.meta.ino
    };
    match w.phase {
        SyncPhase::DirTarget(_) => still,
        SyncPhase::DirMode(_) => still && !w.config.no_perms,
        SyncPhase::FileTarget(_, _) => still,
        SyncPhase::FileDigest(_) => still && w.config.checksum,
        SyncPhase::NameTarget(_, _) => one_inode,
        SyncPhase::NamePeer(_, _, _) => one_inode,
        SyncPhase::LinkText(_) => still,
        SyncPhase::LinkTarget(_, _) => still,
        SyncPhase::LinkPeer(_, _) => still,
        SyncPhase::Walking => still || one_inode,
        _ => false,
    }
}

/// Whether a command only refreshes what is not compared: owner and group of
/// a directory, and extended attributes.
pub open spec fn tending(c: Command<Seq<u8>>) -> bool {
    c is Chown || c is SyncXattrs
}

/// What is ordered for a settled entry, and where it leads.
pub open spec fn let_be(
    w: SyncView,
    site: Site,
    slot: Option<Node>,
    next: SyncView,
    reply: ReplyView,
) -> bool {
    let commands = reply.commands;
    &&& undisturbed(next, site, effects(commands, site, w.config, slot))
    &&& forall|i: int| 0 <= i < commands.len() ==> tending(#[trigger] commands[i])
    &&& site.source.meta.kind == FileType::Dir || forall|i: int|
        0 <= i < commands.len() ==> #[trigger] commands[i] is SyncXattrs
    &&& w.config.dry_run || (!w.config.ownership && !w.config.copy_xattrs) ==> commands.len() == 0
    &&& on_course(next, site, effects(commands, site, w.config, slot))
    &&& reply.next == Next::<Seq<u8>>::Ask(pending(next.phase))
}

proof fn lemma_settled_dir(w: SyncView, site: Site, slot: Option<Node>, event: Event<Seq<u8>>)
    requires
        on_course(w, site, slot),
        undisturbed(w, site, slot),
        w.phase is DirTarget,
        true_answer(pending(w.phase), event, site, slot),
    ensures
        let_be(w, site, slot, sync_step(w, event).0, sync_step(w, event).1),
{
    let (next, reply) = sync_step(w, event);
    let e = Entry { from: site.from, target: site.target, meta: site.source.meta };
    let found = meta_of(slot);
    assert(event == Event::<Seq<u8>>::Meta(found));
    assert((next, reply) == sync_dir_target(w, e, found));
    let owning = given(
        !w.config.dry_run && w.config.ownership,
        seq![Command::Chown(e.target, e.meta.uid, e.meta.gid)],
    );
    let making = dir_commands(w, e, found);
    assert(making =~= seq![]);
    assert(making + owning =~= owning);
    lemma_effects_of_one(
        Command::Chown(e.target, e.meta.uid, e.meta.gid),
        site,
        w.config,
        slot,
    );
    let owned = effects(owning, site, w.config, slot);
    assert(settled(site.source, w.config, owned));
    lemma_effects_append(owning, xattr_commands(w, e), site, w.config, slot);
    lemma_xattrs_no_effect(w, e, site, owned);
}

/// A settled entry is left alone: nothing is copied, linked, created, removed
/// or given another mode. A dry run says nothing of it, and neither does a run
/// that mirrors neither owners nor extended attributes.
pub proof fn law_settled_entry_is_left_alone(
    w: SyncView,
    site: Site,
    slot: Option<Node>,
    event: Event<Seq<u8>>,
)
    requires
        possible(site),
        on_course(w, site, slot),
        undisturbed(w, site, slot),
        !(w.phase is Walking),
        true_answer(pending(w.phase), event, site, slot),
    ensures
        let_be(w, site, slot, sync_step(w, event).0, sync_step(w, event).1),
{
    let e = Entry { from: site.from, target: site.target, meta: site.source.meta };
    let found = meta_of(slot);
    assert(effects(seq![], site, w.config, slot) == slot);
    match w.phase {
        SyncPhase::DirTarget(_) => lemma_settled_dir(w, site, slot, event),
        SyncPhase::DirMode(_) => {
            let setting = given(
                found is Some && found->0.mode != e.meta.mode,
                seq![Command::SetMode(e.target, e.meta.mode)],
            );
            lemma_effects_append(setting, xattr_commands(w, e), site, w.config, slot);
            lemma_xattrs_no_effect(w, e, site, slot);
            assert(setting =~= seq![]);
        },
        _ => {
            lemma_xattrs_no_effect(w, e, site, slot);
        },
    }
}

/// With content checks on, a file that is to stay as it is has its contents
/// compared: at once where other names hang on it, else after the walk.
pub proof fn law_kept_files_are_compared(
    w: SyncView,
    e: Entry<Seq<u8>>,
    now: bool,
    found: Option<Metadata>,
)
    requires
        w.config.checksum,
        w.phase == SyncPhase::FileTarget(e, now),
        !must_copy(w, e, found),
    ensures
        ({
            let (next, reply) = sync_step(w, Event::Meta(found));
            if now {
                &&& next.phase == SyncPhase::FileDigest(e)
                &&& reply.next == Next::<Seq<u8>>::Ask(Query::Digests(e.from, e.target))
            } else {
                next.candidates == w.candidates.push(
                    Candidate { from: e.from, target: e.target, len: e.meta.len },
                )
            }
        }),
{
}

/// A file whose contents are compared during the walk is kept exactly when
/// they have the same digest.
pub proof fn law_digests_decide_at_once(
    w: SyncView,
    site: Site,
    slot: Option<Node>,
    event: Event<Seq<u8>>,
)
    requires
        !w.config.dry_run,
        w.phase is FileDigest,
        on_course(w, site, slot),
        true_answer(pending(w.phase), event, site, slot),
    ensures
        ({
            let (next, reply) = sync_step(w, event);
            if blake3_digest(site.source.data) == blake3_digest(slot->0.data) {
                next.phase is Walking && reply.commands == xattr_commands(w, w.phase->FileDigest_0)
            } else {
                next.phase == SyncPhase::FileWritable(w.phase->FileDigest_0, true)
            }
        }),
{
}

/// A file whose contents are compared after the walk holds the source's bytes
/// in the end, or bytes with the same digest; it is not copied where it holds
/// the source's bytes already.
pub proof fn law_candidates_are_verified(
    c: Candidate<Seq<u8>>,
    site: Site,
    config: Config,
    slot: Option<Node>,
    copy_xattrs: bool,
)
    requires
        possible(site),
        c.from == site.from,
        c.target == site.target,
        slot is Some,
        slot->0.meta.kind == FileType::File,
    ensures
        ({
            let same = blake3_digest(site.source.data) == blake3_digest(slot->0.data);
            let commands = compared(c, meta_of(slot), same, false, copy_xattrs);
            let end = effects(commands, site, config, slot);
            &&& end is Some
            &&& same ==> end == slot
            &&& !same ==> carried_over(site.source, config, end->0)
            &&& slot->0.data == site.source.data ==> end == slot
        }),
{
    let copying = Command::Send(Operation::Copy(c.from, c.target));
    let unlocked = effects(unlocking(c.target, meta_of(slot)), site, config, slot);
    lemma_effects_of_one(Command::SyncXattrs(c.from, c.target), site, config, slot);
    lemma_unlocking_works(site, config, slot);
    lemma_effects_append(
        unlocking(c.target, meta_of(slot)),
        seq![Command::Size(c.len), copying],
        site,
        config,
        slot,
    );
    lemma_effects_of_two(Command::Size(c.len), copying, site, config, unlocked);
    lemma_final_steps(config);
}

/// A further name of an inode ends as a name of the file that its first name
/// became.
pub proof fn law_further_names_are_linked(
    w: SyncView,
    site: Site,
    slot: Option<Node>,
    event: Event<Seq<u8>>,
)
    requires
        !w.config.dry_run,
        possible(site),
        on_course(w, site, slot),
        w.phase is NameTarget || w.phase is NamePeer || w.phase is NameClear,
        true_answer(pending(w.phase), event, site, slot),
    ensures
        ({
            let (next, reply) = sync_step(w, event);
            next.phase is Walking ==> effects(reply.commands, site, w.config, slot) == site.peer
        }),
{
    match w.phase {
        SyncPhase::NameClear(_, first) => {
            let clearing = removal(site.target, meta_of(slot));
            let linking = Command::HardLink(site.first, site.target);
            lemma_removal_clears(site, w.config, slot);
            lemma_effects_append(clearing, seq![linking], site, w.config, slot);
            lemma_effects_of_one(linking, site, w.config, None);
        },
        _ => {},
    }
}

/// A file that is copied before the walk goes on, or left alone, has its
/// contents assured when the walk goes on.
pub proof fn law_at_once_is_assured(
    w: SyncView,
    site: Site,
    slot: Option<Node>,
    event: Event<Seq<u8>>,
)
    requires
        !w.config.dry_run,
        possible(site),
        on_course(w, site, slot),
        at_once(w.phase),
        true_answer(pending(w.phase), event, site, slot),
    ensures
        ({
            let (next, reply) = sync_step(w, event);
            &&& next.phase is Walking ==> assured(
                site.source,
                w.config,
                effects(reply.commands, site, w.config, slot),
            )
            &&& next.candidates == w.candidates
        }),
{
    let (next, reply) = sync_step(w, event);
    let e = Entry { from: site.from, target: site.target, meta: site.source.meta };
    lemma_xattrs_no_effect(w, e, site, slot);
    if w.phase is FileWritable {
        law_written_file_is_a_copy(w, site, slot, event);
    }
}

/// A directory whose owner is mirrored has the source's owner and group once
/// it is in place, whatever stood there before.
pub proof fn law_directory_gets_its_owner(
    w: SyncView,
    site: Site,
    slot: Option<Node>,
    event: Event<Seq<u8>>,
)
    requires
        !w.config.dry_run,
        w.config.ownership,
        possible(site),
        on_course(w, site, slot),
        w.phase is DirTarget,
        true_answer(pending(w.phase), event, site, slot),
    ensures
        ({
            let end = effects(sync_step(w, event).1.commands, site, w.config, slot);
            &&& end is Some && end->0.meta.kind == FileType::Dir
            &&& end->0.meta.uid == site.source.meta.uid
            &&& end->0.meta.gid == site.source.meta.gid
        }),
{
    let e = Entry { from: site.from, target: site.target, meta: site.source.meta };
    let found = meta_of(slot);
    let owner = Command::Chown(e.target, e.meta.uid, e.meta.gid);
    let making = dir_commands(w, e, found);
    let made = effects(making, site, w.config, slot);
    lemma_effects_of_one(Command::CreateTargetDir(site.target), site, w.config, slot);
    lemma_effects_of_two(
        Command::RemoveFile(site.target),
        Command::CreateDirAll(site.target),
        site,
        w.config,
        slot,
    );
    lemma_effects_append(making, seq![owner], site, w.config, slot);
    lemma_effects_of_one(owner, site, w.config, made);
    let owned = effects(making + seq![owner], site, w.config, slot);
    lemma_effects_append(making + seq![owner], xattr_commands(w, e), site, w.config, slot);
    lemma_xattrs_no_effect(w, e, site, owned);
}

} // verus!
