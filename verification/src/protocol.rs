//! The conversation between the engine and the driver that does its I/O.
//!
//! The engine answers every event with a reply. The driver carries out the
//! reply's commands in order, then what the reply says comes next: it puts
//! one question to the file system and hands the answer back as an event, or
//! it ends the run.

use vstd::prelude::*;

use crate::error::XcpError;
use crate::metadata::{locked, unlock, unlocked_mode, FileType, Metadata};
use crate::path::PathBuf;

verus! {

/// Work for the copy workers.
#[derive(Debug, PartialEq, Eq)]
pub enum Operation<P = PathBuf> {
    /// Copy the contents of the first path to the second.
    Copy(P, P),
    /// Make the second path a symlink that holds the first.
    Link(P, P),
    /// Make the second path a special file like the first.
    Special(P, P),
}

impl View for Operation<PathBuf> {
    type V = Operation<Seq<u8>>;

    open spec fn view(&self) -> Operation<Seq<u8>> {
        match self {
            Operation::Copy(a, b) => Operation::Copy(a@, b@),
            Operation::Link(a, b) => Operation::Link(a@, b@),
            Operation::Special(a, b) => Operation::Special(a@, b@),
        }
    }
}

/// What a dry run says in place of doing it.
#[derive(Debug, PartialEq, Eq)]
pub enum Notice<P = PathBuf> {
    ReplaceWithDir(P),
    CreateDir(P),
    HardLink(P, P),
    Copy(P, P),
    CopyDiffering(P, P),
    CreateSymlink(P, P),
    CopySpecial(P, P),
    Delete(P),
}

impl View for Notice<PathBuf> {
    type V = Notice<Seq<u8>>;

    open spec fn view(&self) -> Notice<Seq<u8>> {
        match self {
            Notice::ReplaceWithDir(a) => Notice::ReplaceWithDir(a@),
            Notice::CreateDir(a) => Notice::CreateDir(a@),
            Notice::HardLink(a, b) => Notice::HardLink(a@, b@),
            Notice::Copy(a, b) => Notice::Copy(a@, b@),
            Notice::CopyDiffering(a, b) => Notice::CopyDiffering(a@, b@),
            Notice::CreateSymlink(a, b) => Notice::CreateSymlink(a@, b@),
            Notice::CopySpecial(a, b) => Notice::CopySpecial(a@, b@),
            Notice::Delete(a) => Notice::Delete(a@),
        }
    }
}

/// The words in front of a notice's paths.
pub open spec fn notice_label(n: Notice<Seq<u8>>) -> Seq<char> {
    match n {
        Notice::ReplaceWithDir(_) => "would replace with dir: "@,
        Notice::CreateDir(_) => "would create dir: "@,
        Notice::HardLink(_, _) => "would hard link: "@,
        Notice::Copy(_, _) => "would copy: "@,
        Notice::CopyDiffering(_, _) => "would copy (checksum differs): "@,
        Notice::CreateSymlink(_, _) => "would create symlink: "@,
        Notice::CopySpecial(_, _) => "would copy special: "@,
        Notice::Delete(_) => "would delete: "@,
    }
}

/// The paths of a notice, in the order in which it names them.
pub open spec fn notice_paths(n: Notice<Seq<u8>>) -> Seq<Seq<u8>> {
    match n {
        Notice::ReplaceWithDir(a) => seq![a],
        Notice::CreateDir(a) => seq![a],
        Notice::HardLink(a, b) => seq![a, b],
        Notice::Copy(a, b) => seq![a, b],
        Notice::CopyDiffering(a, b) => seq![a, b],
        Notice::CreateSymlink(a, b) => seq![a, b],
        Notice::CopySpecial(a, b) => seq![a, b],
        Notice::Delete(a) => seq![a],
    }
}

impl Notice<PathBuf> {
    /// The words in front of the notice's paths.
    pub fn label(&self) -> (res: &'static str)
        ensures
            res@ == notice_label(self@),
    {
        match self {
            Notice::ReplaceWithDir(_) => "would replace with dir: ",
            Notice::CreateDir(_) => "would create dir: ",
            Notice::HardLink(_, _) => "would hard link: ",
            Notice::Copy(_, _) => "would copy: ",
            Notice::CopyDiffering(_, _) => "would copy (checksum differs): ",
            Notice::CreateSymlink(_, _) => "would create symlink: ",
            Notice::CopySpecial(_, _) => "would copy special: ",
            Notice::Delete(_) => "would delete: ",
        }
    }

    /// The first path of the notice, and the one that ` -> ` leads to.
    pub fn paths(&self) -> (res: (&PathBuf, Option<&PathBuf>))
        ensures
            match res.1 {
                Some(second) => notice_paths(self@) == seq![res.0@, second@],
                None => notice_paths(self@) == seq![res.0@],
            },
    {
        match self {
            Notice::ReplaceWithDir(a) => (a, None),
            Notice::CreateDir(a) => (a, None),
            Notice::HardLink(a, b) => (a, Some(b)),
            Notice::Copy(a, b) => (a, Some(b)),
            Notice::CopyDiffering(a, b) => (a, Some(b)),
            Notice::CreateSymlink(a, b) => (a, Some(b)),
            Notice::CopySpecial(a, b) => (a, Some(b)),
            Notice::Delete(a) => (a, None),
        }
    }
}

/// One thing for the driver to do.
#[derive(Debug, PartialEq, Eq)]
pub enum Command<P = PathBuf> {
    /// Say what would be done.
    Notice(Notice<P>),
    /// Add to the number of bytes that the run will copy.
    Size(u64),
    /// Report that the path exists and may not be replaced.
    ReportExists(P),
    /// Queue an operation for the copy workers.
    Send(Operation<P>),
    /// Remove anything but a directory.
    RemoveFile(P),
    /// Remove a directory and all below it.
    RemoveDirAll(P),
    /// Create a directory and all above it that are missing.
    CreateDirAll(P),
    /// The same, for a directory of the tree that is being written.
    CreateTargetDir(P),
    /// Set owner and group.
    Chown(P, u32, u32),
    /// Set the mode.
    SetMode(P, u32),
    /// Make the second path's extended attributes those of the first.
    SyncXattrs(P, P),
    /// Make the second path another name of the first.
    HardLink(P, P),
    /// Copy the first path to the second before going on.
    CopyNow(P, P),
    /// Rename the first path to the second.
    Rename(P, P),
    /// Create an empty file, or empty the one that is there.
    CreateFile(P),
    /// Set aside room for that many bytes in the file just created.
    Allocate(u64),
    /// Give the second directory, held open, the permissions of the first.
    CopyPermissions(P, P),
    /// Give the second directory, held open, the timestamps of the first.
    CopyTimestamps(P, P),
}

impl View for Command<PathBuf> {
    type V = Command<Seq<u8>>;

    open spec fn view(&self) -> Command<Seq<u8>> {
        match self {
            Command::Notice(n) => Command::Notice(n@),
            Command::Size(n) => Command::Size(*n),
            Command::ReportExists(p) => Command::ReportExists(p@),
            Command::Send(op) => Command::Send(op@),
            Command::RemoveFile(p) => Command::RemoveFile(p@),
            Command::RemoveDirAll(p) => Command::RemoveDirAll(p@),
            Command::CreateDirAll(p) => Command::CreateDirAll(p@),
            Command::CreateTargetDir(p) => Command::CreateTargetDir(p@),
            Command::Chown(p, uid, gid) => Command::Chown(p@, *uid, *gid),
            Command::SetMode(p, mode) => Command::SetMode(p@, *mode),
            Command::SyncXattrs(a, b) => Command::SyncXattrs(a@, b@),
            Command::HardLink(a, b) => Command::HardLink(a@, b@),
            Command::CopyNow(a, b) => Command::CopyNow(a@, b@),
            Command::Rename(a, b) => Command::Rename(a@, b@),
            Command::CreateFile(p) => Command::CreateFile(p@),
            Command::Allocate(n) => Command::Allocate(*n),
            Command::CopyPermissions(a, b) => Command::CopyPermissions(a@, b@),
            Command::CopyTimestamps(a, b) => Command::CopyTimestamps(a@, b@),
        }
    }
}

/// The path that a command changes, where it changes one.
pub open spec fn changes(c: Command<Seq<u8>>) -> Option<Seq<u8>> {
    match c {
        Command::Send(Operation::Copy(_, p)) => Some(p),
        Command::Send(Operation::Link(_, p)) => Some(p),
        Command::Send(Operation::Special(_, p)) => Some(p),
        Command::RemoveFile(p) => Some(p),
        Command::RemoveDirAll(p) => Some(p),
        Command::CreateDirAll(p) => Some(p),
        Command::CreateTargetDir(p) => Some(p),
        Command::Chown(p, _, _) => Some(p),
        Command::SetMode(p, _) => Some(p),
        Command::SyncXattrs(_, p) => Some(p),
        Command::HardLink(_, p) => Some(p),
        Command::CopyNow(_, p) => Some(p),
        Command::Rename(p, _) => Some(p),
        Command::CreateFile(p) => Some(p),
        Command::CopyPermissions(_, p) => Some(p),
        Command::CopyTimestamps(_, p) => Some(p),
        _ => None,
    }
}

/// What a failed command means for the run.
#[derive(Debug, Clone, Copy, PartialEq, Eq, Structural)]
pub enum OnFailure {
    /// The run ends with the operating system's error.
    Propagate,
    /// The run ends with `XcpError::CopyError`.
    CopyError,
    /// The failure is logged and the run goes on.
    Warn,
}

/// What the failure of a command means for the run.
pub open spec fn failure_of(c: Command<Seq<u8>>) -> OnFailure {
    match c {
        Command::CreateTargetDir(_) => OnFailure::CopyError,
        Command::Chown(_, _, _) => OnFailure::Warn,
        Command::SyncXattrs(_, _) => OnFailure::Warn,
        Command::CopyPermissions(_, _) => OnFailure::Warn,
        Command::CopyTimestamps(_, _) => OnFailure::Warn,
        _ => OnFailure::Propagate,
    }
}

impl Command<PathBuf> {
    /// What the failure of this command means for the run.
    pub fn on_failure(&self) -> (res: OnFailure)
        ensures
            res == failure_of(self@),
    {
        match self {
            Command::CreateTargetDir(_) => OnFailure::CopyError,
            Command::Chown(_, _, _) => OnFailure::Warn,
            Command::SyncXattrs(_, _) => OnFailure::Warn,
            Command::CopyPermissions(_, _) => OnFailure::Warn,
            Command::CopyTimestamps(_, _) => OnFailure::Warn,
            _ => OnFailure::Propagate,
        }
    }
}

/// One question for the file system.
#[derive(Debug, PartialEq, Eq)]
pub enum Query<P = PathBuf> {
    /// Start to walk the tree, holders before what they hold.
    BeginWalk(P),
    /// The next entry of that walk.
    NextEntry,
    /// Start to walk the tree, what is held before its holders.
    BeginContentsFirst(P),
    /// The next entry of that walk, where it can be read.
    NextOfContents,
    /// Start to list everything in the tree.
    BeginListing(P),
    /// The next path of that listing, where it can be read.
    NextListed,
    /// Whether anything stands at the path, symlinks followed.
    Exists(P),
    /// Whether a directory stands at the path, symlinks followed.
    IsDir(P),
    /// The path with all symlinks resolved.
    Canonicalize(P),
    /// The metadata of an entry that must be readable.
    SourceMeta(P),
    /// The metadata of whatever stands at the path.
    Lstat(P),
    /// What the symlink holds.
    ReadLink(P),
    /// The content digests of two files.
    Digests(P, P),
    /// Whether both directories can be opened.
    OpenDirs(P, P),
}

impl View for Query<PathBuf> {
    type V = Query<Seq<u8>>;

    open spec fn view(&self) -> Query<Seq<u8>> {
        match self {
            Query::BeginWalk(p) => Query::BeginWalk(p@),
            Query::NextEntry => Query::NextEntry,
            Query::BeginContentsFirst(p) => Query::BeginContentsFirst(p@),
            Query::NextOfContents => Query::NextOfContents,
            Query::BeginListing(p) => Query::BeginListing(p@),
            Query::NextListed => Query::NextListed,
            Query::Exists(p) => Query::Exists(p@),
            Query::IsDir(p) => Query::IsDir(p@),
            Query::Canonicalize(p) => Query::Canonicalize(p@),
            Query::SourceMeta(p) => Query::SourceMeta(p@),
            Query::Lstat(p) => Query::Lstat(p@),
            Query::ReadLink(p) => Query::ReadLink(p@),
            Query::Digests(a, b) => Query::Digests(a@, b@),
            Query::OpenDirs(a, b) => Query::OpenDirs(a@, b@),
        }
    }
}

/// Whether a question that cannot be answered ends the run.
pub open spec fn must_answer(q: Query<Seq<u8>>) -> bool {
    match q {
        Query::BeginWalk(_) => true,
        Query::NextEntry => true,
        Query::Canonicalize(_) => true,
        Query::SourceMeta(_) => true,
        Query::ReadLink(_) => true,
        _ => false,
    }
}

impl Query<PathBuf> {
    /// Whether the run ends with the operating system's error when this
    /// question cannot be answered. The other questions have an answer that
    /// says so.
    pub fn is_mandatory(&self) -> (res: bool)
        ensures
            res == must_answer(self@),
    {
        match self {
            Query::BeginWalk(_) => true,
            Query::NextEntry => true,
            Query::Canonicalize(_) => true,
            Query::SourceMeta(_) => true,
            Query::ReadLink(_) => true,
            _ => false,
        }
    }
}

/// What the driver hands back.
#[derive(Debug)]
pub enum Event<P = PathBuf> {
    /// The run begins.
    Begin,
    /// The walk or listing asked for has begun.
    Begun,
    /// An entry of the walk; nothing where it could not be read.
    Entry(Option<P>),
    /// The walk or listing is over.
    End,
    /// The answer to `Exists`, `IsDir` or `OpenDirs`.
    Answer(bool),
    /// The answer to `Canonicalize` or `ReadLink`.
    Path(P),
    /// The answer to `SourceMeta` or `Lstat`; nothing where there is none.
    Meta(Option<Metadata>),
    /// The answer to `Digests`; nothing where a file could not be read.
    Digests(Option<([u8; 32], [u8; 32])>),
}

impl View for Event<PathBuf> {
    type V = Event<Seq<u8>>;

    open spec fn view(&self) -> Event<Seq<u8>> {
        match self {
            Event::Begin => Event::Begin,
            Event::Begun => Event::Begun,
            Event::Entry(Some(p)) => Event::Entry(Some(p@)),
            Event::Entry(None) => Event::Entry(None),
            Event::End => Event::End,
            Event::Answer(b) => Event::Answer(*b),
            Event::Path(p) => Event::Path(p@),
            Event::Meta(m) => Event::Meta(*m),
            Event::Digests(d) => Event::Digests(*d),
        }
    }
}

/// What comes after a reply's commands.
#[derive(Debug, PartialEq, Eq)]
pub enum Next<P = PathBuf> {
    /// Put the question and hand back the answer.
    Ask(Query<P>),
    /// The run is complete.
    Finished,
    /// The run ends with an error.
    Failed(XcpError<P>),
    /// The event does not answer what was asked; nothing was done.
    OutOfTurn,
}

impl View for Next<PathBuf> {
    type V = Next<Seq<u8>>;

    open spec fn view(&self) -> Next<Seq<u8>> {
        match self {
            Next::Ask(q) => Next::Ask(q@),
            Next::Finished => Next::Finished,
            Next::Failed(e) => Next::Failed(e@),
            Next::OutOfTurn => Next::OutOfTurn,
        }
    }
}

/// Two files whose metadata agrees and whose contents are still to be
/// compared, with the size of the source.
#[derive(Debug, PartialEq, Eq)]
pub struct Candidate<P = PathBuf> {
    pub from: P,
    pub target: P,
    pub len: u64,
}

impl View for Candidate<PathBuf> {
    type V = Candidate<Seq<u8>>;

    open spec fn view(&self) -> Candidate<Seq<u8>> {
        Candidate { from: self.from@, target: self.target@, len: self.len }
    }
}

/// The views of a list of commands.
pub open spec fn commands_of(list: Seq<Command>) -> Seq<Command<Seq<u8>>> {
    list.map_values(|c: Command| c@)
}

/// The texts of a list of paths.
pub open spec fn paths_of(list: Seq<PathBuf>) -> Seq<Seq<u8>> {
    list.map_values(|p: PathBuf| p@)
}

/// The views of a list of candidates.
pub open spec fn candidates_of(list: Seq<Candidate>) -> Seq<Candidate<Seq<u8>>> {
    list.map_values(|c: Candidate| c@)
}

/// The engine's answer to an event.
#[derive(Debug)]
pub struct Reply {
    /// What to do, in order.
    pub commands: Vec<Command>,
    /// The subtrees to remove after that, each independent of the others.
    pub delete: Vec<PathBuf>,
    /// The files to compare by content after that.
    pub verify: Vec<Candidate>,
    /// What comes then.
    pub next: Next,
}

/// What a reply holds.
#[verifier::ext_equal]
pub ghost struct ReplyView {
    pub commands: Seq<Command<Seq<u8>>>,
    pub delete: Seq<Seq<u8>>,
    pub verify: Seq<Candidate<Seq<u8>>>,
    pub next: Next<Seq<u8>>,
}

impl View for Reply {
    type V = ReplyView;

    open spec fn view(&self) -> ReplyView {
        ReplyView {
            commands: commands_of(self.commands@),
            delete: paths_of(self.delete@),
            verify: candidates_of(self.verify@),
            next: self.next@,
        }
    }
}

/// The reply with the given commands and nothing to remove or compare.
pub open spec fn replying(
    commands: Seq<Command<Seq<u8>>>,
    next: Next<Seq<u8>>,
) -> ReplyView {
    ReplyView { commands, delete: seq![], verify: seq![], next }
}

/// The commands of the list, where `on` holds.
pub open spec fn given(
    on: bool,
    commands: Seq<Command<Seq<u8>>>,
) -> Seq<Command<Seq<u8>>> {
    if on {
        commands
    } else {
        seq![]
    }
}

/// The reply with the given commands and nothing to remove or compare.
pub fn reply(commands: Vec<Command>, next: Next) -> (res: Reply)
    ensures
        res@ == replying(commands_of(commands@), next@),
{
    let res = Reply { commands, delete: Vec::new(), verify: Vec::new(), next };
    assert(res@ =~= replying(commands_of(commands@), next@));
    res
}

/// The reply that only asks.
pub fn ask(query: Query) -> (res: Reply)
    ensures
        res@ == replying(seq![], Next::Ask(query@)),
{
    let commands: Vec<Command> = Vec::new();
    assert(commands_of(commands@) =~= seq![]);
    reply(commands, Next::Ask(query))
}

/// The reply that ends the run with an error.
pub fn fail(error: XcpError) -> (res: Reply)
    ensures
        res@ == replying(seq![], Next::Failed(error@)),
{
    let commands: Vec<Command> = Vec::new();
    assert(commands_of(commands@) =~= seq![]);
    reply(commands, Next::Failed(error))
}

/// The reply to an event that does not answer what was asked.
pub fn out_of_turn() -> (res: Reply)
    ensures
        res@ == replying(seq![], Next::OutOfTurn),
{
    let commands: Vec<Command> = Vec::new();
    assert(commands_of(commands@) =~= seq![]);
    reply(commands, Next::OutOfTurn)
}

/// The reply that completes the run.
pub fn finished() -> (res: Reply)
    ensures
        res@ == replying(seq![], Next::Finished),
{
    let commands: Vec<Command> = Vec::new();
    assert(commands_of(commands@) =~= seq![]);
    reply(commands, Next::Finished)
}

/// An empty list of commands.
pub fn no_commands() -> (res: Vec<Command>)
    ensures
        commands_of(res@) == Seq::<Command<Seq<u8>>>::empty(),
{
    let res: Vec<Command> = Vec::new();
    assert(commands_of(res@) =~= seq![]);
    res
}

/// Adds a command to the list.
pub fn add_command(list: &mut Vec<Command>, command: Command)
    ensures
        commands_of(final(list)@) == commands_of(old(list)@).push(command@),
{
    list.push(command);
    assert(commands_of(list@) =~= commands_of(old(list)@).push(command@));
}

/// What makes a file writable that its owner may not write; nothing for any
/// other entry.
pub open spec fn unlocking(path: Seq<u8>, found: Option<Metadata>) -> Seq<Command<Seq<u8>>> {
    given(
        found is Some && locked(found->0),
        seq![Command::SetMode(path, unlocked_mode(found->0.mode))],
    )
}

/// Adds what makes a file writable that its owner may not write.
pub fn add_unlocking(commands: &mut Vec<Command>, path: &PathBuf, found: Option<Metadata>)
    ensures
        commands_of(final(commands)@) == commands_of(old(commands)@) + unlocking(path@, found),
{
    match found {
        Some(meta) => {
            match unlock(&meta) {
                Some(mode) => {
                    add_command(commands, Command::SetMode(path.clone(), mode));
                },
                None => {},
            }
        },
        None => {},
    }
    assert(commands_of(commands@) =~= commands_of(old(commands)@) + unlocking(path@, found));
}

/// Whether an event is of the sort that answers a question.
pub open spec fn answers(query: Query<Seq<u8>>, event: Event<Seq<u8>>) -> bool {
    match event {
        Event::Begin => false,
        Event::Begun => query is BeginWalk || query is BeginContentsFirst || query is BeginListing,
        Event::Entry(Some(_)) => query is NextEntry || query is NextOfContents
            || query is NextListed,
        Event::Entry(None) => query is NextOfContents || query is NextListed,
        Event::End => query is NextEntry || query is NextOfContents || query is NextListed,
        Event::Answer(_) => query is Exists || query is IsDir || query is OpenDirs,
        Event::Path(_) => query is Canonicalize || query is ReadLink,
        Event::Meta(Some(_)) => query is SourceMeta || query is Lstat,
        Event::Meta(None) => query is Lstat,
        Event::Digests(_) => query is Digests,
    }
}

/// A question that may remain open has an answer that says so, and one that
/// may not has none: every entry of a source must be readable, where what
/// stands at a destination or can only be looked up need not be.
pub proof fn law_open_questions_have_an_answer(query: Query<Seq<u8>>)
    ensures
        must_answer(query) <==> query is BeginWalk || query is NextEntry || query is Canonicalize
            || query is SourceMeta || query is ReadLink,
        must_answer(query) ==> !answers(query, Event::Entry(None)) && !answers(
            query,
            Event::Meta(None),
        ) && !answers(query, Event::Digests(None)) && !answers(query, Event::Answer(false)),
{
}

/// A command that changes a tree or queues work ends the run when it fails, as
/// the operating system says or, for a directory of the tree, with an error of
/// its own; owners, extended attributes and the stamps of directories never
/// do.
pub proof fn law_what_a_failure_means(c: Command<Seq<u8>>)
    ensures
        failure_of(c) == OnFailure::Warn <==> c is Chown || c is SyncXattrs || c is CopyPermissions
            || c is CopyTimestamps,
        failure_of(c) == OnFailure::CopyError <==> c is CreateTargetDir,
{
}

/// Only a file that its owner may not write is made writable, once, by the one
/// bit that it lacks.
pub proof fn law_unlocking_adds_owner_write(path: Seq<u8>, found: Option<Metadata>)
    ensures
        unlocking(path, found) == (if found is Some && found->0.kind == FileType::File
            && found->0.mode & 0x80 == 0 {
            seq![Command::SetMode(path, found->0.mode | 0x80)]
        } else {
            Seq::<Command<Seq<u8>>>::empty()
        }),
{
}

/// A notice names its paths in order, and every sort of notice has words of
/// its own.
pub proof fn law_notices_are_told_apart(a: Notice<Seq<u8>>, b: Notice<Seq<u8>>)
    ensures
        a matches Notice::Copy(p, q) ==> notice_paths(a) == seq![p, q],
        a matches Notice::CopyDiffering(p, q) ==> notice_paths(a) == seq![p, q],
        a matches Notice::CopySpecial(p, q) ==> notice_paths(a) == seq![p, q],
        a matches Notice::HardLink(p, q) ==> notice_paths(a) == seq![p, q],
        a matches Notice::CreateSymlink(p, q) ==> notice_paths(a) == seq![p, q],
        a matches Notice::CreateDir(p) ==> notice_paths(a) == seq![p],
        a matches Notice::ReplaceWithDir(p) ==> notice_paths(a) == seq![p],
        a matches Notice::Delete(p) ==> notice_paths(a) == seq![p],
        a is Copy ==> notice_label(a) == "would copy: "@,
        a is CopyDiffering ==> notice_label(a) == "would copy (checksum differs): "@,
        a is CopySpecial ==> notice_label(a) == "would copy special: "@,
        a is HardLink ==> notice_label(a) == "would hard link: "@,
        a is CreateSymlink ==> notice_label(a) == "would create symlink: "@,
        a is CreateDir ==> notice_label(a) == "would create dir: "@,
        a is ReplaceWithDir ==> notice_label(a) == "would replace with dir: "@,
        a is Delete ==> notice_label(a) == "would delete: "@,
        notice_label(a) == notice_label(b) ==> {
            &&& (a is ReplaceWithDir) == (b is ReplaceWithDir)
            &&& (a is CreateDir) == (b is CreateDir)
            &&& (a is HardLink) == (b is HardLink)
            &&& (a is Copy) == (b is Copy)
            &&& (a is CopyDiffering) == (b is CopyDiffering)
            &&& (a is CreateSymlink) == (b is CreateSymlink)
            &&& (a is CopySpecial) == (b is CopySpecial)
            &&& (a is Delete) == (b is Delete)
        },
{
    reveal_strlit("would replace with dir: ");
    reveal_strlit("would create dir: ");
    reveal_strlit("would hard link: ");
    reveal_strlit("would copy: ");
    reveal_strlit("would copy (checksum differs): ");
    reveal_strlit("would create symlink: ");
    reveal_strlit("would copy special: ");
    reveal_strlit("would delete: ");
    assert("would replace with dir: "@.len() == 24);
    assert("would create dir: "@.len() == 18);
    assert("would hard link: "@.len() == 17);
    assert("would copy: "@.len() == 12);
    assert("would copy (checksum differs): "@.len() == 31);
    assert("would create symlink: "@.len() == 22);
    assert("would copy special: "@.len() == 20);
    assert("would delete: "@.len() == 14);
}

} // verus!
