use libxcp::config::{Config, Reflink};
use libxcp::error::XcpError;
use libxcp::metadata::{FileType, Metadata};
use libxcp::path::PathBuf;
use libxcp::protocol::{Command, Event, Next, OnFailure, Operation, Query, Reply};
use libxcp::tree::{tree_walker, TreeWalk};

fn p(text: &str) -> PathBuf {
    PathBuf::from_bytes(text.as_bytes().to_vec())
}

fn config() -> Config {
    Config {
        block_size: 1024,
        reflink: Reflink::Auto,
        no_perms: false,
        no_timestamps: false,
        ownership: false,
        fsync: false,
        no_target_directory: false,
        dereference: false,
        no_clobber: false,
        copy_special: false,
        dry_run: false,
        copy_xattrs: false,
        preserve_hardlinks: false,
        checksum: false,
    }
}

fn meta(kind: FileType) -> Metadata {
    Metadata {
        kind,
        len: 12,
        mtime: 0,
        mtime_nsec: 0,
        mode: 0o644,
        uid: 7,
        gid: 8,
        dev: 0,
        ino: 0,
        nlink: 1,
    }
}

/// A walk of some sources that has been told whether the destination is a
/// directory and that the first source's walk has begun.
fn walking(sources: &[&str], dest: &str, config: Config, dest_is_dir: bool) -> TreeWalk {
    let sources: Vec<PathBuf> = sources.iter().map(|s| p(s)).collect();
    let first = sources[0].clone();
    let walk = TreeWalk::new(sources, p(dest), config);
    let walk = asked(walk, Event::Begin, Query::IsDir(p(dest)));
    let walk = asked(walk, Event::Answer(dest_is_dir), Query::BeginWalk(first));
    asked(walk, Event::Begun, Query::NextEntry)
}

/// Takes the walk further and checks that it only asks the given question.
fn asked(walk: TreeWalk, event: Event, query: Query) -> TreeWalk {
    let (walk, reply) = tree_walker(walk, event);
    assert!(reply.commands.is_empty());
    assert_eq!(reply.next, Next::Ask(query));
    walk
}

/// Hands an entry with the given metadata to the walk.
fn entry(walk: TreeWalk, path: &str, meta: Metadata) -> (TreeWalk, Reply) {
    let walk = asked(walk, Event::Entry(Some(p(path))), Query::SourceMeta(p(path)));
    tree_walker(walk, Event::Meta(Some(meta)))
}

/// Hands an entry to the walk and checks what it orders for it.
fn ordered(walk: TreeWalk, path: &str, meta: Metadata, commands: Vec<Command>) -> TreeWalk {
    let (walk, reply) = entry(walk, path, meta);
    assert_eq!(reply.commands, commands);
    assert_eq!(reply.next, Next::Ask(Query::NextEntry));
    walk
}

#[test]
fn a_tree_is_copied_entry_by_entry() {
    let walk = walking(&["src"], "dst", config(), false);
    let walk = ordered(
        walk,
        "src",
        meta(FileType::Dir),
        vec![Command::CreateTargetDir(p("dst"))],
    );
    let walk = ordered(
        walk,
        "src/a",
        meta(FileType::File),
        vec![Command::Size(12), Command::Send(Operation::Copy(p("src/a"), p("dst/a")))],
    );
    let (walk, reply) = entry(walk, "src/l", meta(FileType::Symlink));
    assert!(reply.commands.is_empty());
    assert_eq!(reply.next, Next::Ask(Query::ReadLink(p("src/l"))));
    let (walk, reply) = tree_walker(walk, Event::Path(p("over/there")));
    assert_eq!(
        reply.commands,
        vec![Command::Send(Operation::Link(p("over/there"), p("dst/l")))]
    );
    let (_, reply) = tree_walker(walk, Event::End);
    assert!(reply.commands.is_empty());
    assert_eq!(reply.next, Next::Finished);
}

#[test]
fn directories_are_created_before_what_they_hold() {
    let mut walk = walking(&["src"], "dst", config(), false);
    let mut commands = Vec::new();
    for (path, kind) in [
        ("src", FileType::Dir),
        ("src/a", FileType::Dir),
        ("src/a/b", FileType::Dir),
        ("src/a/b/f", FileType::File),
        ("src/g", FileType::File),
    ] {
        let (next, reply) = entry(walk, path, meta(kind));
        walk = next;
        commands.extend(reply.commands);
    }
    let at = |command: Command| commands.iter().position(|c| *c == command).unwrap();
    let top = at(Command::CreateTargetDir(p("dst")));
    let a = at(Command::CreateTargetDir(p("dst/a")));
    let b = at(Command::CreateTargetDir(p("dst/a/b")));
    let f = at(Command::Send(Operation::Copy(p("src/a/b/f"), p("dst/a/b/f"))));
    let g = at(Command::Send(Operation::Copy(p("src/g"), p("dst/g"))));
    assert!(top < a && a < b && b < f && top < g);
}

#[test]
fn an_existing_directory_is_copied_into() {
    let walk = walking(&["a/src/"], "dst", config(), true);
    ordered(
        walk,
        "a/src/f",
        meta(FileType::File),
        vec![
            Command::Size(12),
            Command::Send(Operation::Copy(p("a/src/f"), p("dst/src/f"))),
        ],
    );
}

#[test]
fn no_target_directory_copies_over_an_existing_directory() {
    let strict = Config { no_target_directory: true, ..config() };
    let walk = walking(&["src"], "dst", strict, true);
    ordered(
        walk,
        "src/f",
        meta(FileType::File),
        vec![Command::Size(12), Command::Send(Operation::Copy(p("src/f"), p("dst/f")))],
    );
}

#[test]
fn a_source_without_a_name_is_refused() {
    let walk = TreeWalk::new(vec![p("")], p("dst"), config());
    let (_, reply) = tree_walker(walk, Event::Begin);
    assert_eq!(reply.next, Next::Failed(XcpError::InvalidSource));
    assert_eq!(XcpError::<PathBuf>::InvalidSource.text(), "Failed to find source directory name.");
}

#[test]
fn no_sources_is_a_complete_run() {
    let walk = TreeWalk::new(vec![], p("dst"), config());
    let (_, reply) = tree_walker(walk, Event::Begin);
    assert_eq!(reply.next, Next::Finished);
}

#[test]
fn sources_are_taken_in_order() {
    let walk = walking(&["one", "two"], "dst", config(), true);
    let walk = asked(walk, Event::End, Query::IsDir(p("dst")));
    let walk = asked(walk, Event::Answer(true), Query::BeginWalk(p("two")));
    let walk = asked(walk, Event::Begun, Query::NextEntry);
    let walk = ordered(
        walk,
        "two",
        meta(FileType::Dir),
        vec![Command::CreateTargetDir(p("dst/two"))],
    );
    let (_, reply) = tree_walker(walk, Event::End);
    assert_eq!(reply.next, Next::Finished);
}

#[test]
fn ownership_of_directories_is_copied_at_once() {
    let owning = Config { ownership: true, ..config() };
    let walk = walking(&["src"], "dst", owning, false);
    ordered(
        walk,
        "src/d",
        meta(FileType::Dir),
        vec![Command::CreateTargetDir(p("dst/d")), Command::Chown(p("dst/d"), 7, 8)],
    );
}

#[test]
fn dereferencing_reads_where_a_path_leads() {
    let deref = Config { dereference: true, ..config() };
    let walk = walking(&["src"], "dst", deref, false);
    let walk = asked(walk, Event::Entry(Some(p("src/l"))), Query::Canonicalize(p("src/l")));
    let walk = asked(walk, Event::Path(p("/real/f")), Query::SourceMeta(p("/real/f")));
    let (_, reply) = tree_walker(walk, Event::Meta(Some(meta(FileType::File))));
    assert_eq!(
        reply.commands,
        vec![Command::Size(12), Command::Send(Operation::Copy(p("/real/f"), p("dst/l")))]
    );
}

#[test]
fn no_clobber_stops_at_an_existing_target() {
    let keep = Config { no_clobber: true, ..config() };
    let walk = walking(&["src"], "dst", keep, false);
    let (walk, reply) = entry(walk, "src/f", meta(FileType::File));
    assert!(reply.commands.is_empty());
    assert_eq!(reply.next, Next::Ask(Query::Exists(p("dst/f"))));
    let (walk, reply) = tree_walker(walk, Event::Answer(true));
    assert_eq!(reply.commands, vec![Command::ReportExists(p("dst/f"))]);
    assert_eq!(reply.next, Next::Failed(XcpError::EarlyShutdown));
    assert_eq!(
        XcpError::DestinationExists(p("dst/f")).text(),
        "Destination file exists and --no-clobber is set."
    );
    assert_eq!(
        XcpError::<PathBuf>::EarlyShutdown.text(),
        "Destination file exists and --no-clobber is set."
    );
    let (_, reply) = tree_walker(walk, Event::End);
    assert_eq!(reply.next, Next::OutOfTurn);
}

#[test]
fn no_clobber_copies_to_a_free_target() {
    let keep = Config { no_clobber: true, ..config() };
    let walk = walking(&["src"], "dst", keep, false);
    let (walk, _) = entry(walk, "src/f", meta(FileType::File));
    let (walk, reply) = tree_walker(walk, Event::Answer(false));
    assert_eq!(
        reply.commands,
        vec![Command::Size(12), Command::Send(Operation::Copy(p("src/f"), p("dst/f")))]
    );
    let (walk, _) = entry(walk, "src/l", meta(FileType::Symlink));
    let (walk, reply) = tree_walker(walk, Event::Answer(false));
    assert_eq!(reply.next, Next::Ask(Query::ReadLink(p("src/l"))));
    let (_, reply) = tree_walker(walk, Event::Path(p("x")));
    assert_eq!(reply.commands, vec![Command::Send(Operation::Link(p("x"), p("dst/l")))]);
}

#[test]
fn sockets_and_devices_are_copied_as_special_files() {
    for kind in [FileType::Socket, FileType::Char, FileType::Fifo] {
        let walk = walking(&["src"], "dst", config(), false);
        ordered(
            walk,
            "src/s",
            meta(kind),
            vec![Command::Send(Operation::Special(p("src/s"), p("dst/s")))],
        );
    }
}

#[test]
fn block_devices_are_opt_in() {
    let special = Config { copy_special: true, ..config() };
    let walk = walking(&["src"], "dst", special, false);
    ordered(
        walk,
        "src/b",
        meta(FileType::Block),
        vec![Command::Send(Operation::Special(p("src/b"), p("dst/b")))],
    );
    let walk = walking(&["src"], "dst", config(), false);
    let (_, reply) = entry(walk, "src/b", meta(FileType::Block));
    assert_eq!(reply.next, Next::Failed(XcpError::UnknownFileType(p("dst/b"))));
}

#[test]
fn unknown_kinds_are_refused() {
    let walk = walking(&["src"], "dst", config(), false);
    let (_, reply) = entry(walk, "src/u", meta(FileType::Other));
    assert!(reply.commands.is_empty());
    assert_eq!(reply.next, Next::Failed(XcpError::UnknownFileType(p("dst/u"))));
}

#[test]
fn entries_outside_the_source_are_refused() {
    let walk = walking(&["src"], "dst", config(), false);
    let (_, reply) = entry(walk, "other/f", meta(FileType::File));
    assert_eq!(reply.next, Next::Failed(XcpError::OutsideSource));
}

#[test]
fn stray_events_leave_the_walk_where_it_is() {
    let walk = walking(&["src"], "dst", config(), false);
    let (walk, reply) = tree_walker(walk, Event::Answer(true));
    assert!(reply.commands.is_empty());
    assert_eq!(reply.next, Next::OutOfTurn);
    asked(walk, Event::Entry(Some(p("src/f"))), Query::SourceMeta(p("src/f")));
}

#[test]
fn what_failures_mean_for_the_run() {
    assert_eq!(Command::CreateTargetDir(p("d")).on_failure(), OnFailure::CopyError);
    assert_eq!(Command::CreateDirAll(p("d")).on_failure(), OnFailure::Propagate);
    assert_eq!(Command::Chown(p("d"), 1, 2).on_failure(), OnFailure::Warn);
    assert_eq!(Command::SyncXattrs(p("a"), p("b")).on_failure(), OnFailure::Warn);
    assert_eq!(Command::CopyPermissions(p("a"), p("b")).on_failure(), OnFailure::Warn);
    assert_eq!(Command::CopyTimestamps(p("a"), p("b")).on_failure(), OnFailure::Warn);
    assert_eq!(Command::HardLink(p("a"), p("b")).on_failure(), OnFailure::Propagate);
    assert_eq!(XcpError::<PathBuf>::CopyError.text(), "Error creating target directory: ");
    assert_eq!(XcpError::<PathBuf>::ReflinkFailed.text(), "");
    assert!(Query::SourceMeta(p("a")).is_mandatory());
    assert!(Query::ReadLink(p("a")).is_mandatory());
    assert!(Query::Canonicalize(p("a")).is_mandatory());
    assert!(Query::<PathBuf>::NextEntry.is_mandatory());
    assert!(Query::BeginWalk(p("a")).is_mandatory());
    assert!(!Query::Lstat(p("a")).is_mandatory());
    assert!(!Query::Digests(p("a"), p("b")).is_mandatory());
    assert!(!Query::<PathBuf>::NextListed.is_mandatory());
}
