use libxcp::config::{Config, Reflink};
use libxcp::metadata::{FileType, Metadata};
use libxcp::path::PathBuf;
use libxcp::protocol::{Command, Event, Next, Query};
use libxcp::stamp::{sync_dir_timestamps, StampWalk};

fn p(text: &str) -> PathBuf {
    PathBuf::from_bytes(text.as_bytes().to_vec())
}

fn config(no_perms: bool, no_timestamps: bool) -> Config {
    Config {
        block_size: 1024,
        reflink: Reflink::Auto,
        no_perms,
        no_timestamps,
        ownership: false,
        fsync: false,
        no_target_directory: false,
        dereference: false,
        no_clobber: false,
        copy_special: false,
        dry_run: false,
        copy_xattrs: false,
        preserve_hardlinks: false,
        checksum: false,
    }
}

fn meta(kind: FileType) -> Metadata {
    Metadata {
        kind,
        len: 0,
        mtime: 0,
        mtime_nsec: 0,
        mode: 0o755,
        uid: 0,
        gid: 0,
        dev: 0,
        ino: 0,
        nlink: 1,
    }
}

fn walking(config: Config) -> StampWalk {
    let walk = StampWalk::new(p("src"), p("dst"), config);
    let walk = asked(walk, Event::Begin, Query::BeginContentsFirst(p("src")));
    asked(walk, Event::Begun, Query::NextOfContents)
}

fn asked(walk: StampWalk, event: Event, query: Query) -> StampWalk {
    let (walk, reply) = sync_dir_timestamps(walk, event);
    assert!(reply.commands.is_empty());
    assert_eq!(reply.next, Next::Ask(query));
    walk
}

/// Stamps the directory at `path` and gives back what is ordered for it.
fn stamped(walk: StampWalk, path: &str, target: &str) -> (StampWalk, Vec<Command>) {
    let walk = asked(walk, Event::Entry(Some(p(path))), Query::Lstat(p(path)));
    let walk = asked(walk, Event::Meta(Some(meta(FileType::Dir))), Query::IsDir(p(target)));
    let walk = asked(walk, Event::Answer(true), Query::OpenDirs(p(path), p(target)));
    let (walk, reply) = sync_dir_timestamps(walk, Event::Answer(true));
    assert_eq!(reply.next, Next::Ask(Query::NextOfContents));
    (walk, reply.commands)
}

#[test]
fn nothing_to_carry_over_ends_at_once() {
    let walk = StampWalk::new(p("src"), p("dst"), config(true, true));
    let (_, reply) = sync_dir_timestamps(walk, Event::Begin);
    assert!(reply.commands.is_empty());
    assert_eq!(reply.next, Next::Finished);
}

#[test]
fn directories_get_permissions_and_timestamps() {
    let (walk, commands) = stamped(walking(config(false, false)), "src/d/e", "dst/d/e");
    assert_eq!(
        commands,
        vec![
            Command::CopyPermissions(p("src/d/e"), p("dst/d/e")),
            Command::CopyTimestamps(p("src/d/e"), p("dst/d/e"))
        ]
    );
    let (walk, commands) = stamped(walk, "src", "dst");
    assert_eq!(commands.len(), 2);
    let (_, reply) = sync_dir_timestamps(walk, Event::End);
    assert_eq!(reply.next, Next::Finished);
}

#[test]
fn each_option_leaves_one_of_them_out() {
    let (_, commands) = stamped(walking(config(true, false)), "src/d", "dst/d");
    assert_eq!(commands, vec![Command::CopyTimestamps(p("src/d"), p("dst/d"))]);
    let (_, commands) = stamped(walking(config(false, true)), "src/d", "dst/d");
    assert_eq!(commands, vec![Command::CopyPermissions(p("src/d"), p("dst/d"))]);
}

#[test]
fn what_cannot_be_stamped_is_passed_over() {
    let walk = walking(config(false, false));
    let walk = asked(walk, Event::Entry(None), Query::NextOfContents);
    let walk = asked(walk, Event::Entry(Some(p("src/f"))), Query::Lstat(p("src/f")));
    let walk = asked(walk, Event::Meta(Some(meta(FileType::File))), Query::NextOfContents);
    let walk = asked(walk, Event::Entry(Some(p("src/g"))), Query::Lstat(p("src/g")));
    let walk = asked(walk, Event::Meta(None), Query::NextOfContents);
    let walk = asked(walk, Event::Entry(Some(p("out/d"))), Query::Lstat(p("out/d")));
    let walk = asked(walk, Event::Meta(Some(meta(FileType::Dir))), Query::NextOfContents);
    let walk = asked(walk, Event::Entry(Some(p("src/d"))), Query::Lstat(p("src/d")));
    let walk = asked(walk, Event::Meta(Some(meta(FileType::Dir))), Query::IsDir(p("dst/d")));
    let walk = asked(walk, Event::Answer(false), Query::NextOfContents);
    let walk = asked(walk, Event::Entry(Some(p("src/e"))), Query::Lstat(p("src/e")));
    let walk = asked(walk, Event::Meta(Some(meta(FileType::Dir))), Query::IsDir(p("dst/e")));
    let walk = asked(walk, Event::Answer(true), Query::OpenDirs(p("src/e"), p("dst/e")));
    asked(walk, Event::Answer(false), Query::NextOfContents);
}

#[test]
fn stray_events_leave_the_stamping_where_it_is() {
    let (walk, reply) = sync_dir_timestamps(walking(config(false, false)), Event::Begun);
    assert_eq!(reply.next, Next::OutOfTurn);
    asked(walk, Event::Entry(None), Query::NextOfContents);
}

#[test]
fn every_open_directory_is_stamped_once_and_contents_first() {
    let walk = walking(config(false, false));
    let (walk, mut orders) = stamped(walk, "src/a/b", "dst/a/b");
    let walk = asked(walk, Event::Entry(Some(p("src/a/f"))), Query::Lstat(p("src/a/f")));
    let walk = asked(walk, Event::Meta(Some(meta(FileType::File))), Query::NextOfContents);
    let (walk, more) = stamped(walk, "src/a", "dst/a");
    orders.extend(more);
    let (walk, more) = stamped(walk, "src", "dst");
    orders.extend(more);
    let (_, reply) = sync_dir_timestamps(walk, Event::End);
    assert!(reply.commands.is_empty());
    assert_eq!(reply.next, Next::Finished);
    assert_eq!(
        orders,
        vec![
            Command::CopyPermissions(p("src/a/b"), p("dst/a/b")),
            Command::CopyTimestamps(p("src/a/b"), p("dst/a/b")),
            Command::CopyPermissions(p("src/a"), p("dst/a")),
            Command::CopyTimestamps(p("src/a"), p("dst/a")),
            Command::CopyPermissions(p("src"), p("dst")),
            Command::CopyTimestamps(p("src"), p("dst")),
        ]
    );
}
