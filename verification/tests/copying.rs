use libxcp::config::{Config, Reflink};
use libxcp::copy::{CopyEvent, CopyHandle, CopyNext, CopyPhase, FinalStep, Stretch};
use libxcp::error::XcpError;
use libxcp::metadata::{FileType, Metadata};
use libxcp::path::PathBuf;
use libxcp::protocol::Command;

fn p(text: &str) -> PathBuf {
    PathBuf::from_bytes(text.as_bytes().to_vec())
}

fn config() -> Config {
    Config {
        block_size: 4,
        reflink: Reflink::Auto,
        no_perms: false,
        no_timestamps: false,
        ownership: false,
        fsync: false,
        no_target_directory: false,
        dereference: false,
        no_clobber: false,
        copy_special: false,
        dry_run: false,
        copy_xattrs: false,
        preserve_hardlinks: false,
        checksum: false,
    }
}

fn file(len: u64) -> Metadata {
    Metadata {
        kind: FileType::File,
        len,
        mtime: 0,
        mtime_nsec: 0,
        mode: 0o100644,
        uid: 0,
        gid: 0,
        dev: 0,
        ino: 0,
        nlink: 1,
    }
}

fn handle(len: u64, config: Config) -> CopyHandle {
    CopyHandle { metadata: file(len), config }
}

/// Runs a copy of a file with the given data segments. A request for bytes is
/// served with at most `serve` of them. Gives back the outcome, the requests
/// and the progress reported.
fn run(
    handle: &CopyHandle,
    reflinks: bool,
    segments: Option<&[(u64, u64)]>,
    serve: u64,
) -> (Result<u64, XcpError>, Vec<u64>, Vec<u64>) {
    let mut phase = CopyPhase::Ready;
    let mut event = CopyEvent::Begin;
    let mut requests = Vec::new();
    let mut reported = Vec::new();
    loop {
        assert!(CopyHandle::is_sensible(phase, event));
        let (next_phase, next, progress) = handle.copy_file(phase, event);
        reported.extend(progress);
        phase = next_phase;
        event = match next {
            CopyNext::Reflink => CopyEvent::Reflinked(reflinks),
            CopyNext::ProbeSparse => CopyEvent::Sparse(segments.is_some()),
            CopyNext::NextSegment(pos) => {
                let (start, end) = *segments
                    .unwrap()
                    .iter()
                    .find(|(_, end)| *end > pos)
                    .unwrap_or(&(handle.metadata.len, handle.metadata.len));
                CopyEvent::Segment(start, end)
            }
            CopyNext::CopyBytes(n) => {
                requests.push(n);
                CopyEvent::Copied(n.min(serve))
            }
            CopyNext::Finished(n) => return (Ok(n), requests, reported),
            CopyNext::Failed(e) => return (Err(e), requests, reported),
            CopyNext::OutOfTurn => panic!("out of turn in {phase:?}"),
        };
    }
}

#[test]
fn opening_creates_and_allocates() {
    let (handle, commands) = CopyHandle::new(p("d/a"), file(9), config(), None);
    assert_eq!(handle.metadata, file(9));
    assert_eq!(handle.config, config());
    assert_eq!(commands, vec![Command::CreateFile(p("d/a")), Command::Allocate(9)]);
}

#[test]
fn opening_keeps_a_backup_first() {
    let (_, commands) = CopyHandle::new(p("d/a"), file(9), config(), Some(p("d/a.~1~")));
    assert_eq!(
        commands,
        vec![
            Command::Rename(p("d/a"), p("d/a.~1~")),
            Command::CreateFile(p("d/a")),
            Command::Allocate(9)
        ]
    );
}

#[test]
fn reflink_outcomes() {
    let with = |reflink| handle(1, Config { reflink, ..config() });
    assert_eq!(with(Reflink::Auto).try_reflink(true), Ok(true));
    assert_eq!(with(Reflink::Auto).try_reflink(false), Ok(false));
    assert_eq!(with(Reflink::Always).try_reflink(true), Ok(true));
    assert_eq!(with(Reflink::Always).try_reflink(false), Err(XcpError::ReflinkFailed));
    assert_eq!(with(Reflink::Never).try_reflink(true), Ok(false));
    assert_eq!(with(Reflink::Never).try_reflink(false), Ok(false));
}

#[test]
fn a_shared_copy_moves_no_bytes() {
    let (total, requests, reported) = run(&handle(10, config()), true, None, u64::MAX);
    assert_eq!(total, Ok(10));
    assert!(requests.is_empty() && reported.is_empty());
}

#[test]
fn a_demanded_share_that_fails_fails_the_copy() {
    let always = Config { reflink: Reflink::Always, ..config() };
    let (total, requests, _) = run(&handle(10, always), false, None, u64::MAX);
    assert_eq!(total, Err(XcpError::ReflinkFailed));
    assert!(requests.is_empty());
}

#[test]
fn a_plain_copy_asks_block_by_block() {
    let (total, requests, reported) = run(&handle(10, config()), false, None, u64::MAX);
    assert_eq!(total, Ok(10));
    assert_eq!(requests, vec![4, 4, 2]);
    assert_eq!(reported, vec![4, 4, 2]);
}

#[test]
fn short_copies_are_made_up_for() {
    let never = Config { reflink: Reflink::Never, ..config() };
    let (total, requests, reported) = run(&handle(10, never), false, None, 3);
    assert_eq!(total, Ok(10));
    assert_eq!(requests, vec![4, 4, 4, 1]);
    assert_eq!(reported, vec![3, 3, 3, 1]);
    assert_eq!(reported.iter().sum::<u64>(), 10);
}

#[test]
fn an_empty_file_needs_no_request() {
    let (total, requests, _) = run(&handle(0, config()), false, None, u64::MAX);
    assert_eq!(total, Ok(0));
    assert!(requests.is_empty());
}

#[test]
fn a_sparse_copy_skips_the_holes() {
    let segments = [(2, 8), (20, 21)];
    let (total, requests, reported) =
        run(&handle(30, config()), false, Some(&segments), u64::MAX);
    assert_eq!(total, Ok(30));
    assert_eq!(requests, vec![4, 2, 1]);
    assert_eq!(reported, vec![4, 2, 1]);
}

#[test]
fn an_empty_sparse_file_ends_at_once() {
    let (total, requests, _) = run(&handle(0, config()), false, Some(&[]), u64::MAX);
    assert_eq!(total, Ok(0));
    assert!(requests.is_empty());
}

#[test]
fn pieces_of_a_stretch() {
    let h = handle(10, config());
    assert_eq!(h.copy_bytes(Stretch { len: 10, written: 0 }), Some(4));
    assert_eq!(h.copy_bytes(Stretch { len: 10, written: 7 }), Some(3));
    assert_eq!(h.copy_bytes(Stretch { len: 10, written: 10 }), None);
    assert_eq!(h.copy_bytes(Stretch { len: 10, written: 11 }), None);
}

#[test]
fn sparse_copies_look_on_from_an_offset() {
    let h = handle(10, config());
    assert_eq!(h.copy_sparse(3), (CopyPhase::Seeking(3), CopyNext::NextSegment(3)));
    assert_eq!(h.copy_sparse(10), (CopyPhase::Done, CopyNext::Finished(10)));
}

#[test]
fn senseless_numbers_are_told_apart() {
    let seeking = CopyPhase::Seeking(0);
    assert!(!CopyHandle::is_sensible(seeking, CopyEvent::Segment(5, 4)));
    assert!(CopyHandle::is_sensible(seeking, CopyEvent::Segment(5, 5)));
    let whole = CopyPhase::Whole(Stretch { len: 9, written: 5 });
    assert!(!CopyHandle::is_sensible(whole, CopyEvent::Copied(u64::MAX - 4)));
    assert!(CopyHandle::is_sensible(whole, CopyEvent::Copied(u64::MAX - 5)));
}

#[test]
fn events_out_of_turn_leave_the_copy_where_it_is() {
    let h = handle(10, config());
    let (phase, next, progress) = h.copy_file(CopyPhase::Probing, CopyEvent::Copied(3));
    assert_eq!(phase, CopyPhase::Probing);
    assert_eq!(next, CopyNext::OutOfTurn);
    assert_eq!(progress, None);
    let (phase, next, _) = h.copy_file(CopyPhase::Done, CopyEvent::Begin);
    assert_eq!((phase, next), (CopyPhase::Done, CopyNext::OutOfTurn));
}

#[test]
fn what_is_carried_over_at_the_end() {
    let all = Config { ownership: true, fsync: true, ..config() };
    assert_eq!(
        handle(1, all).finalise_copy(),
        vec![FinalStep::Permissions, FinalStep::Timestamps, FinalStep::Owner, FinalStep::Sync]
    );
    assert_eq!(
        handle(1, config()).finalise_copy(),
        vec![FinalStep::Permissions, FinalStep::Timestamps]
    );
    let bare = Config { no_perms: true, no_timestamps: true, ..config() };
    assert!(handle(1, bare).finalise_copy().is_empty());
}

#[test]
fn only_a_failed_change_of_owner_is_let_pass() {
    assert!(FinalStep::Owner.may_fail());
    assert!(!FinalStep::Permissions.may_fail());
    assert!(!FinalStep::Timestamps.may_fail());
    assert!(!FinalStep::Sync.may_fail());
}
