use libxcp::checksum::{checksum_outcome, compute_blake3, same_digest, DigestStep, FileDigest};
use libxcp::metadata::{FileType, Metadata};
use libxcp::path::PathBuf;
use libxcp::protocol::{Candidate, Command, Notice, Operation};

fn p(text: &str) -> PathBuf {
    PathBuf::from_bytes(text.as_bytes().to_vec())
}

fn candidate() -> Candidate {
    Candidate { from: p("s/a"), target: p("d/a"), len: 7 }
}

/// The digest of some data that is read in pieces of at most `piece` bytes.
fn digest(data: &[u8], piece: usize) -> [u8; 32] {
    let mut state = FileDigest::new();
    let mut buf = vec![0xffu8; piece + 3];
    let mut read = 0;
    loop {
        let n = piece.min(data.len() - read);
        buf[..n].copy_from_slice(&data[read..read + n]);
        read += n;
        match compute_blake3(state, &buf, n) {
            DigestStep::Reading(next) => {
                assert_eq!(next.count(), read as u64);
                state = next;
            }
            DigestStep::Done(hash) => return hash,
        }
    }
}

fn hex(hash: &[u8; 32]) -> String {
    hash.iter().map(|b| format!("{b:02x}")).collect()
}

#[test]
fn the_digest_of_nothing() {
    assert_eq!(
        hex(&digest(b"", 16)),
        "af1349b9f5f9a1a6a0404dea36dcc9499bcb25c9adc112b7cc9a93cae41f3262"
    );
}

#[test]
fn the_digest_of_a_short_text() {
    assert_eq!(
        hex(&digest(b"abc", 16)),
        "6437b3ac38465133ffb63b75273a8db548c558465d79db03fd359c6cd5bd9d85"
    );
}

#[test]
fn the_pieces_of_a_file_do_not_matter() {
    let data: Vec<u8> = (0..70_000u32).map(|i| (i % 251) as u8).collect();
    let whole = digest(&data, 100_000);
    assert_eq!(digest(&data, 1), whole);
    assert_eq!(digest(&data, 1000), whole);
    assert_eq!(digest(&data, 65_536), whole);
    assert_eq!(&whole, blake3::hash(&data).as_bytes());
}

#[test]
fn different_contents_have_different_digests() {
    assert!(!same_digest(&digest(b"abc", 4), &digest(b"abd", 4)));
    assert!(same_digest(&digest(b"abc", 4), &digest(b"abc", 1)));
}

#[test]
fn digests_are_compared_to_the_last_byte() {
    let mut other = [7u8; 32];
    assert!(same_digest(&[7; 32], &other));
    other[31] = 8;
    assert!(!same_digest(&[7; 32], &other));
}

#[test]
fn differing_files_are_copied() {
    let commands = checksum_outcome(candidate(), None, &[1; 32], &[2; 32], false, true);
    assert_eq!(
        commands,
        vec![Command::Size(7), Command::Send(Operation::Copy(p("s/a"), p("d/a")))]
    );
}

#[test]
fn a_locked_target_is_unlocked_before_it_is_copied_over() {
    let meta = Metadata {
        kind: FileType::File,
        len: 7,
        mtime: 0,
        mtime_nsec: 0,
        mode: 0o100444,
        uid: 0,
        gid: 0,
        dev: 0,
        ino: 0,
        nlink: 1,
    };
    let commands = checksum_outcome(candidate(), Some(meta), &[1; 32], &[2; 32], false, true);
    assert_eq!(
        commands,
        vec![
            Command::SetMode(p("d/a"), 0o100644),
            Command::Size(7),
            Command::Send(Operation::Copy(p("s/a"), p("d/a")))
        ]
    );
    let dry = checksum_outcome(candidate(), Some(meta), &[1; 32], &[2; 32], true, true);
    assert_eq!(dry, vec![Command::Notice(Notice::CopyDiffering(p("s/a"), p("d/a")))]);
}

#[test]
fn a_dry_run_says_which_files_differ() {
    let commands = checksum_outcome(candidate(), None, &[1; 32], &[2; 32], true, true);
    assert_eq!(commands, vec![Command::Notice(Notice::CopyDiffering(p("s/a"), p("d/a")))]);
    assert!(checksum_outcome(candidate(), None, &[1; 32], &[1; 32], true, true).is_empty());
}

#[test]
fn agreeing_files_have_at_most_their_attributes_mirrored() {
    let commands = checksum_outcome(candidate(), None, &[1; 32], &[1; 32], false, true);
    assert_eq!(commands, vec![Command::SyncXattrs(p("s/a"), p("d/a"))]);
    assert!(checksum_outcome(candidate(), None, &[1; 32], &[1; 32], false, false).is_empty());
}

#[test]
fn the_order_of_comparing_does_not_matter() {
    let names = ["a", "b", "c"];
    let outcome = |order: [usize; 3]| {
        let mut lines: Vec<String> = Vec::new();
        for i in order {
            let c = Candidate {
                from: p(&format!("s/{}", names[i])),
                target: p(&format!("d/{}", names[i])),
                len: i as u64,
            };
            let other = if i == 1 { [1; 32] } else { [2; 32] };
            for command in checksum_outcome(c, None, &[1; 32], &other, false, true) {
                lines.push(format!("{command:?}"));
            }
        }
        lines.sort();
        lines
    };
    assert_eq!(outcome([0, 1, 2]).len(), 5);
    assert_eq!(outcome([0, 1, 2]), outcome([2, 1, 0]));
    assert_eq!(outcome([0, 1, 2]), outcome([1, 2, 0]));
}
