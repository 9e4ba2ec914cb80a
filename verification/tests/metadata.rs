use libxcp::config::{Config, Reflink};
use libxcp::metadata::{inode_key_of, needs_copy, unlock, FileType, Metadata};

fn config() -> Config {
    Config {
        block_size: 1024,
        reflink: Reflink::Auto,
        no_perms: false,
        no_timestamps: false,
        ownership: false,
        fsync: false,
        no_target_directory: false,
        dereference: false,
        no_clobber: false,
        copy_special: false,
        dry_run: false,
        copy_xattrs: false,
        preserve_hardlinks: false,
        checksum: false,
    }
}

fn file() -> Metadata {
    Metadata {
        kind: FileType::File,
        len: 10,
        mtime: 1_700_000_000,
        mtime_nsec: 5,
        mode: 0o100644,
        uid: 1,
        gid: 2,
        dev: 3,
        ino: 4,
        nlink: 1,
    }
}

#[test]
fn equal_metadata_needs_no_copy() {
    assert!(!needs_copy(&file(), &file(), &config()));
}

#[test]
fn owner_device_and_inode_do_not_matter() {
    let other = Metadata { uid: 9, gid: 9, dev: 9, ino: 9, nlink: 9, ..file() };
    assert!(!needs_copy(&file(), &other, &config()));
}

#[test]
fn size_needs_copy() {
    assert!(needs_copy(&file(), &Metadata { len: 11, ..file() }, &config()));
}

#[test]
fn seconds_and_nanoseconds_need_copy() {
    assert!(needs_copy(&file(), &Metadata { mtime: 1, ..file() }, &config()));
    assert!(needs_copy(&file(), &Metadata { mtime_nsec: 6, ..file() }, &config()));
    let lax = Config { no_timestamps: true, ..config() };
    assert!(needs_copy(&file(), &Metadata { mtime: 1, ..file() }, &lax));
}

#[test]
fn permissions_need_copy_unless_they_are_left_alone() {
    let other = Metadata { mode: 0o100600, ..file() };
    assert!(needs_copy(&file(), &other, &config()));
    assert!(!needs_copy(&file(), &other, &Config { no_perms: true, ..config() }));
}

#[test]
fn locked_files_get_the_owner_write_bit() {
    assert_eq!(unlock(&Metadata { mode: 0o100444, ..file() }), Some(0o100644));
    assert_eq!(unlock(&Metadata { mode: 0o100000, ..file() }), Some(0o100200));
    assert_eq!(unlock(&Metadata { mode: 0o100200, ..file() }), None);
    assert_eq!(unlock(&file()), None);
}

#[test]
fn only_files_are_unlocked() {
    let dir = Metadata { kind: FileType::Dir, mode: 0o040555, ..file() };
    assert_eq!(unlock(&dir), None);
}

#[test]
fn inode_keys_tell_devices_and_inodes_apart() {
    let key = |dev, ino| inode_key_of(&Metadata { dev, ino, ..file() });
    assert_eq!(key(1, 2), (1u128 << 64) + 2);
    assert_ne!(key(1, 2), key(2, 1));
    assert_eq!(key(u64::MAX, u64::MAX), u128::MAX);
}
