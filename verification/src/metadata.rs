//! What the engine reads of a file's metadata.

use vstd::prelude::*;

use crate::config::Config;

verus! {

/// The permission bit that lets the owner write.
pub const OWNER_WRITE: u32 = 0x80;

/// The kinds of directory entries.
#[derive(Debug, Clone, Copy, PartialEq, Eq, Structural)]
pub enum FileType {
    File,
    Dir,
    Symlink,
    Socket,
    Fifo,
    Char,
    Block,
    Other,
}

/// The metadata of an entry itself, with no symlink followed.
#[derive(Debug, Clone, Copy, PartialEq, Eq, Structural)]
pub struct Metadata {
    /// The kind of entry.
    pub kind: FileType,
    /// The size in bytes.
    pub len: u64,
    /// The time of last change of the contents, in seconds.
    pub mtime: i64,
    /// The nanoseconds of that time.
    pub mtime_nsec: i64,
    /// The mode word: permissions and the bits of the kind.
    pub mode: u32,
    /// The owner.
    pub uid: u32,
    /// The group.
    pub gid: u32,
    /// The device that holds the inode.
    pub dev: u64,
    /// The inode number.
    pub ino: u64,
    /// The number of names of the inode.
    pub nlink: u64,
}

/// Whether a source file and an existing destination differ in size, in time
/// of change or, where permissions matter, in mode.
pub open spec fn differs(src: Metadata, dst: Metadata, config: Config) -> bool {
    ||| src.len != dst.len
    ||| src.mtime != dst.mtime
    ||| src.mtime_nsec != dst.mtime_nsec
    ||| !config.no_perms && src.mode != dst.mode
}

/// Whether the source file must be copied over an existing destination.
pub fn needs_copy(src: &Metadata, dst: &Metadata, config: &Config) -> (res: bool)
    ensures
        res == differs(*src, *dst, *config),
        !res ==> src.len == dst.len && src.mtime == dst.mtime && src.mtime_nsec == dst.mtime_nsec,
        !res ==> config.no_perms || src.mode == dst.mode,
{
    if src.len != dst.len {
        return true;
    }
    if src.mtime != dst.mtime || src.mtime_nsec != dst.mtime_nsec {
        return true;
    }
    if !config.no_perms && src.mode != dst.mode {
        return true;
    }
    false
}

/// A file is left as it is exactly when it agrees with the source in size, in
/// both parts of its time of change and, where permissions matter, in mode.
/// Nothing else of it counts, and which of the two is the source does not.
pub proof fn law_unchanged_files_agree(src: Metadata, dst: Metadata, config: Config)
    ensures
        !differs(src, dst, config) <==> {
            &&& src.len == dst.len
            &&& src.mtime == dst.mtime
            &&& src.mtime_nsec == dst.mtime_nsec
            &&& config.no_perms || src.mode == dst.mode
        },
        differs(src, dst, config) == differs(dst, src, config),
        !differs(src, src, config),
{
}

/// Whether the entry is a regular file that its owner may not write.
pub open spec fn locked(meta: Metadata) -> bool {
    meta.kind == FileType::File && meta.mode & OWNER_WRITE == 0
}

/// The mode with the owner's write permission added.
pub open spec fn unlocked_mode(mode: u32) -> u32 {
    mode | OWNER_WRITE
}

/// The mode that lets the owner write a file that is locked; nothing for any
/// other entry.
pub fn unlock(meta: &Metadata) -> (res: Option<u32>)
    ensures
        res == (if locked(*meta) {
            Some(unlocked_mode(meta.mode))
        } else {
            None
        }),
{
    if meta.kind == FileType::File && meta.mode & OWNER_WRITE == 0 {
        Some(meta.mode | OWNER_WRITE)
    } else {
        None
    }
}

/// Adding the owner's write permission sets that bit and no other.
pub proof fn law_unlock_adds_one_bit(mode: u32)
    ensures
        unlocked_mode(mode) & OWNER_WRITE != 0,
        unlocked_mode(mode) & !OWNER_WRITE == mode & !OWNER_WRITE,
{
    assert((mode | 0x80) & 0x80 != 0) by (bit_vector);
    assert((mode | 0x80) & !0x80u32 == mode & !0x80u32) by (bit_vector);
}

/// A regular file is locked exactly when it lacks the permission that is
/// written `u+w`; nothing else ever is.
pub proof fn law_locked_files_lack_owner_write(meta: Metadata)
    ensures
        locked(meta) <==> meta.kind == FileType::File && meta.mode & 0x80 == 0,
        meta.mode & 0x80 != 0 ==> unlocked_mode(meta.mode) == meta.mode,
{
    let mode = meta.mode;
    assert(mode & 0x80 != 0 ==> mode | 0x80 == mode) by (bit_vector);
}

/// One number for a device and an inode on it.
pub open spec fn inode_key(dev: u64, ino: u64) -> u128 {
    (dev * 0x1_0000_0000_0000_0000 + ino) as u128
}

/// The number that stands for the inode of `meta`.
pub fn inode_key_of(meta: &Metadata) -> (res: u128)
    ensures
        res == inode_key(meta.dev, meta.ino),
{
    meta.dev as u128 * 0x1_0000_0000_0000_0000u128 + meta.ino as u128
}

/// Two entries have the same number exactly when they are one inode.
pub proof fn law_inode_key_is_exact(dev: u64, ino: u64, other_dev: u64, other_ino: u64)
    ensures
        inode_key(dev, ino) == inode_key(other_dev, other_ino) <==> dev == other_dev && ino
            == other_ino,
{
}

} // verus!
