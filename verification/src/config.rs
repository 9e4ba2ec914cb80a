//! The options that steer a copy or a mirror.

use vstd::prelude::*;

verus! {

/// Whether a copy shares the source's blocks where the file system can.
#[derive(Debug, Clone, Copy, PartialEq, Eq, Structural)]
pub enum Reflink {
    /// Share them, or fail.
    Always,
    /// Share them where it works, copy where it does not.
    Auto,
    /// Copy.
    Never,
}

/// The options of one run.
#[derive(Debug, Clone, Copy, PartialEq, Eq, Structural)]
pub struct Config {
    /// The largest number of bytes to copy in one request.
    pub block_size: u64,
    /// Whether to share blocks.
    pub reflink: Reflink,
    /// Leave permissions alone.
    pub no_perms: bool,
    /// Leave timestamps alone.
    pub no_timestamps: bool,
    /// Copy owner and group.
    pub ownership: bool,
    /// Flush each copied file to disk.
    pub fsync: bool,
    /// Never copy a source into an existing directory under its own name.
    pub no_target_directory: bool,
    /// Copy what a symlink leads to, in place of the link.
    pub dereference: bool,
    /// Stop rather than write over something.
    pub no_clobber: bool,
    /// Copy special files.
    pub copy_special: bool,
    /// Only say what would be done.
    pub dry_run: bool,
    /// Mirror extended attributes of unchanged entries too.
    pub copy_xattrs: bool,
    /// Mirror which files share an inode.
    pub preserve_hardlinks: bool,
    /// Compare contents where the metadata agrees.
    pub checksum: bool,
}

} // verus!
