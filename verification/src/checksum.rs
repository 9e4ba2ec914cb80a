//! Comparing files by content.

use vstd::prelude::*;
use vstd::seq_lib::lemma_multiset_commutative;

use crate::metadata::Metadata;
use crate::protocol::{
    add_command, add_unlocking, commands_of, given, no_commands, unlocking, Candidate, Command,
    Notice, Operation,
};

verus! {

/// The incremental hasher of the `blake3` crate.
#[verifier::external_type_specification]
#[verifier::external_body]
pub struct ExHasher(blake3::Hasher);

/// The bytes that a hasher has been given so far.
pub uninterp spec fn hasher_input(hasher: blake3::Hasher) -> Seq<u8>;

/// Whether a hasher computes the plain hash: it was made by
/// `blake3::Hasher::new`, with no key, context or input offset.
pub uninterp spec fn hasher_is_plain(hasher: blake3::Hasher) -> bool;

/// The BLAKE3 hash of a byte string.
pub uninterp spec fn blake3_digest(data: Seq<u8>) -> Seq<u8>;

/// Calls `blake3::Hasher::new`. The new hasher computes the plain hash and
/// has been given nothing yet.
#[verifier::external_body]
fn new_hasher() -> (res: blake3::Hasher)
    ensures
        hasher_is_plain(res),
        hasher_input(res) == Seq::<u8>::empty(),
{
    blake3::Hasher::new()
}

/// Calls `blake3::Hasher::update`, which adds the data to what the hasher has
/// been given and leaves the way it hashes alone. The length of the whole
/// input must fit in 64 bits, as the hasher's counters do.
#[verifier::external_body]
fn update_hasher(hasher: &mut blake3::Hasher, data: &[u8])
    requires
        hasher_is_plain(*old(hasher)),
        hasher_input(*old(hasher)).len() + data@.len() <= u64::MAX,
    ensures
        hasher_is_plain(*final(hasher)),
        hasher_input(*final(hasher)) == hasher_input(*old(hasher)) + data@,
{
    hasher.update(data);
}

/// Calls `blake3::Hasher::finalize`. What comes out is the hash of all that
/// the hasher has been given, however it was cut into pieces.
#[verifier::external_body]
fn finalize_hasher(hasher: &blake3::Hasher) -> (res: [u8; 32])
    requires
        hasher_is_plain(*hasher),
    ensures
        res@ == blake3_digest(hasher_input(*hasher)),
{
    *hasher.finalize().as_bytes()
}

/// The digest of a file whose reading is under way.
pub struct FileDigest {
    hasher: blake3::Hasher,
    count: u64,
}

impl View for FileDigest {
    type V = Seq<u8>;

    /// The bytes read so far.
    closed spec fn view(&self) -> Seq<u8> {
        hasher_input(self.hasher)
    }
}

/// What follows a read of a file.
pub enum DigestStep {
    /// Read on.
    Reading(FileDigest),
    /// The file is at its end; this is its digest.
    Done([u8; 32]),
}

impl FileDigest {
    #[verifier::type_invariant]
    spec fn counted(self) -> bool {
        &&& hasher_is_plain(self.hasher)
        &&& hasher_input(self.hasher).len() == self.count
    }

    /// The digest of a file of which nothing has been read.
    pub fn new() -> (res: FileDigest)
        ensures
            res@ == Seq::<u8>::empty(),
    {
        FileDigest { hasher: new_hasher(), count: 0 }
    }

    /// How many bytes have been read.
    pub fn count(&self) -> (res: u64)
        ensures
            res == self@.len(),
    {
        proof {
            use_type_invariant(self);
        }
        self.count
    }
}

/// Takes the first `n` bytes of `buf` as the outcome of a read. A read of
/// nothing means the end of the file.
pub fn compute_blake3(digest: FileDigest, buf: &Vec<u8>, n: usize) -> (res: DigestStep)
    requires
        n <= buf.len(),
        digest@.len() + n <= u64::MAX,
    ensures
        match res {
            DigestStep::Reading(next) => n > 0 && next@ == digest@ + buf@.take(n as int),
            DigestStep::Done(hash) => n == 0 && hash@ == blake3_digest(digest@),
        },
{
    proof {
        use_type_invariant(&digest);
    }
    let FileDigest { hasher, count } = digest;
    if n == 0 {
        return DigestStep::Done(finalize_hasher(&hasher));
    }
    let mut hasher = hasher;
    let data = &buf.as_slice()[0..n];
    assert(data@ =~= buf@.take(n as int));
    update_hasher(&mut hasher, data);
    DigestStep::Reading(FileDigest { hasher, count: count + n as u64 })
}

/// Whether two digests agree.
pub fn same_digest(a: &[u8; 32], b: &[u8; 32]) -> (res: bool)
    ensures
        res == (a@ == b@),
{
    let mut i: usize = 0;
    while i < 32
        invariant
            i <= 32,
            forall|j: int| 0 <= j < i ==> a@[j] == b@[j],
        decreases 32 - i,
    {
        if a[i] != b[i] {
            return false;
        }
        i = i + 1;
    }
    assert(a@ =~= b@);
    true
}

/// What is done with two files of the same metadata once their contents are
/// compared: those that differ are copied, over a target that is made
/// writable first, and those that agree have at most their extended
/// attributes mirrored.
pub open spec fn compared(
    c: Candidate<Seq<u8>>,
    found: Option<Metadata>,
    same: bool,
    dry_run: bool,
    copy_xattrs: bool,
) -> Seq<Command<Seq<u8>>> {
    if same {
        given(!dry_run && copy_xattrs, seq![Command::SyncXattrs(c.from, c.target)])
    } else if dry_run {
        seq![Command::Notice(Notice::CopyDiffering(c.from, c.target))]
    } else {
        unlocking(c.target, found) + seq![
            Command::Size(c.len),
            Command::Send(Operation::Copy(c.from, c.target)),
        ]
    }
}

/// What is done with two files of the same metadata, given what stands at the
/// target and the digests of both.
pub fn checksum_outcome(
    c: Candidate,
    found: Option<Metadata>,
    src_hash: &[u8; 32],
    dst_hash: &[u8; 32],
    dry_run: bool,
    copy_xattrs: bool,
) -> (res: Vec<Command>)
    ensures
        commands_of(res@) == compared(c@, found, src_hash@ == dst_hash@, dry_run, copy_xattrs),
{
    let mut commands = no_commands();
    if !same_digest(src_hash, dst_hash) {
        if dry_run {
            add_command(&mut commands, Command::Notice(Notice::CopyDiffering(c.from, c.target)));
        } else {
            add_unlocking(&mut commands, &c.target, found);
            add_command(&mut commands, Command::Size(c.len));
            add_command(&mut commands, Command::Send(Operation::Copy(c.from, c.target)));
        }
    } else if !dry_run && copy_xattrs {
        add_command(&mut commands, Command::SyncXattrs(c.from, c.target));
    }
    assert(commands_of(commands@) =~= compared(
        c@,
        found,
        src_hash@ == dst_hash@,
        dry_run,
        copy_xattrs,
    ));
    commands
}

/// What is done with a list of files, given of each what stands at its target
/// and whether the contents are the same.
pub open spec fn all_compared(
    list: Seq<Candidate<Seq<u8>>>,
    verdict: spec_fn(Candidate<Seq<u8>>) -> (Option<Metadata>, bool),
    dry_run: bool,
    copy_xattrs: bool,
) -> Seq<Command<Seq<u8>>>
    decreases list.len(),
{
    if list.len() == 0 {
        seq![]
    } else {
        let c = list.last();
        all_compared(list.drop_last(), verdict, dry_run, copy_xattrs) + compared(
            c,
            verdict(c).0,
            verdict(c).1,
            dry_run,
            copy_xattrs,
        )
    }
}

/// What is done with a list is what is done with one of its files and what is
/// done with the others.
proof fn lemma_one_set_aside(
    list: Seq<Candidate<Seq<u8>>>,
    verdict: spec_fn(Candidate<Seq<u8>>) -> (Option<Metadata>, bool),
    dry_run: bool,
    copy_xattrs: bool,
    i: int,
)
    requires
        0 <= i < list.len(),
    ensures
        all_compared(list, verdict, dry_run, copy_xattrs).to_multiset() == all_compared(
            list.remove(i),
            verdict,
            dry_run,
            copy_xattrs,
        ).to_multiset().add(
            compared(
                list[i],
                verdict(list[i]).0,
                verdict(list[i]).1,
                dry_run,
                copy_xattrs,
            ).to_multiset(),
        ),
    decreases list.len(),
{
    let last = list.last();
    let front = list.drop_last();
    let ends = compared(last, verdict(last).0, verdict(last).1, dry_run, copy_xattrs);
    lemma_multiset_commutative(all_compared(front, verdict, dry_run, copy_xattrs), ends);
    if i == list.len() - 1 {
        assert(list.remove(i) =~= front);
    } else {
        let others = front.remove(i);
        lemma_one_set_aside(front, verdict, dry_run, copy_xattrs, i);
        assert(front[i] == list[i]);
        assert(list.remove(i).drop_last() =~= others);
        assert(list.remove(i).last() == last);
        lemma_multiset_commutative(all_compared(others, verdict, dry_run, copy_xattrs), ends);
        let a = all_compared(others, verdict, dry_run, copy_xattrs).to_multiset();
        let b = compared(
            list[i],
            verdict(list[i]).0,
            verdict(list[i]).1,
            dry_run,
            copy_xattrs,
        ).to_multiset();
        assert(a.add(b).add(ends.to_multiset()) =~= a.add(ends.to_multiset()).add(b));
    }
}

/// The order in which files are compared does not matter: the same files, with
/// the same outcomes, lead to the same orders.
pub proof fn law_order_of_comparing_does_not_matter(
    a: Seq<Candidate<Seq<u8>>>,
    b: Seq<Candidate<Seq<u8>>>,
    verdict: spec_fn(Candidate<Seq<u8>>) -> (Option<Metadata>, bool),
    dry_run: bool,
    copy_xattrs: bool,
)
    requires
        a.to_multiset() == b.to_multiset(),
    ensures
        all_compared(a, verdict, dry_run, copy_xattrs).to_multiset() == all_compared(
            b,
            verdict,
            dry_run,
            copy_xattrs,
        ).to_multiset(),
    decreases a.len(),
{
    a.to_multiset_ensures();
    b.to_multiset_ensures();
    if a.len() > 0 {
        let last = a.len() - 1;
        assert(a.contains(a[last]));
        assert(b.to_multiset().count(a[last]) > 0);
        let i = b.index_of(a[last]);
        assert(b[i] == a[last]);
        assert(a.remove(last).to_multiset() == b.remove(i).to_multiset());
        law_order_of_comparing_does_not_matter(
            a.remove(last),
            b.remove(i),
            verdict,
            dry_run,
            copy_xattrs,
        );
        lemma_one_set_aside(a, verdict, dry_run, copy_xattrs, last);
        lemma_one_set_aside(b, verdict, dry_run, copy_xattrs, i);
    }
}

/// What the comparison of two files leads to. Contents that differ are copied,
/// the size announced before, or announced by a dry run; those that agree are
/// never copied, and have their extended attributes mirrored where that is
/// asked for.
pub proof fn law_comparison_decides(
    c: Candidate<Seq<u8>>,
    found: Option<Metadata>,
    same: bool,
    dry_run: bool,
    copy_xattrs: bool,
)
    ensures
        ({
            let commands = compared(c, found, same, dry_run, copy_xattrs);
            let n = commands.len();
            &&& dry_run && !same ==> commands == seq![
                Command::Notice(Notice::CopyDiffering(c.from, c.target)),
            ]
            &&& dry_run && same ==> n == 0
            &&& !dry_run && same ==> n == (if copy_xattrs {
                1int
            } else {
                0int
            })
            &&& !dry_run && same && copy_xattrs ==> commands[0] == Command::SyncXattrs(
                c.from,
                c.target,
            )
            &&& !dry_run && !same ==> {
                &&& n >= 2
                &&& commands[n - 2] == Command::<Seq<u8>>::Size(c.len)
                &&& commands[n - 1] == Command::Send(Operation::Copy(c.from, c.target))
                &&& n > 2 ==> n == 3 && found is Some && commands[0] == Command::SetMode(
                    c.target,
                    found->0.mode | 0x80,
                )
            }
        }),
{
}

} // verus!
