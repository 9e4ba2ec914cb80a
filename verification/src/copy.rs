//! Copying one file: in which pieces, and what is carried over at the end.

use vstd::prelude::*;

use crate::config::{Config, Reflink};
use crate::error::XcpError;
use crate::metadata::Metadata;
use crate::path::PathBuf;
use crate::protocol::{add_command, commands_of, no_commands, Command};

verus! {

/// A file that is being copied.
#[derive(Debug, Clone, Copy)]
pub struct CopyHandle {
    /// The metadata of the source.
    pub metadata: Metadata,
    /// How to copy.
    pub config: Config,
}

/// A stretch of bytes that is being copied.
#[derive(Debug, Clone, Copy, PartialEq, Eq, Structural)]
pub struct Stretch {
    /// How many bytes it has.
    pub len: u64,
    /// How many have been copied.
    pub written: u64,
}

/// What the copy waits for.
#[derive(Debug, Clone, Copy, PartialEq, Eq, Structural)]
pub enum CopyPhase {
    /// The start of the copy.
    Ready,
    /// Whether the blocks could be shared.
    Reflinking,
    /// Whether the source looks sparse.
    Probing,
    /// The next piece of the whole file.
    Whole(Stretch),
    /// The next stretch of data from the given offset on.
    Seeking(u64),
    /// The next piece of a stretch that ends at the given offset.
    Data(Stretch, u64),
    /// Nothing: the copy is over.
    Done,
}

/// What the driver hands back.
#[derive(Debug, Clone, Copy, PartialEq, Eq, Structural)]
pub enum CopyEvent {
    /// The copy begins.
    Begin,
    /// The answer to `Reflink`.
    Reflinked(bool),
    /// The answer to `ProbeSparse`.
    Sparse(bool),
    /// The answer to `NextSegment`: where data starts and where it ends.
    Segment(u64, u64),
    /// The answer to `CopyBytes`: how many bytes were copied.
    Copied(u64),
}

/// What comes next.
#[derive(Debug, PartialEq, Eq)]
pub enum CopyNext<P = PathBuf> {
    /// Try to share the source's blocks.
    Reflink,
    /// See whether the source looks sparse.
    ProbeSparse,
    /// Move both files to the next data at or after the offset.
    NextSegment(u64),
    /// Copy at most so many bytes from where both files stand.
    CopyBytes(u64),
    /// The copy is complete, with that many bytes.
    Finished(u64),
    /// The copy ends with an error.
    Failed(XcpError<P>),
    /// The event does not answer what was asked; nothing was done.
    OutOfTurn,
}

impl View for CopyNext<PathBuf> {
    type V = CopyNext<Seq<u8>>;

    open spec fn view(&self) -> CopyNext<Seq<u8>> {
        match self {
            CopyNext::Reflink => CopyNext::Reflink,
            CopyNext::ProbeSparse => CopyNext::ProbeSparse,
            CopyNext::NextSegment(pos) => CopyNext::NextSegment(*pos),
            CopyNext::CopyBytes(n) => CopyNext::CopyBytes(*n),
            CopyNext::Finished(n) => CopyNext::Finished(*n),
            CopyNext::Failed(e) => CopyNext::Failed(e@),
            CopyNext::OutOfTurn => CopyNext::OutOfTurn,
        }
    }
}

/// What is carried over from the source once its bytes are copied.
#[derive(Debug, Clone, Copy, PartialEq, Eq, Structural)]
pub enum FinalStep {
    /// Permissions.
    Permissions,
    /// Timestamps.
    Timestamps,
    /// Owner and group; a failure is logged and no more.
    Owner,
    /// The copy itself, to disk.
    Sync,
}

/// What an attempt to share blocks means: whether the copy is made, or the
/// error where sharing was demanded.
pub open spec fn reflink_outcome(reflink: Reflink, worked: bool) -> Result<
    bool,
    XcpError<Seq<u8>>,
> {
    match reflink {
        Reflink::Never => Ok(false),
        Reflink::Auto => Ok(worked),
        Reflink::Always => if worked {
            Ok(true)
        } else {
            Err(XcpError::ReflinkFailed)
        },
    }
}

/// How many bytes of a stretch to ask for next; nothing at its end.
pub open spec fn next_piece(stretch: Stretch, block_size: u64) -> Option<u64> {
    if stretch.written < stretch.len {
        let left = (stretch.len - stretch.written) as u64;
        Some(
            if left < block_size {
                left
            } else {
                block_size
            },
        )
    } else {
        None
    }
}

/// Looks for data from an offset on, or ends the copy there.
pub open spec fn seek_step(h: CopyHandle, pos: u64) -> (CopyPhase, CopyNext<Seq<u8>>) {
    if pos < h.metadata.len {
        (CopyPhase::Seeking(pos), CopyNext::NextSegment(pos))
    } else {
        (CopyPhase::Done, CopyNext::Finished(h.metadata.len))
    }
}

/// Goes on with a stretch that ends at an offset.
pub open spec fn data_step(h: CopyHandle, stretch: Stretch, end: u64) -> (
    CopyPhase,
    CopyNext<Seq<u8>>,
) {
    match next_piece(stretch, h.config.block_size) {
        Some(n) => (CopyPhase::Data(stretch, end), CopyNext::CopyBytes(n)),
        None => seek_step(h, end),
    }
}

/// Goes on with the whole file.
pub open spec fn whole_step(h: CopyHandle, stretch: Stretch) -> (CopyPhase, CopyNext<Seq<u8>>) {
    match next_piece(stretch, h.config.block_size) {
        Some(n) => (CopyPhase::Whole(stretch), CopyNext::CopyBytes(n)),
        None => (CopyPhase::Done, CopyNext::Finished(stretch.written)),
    }
}

/// A stretch of which more has been copied.
pub open spec fn extended(stretch: Stretch, n: u64) -> Stretch {
    Stretch { len: stretch.len, written: (stretch.written + n) as u64 }
}

/// Whether the numbers of an event make sense: a stretch of data does not end
/// before it starts, and what has been copied can still be counted.
pub open spec fn sensible(phase: CopyPhase, event: CopyEvent) -> bool {
    match (phase, event) {
        (CopyPhase::Seeking(_), CopyEvent::Segment(start, end)) => start <= end,
        (CopyPhase::Whole(stretch), CopyEvent::Copied(n)) => stretch.written + n <= u64::MAX,
        (CopyPhase::Data(stretch, _), CopyEvent::Copied(n)) => stretch.written + n <= u64::MAX,
        _ => true,
    }
}

/// What the copy does on an event.
pub open spec fn copy_step(h: CopyHandle, phase: CopyPhase, event: CopyEvent) -> (
    CopyPhase,
    CopyNext<Seq<u8>>,
) {
    match (phase, event) {
        (CopyPhase::Ready, CopyEvent::Begin) => if h.config.reflink == Reflink::Never {
            (CopyPhase::Probing, CopyNext::ProbeSparse)
        } else {
            (CopyPhase::Reflinking, CopyNext::Reflink)
        },
        (CopyPhase::Reflinking, CopyEvent::Reflinked(worked)) => match reflink_outcome(
            h.config.reflink,
            worked,
        ) {
            Ok(true) => (CopyPhase::Done, CopyNext::Finished(h.metadata.len)),
            Ok(false) => (CopyPhase::Probing, CopyNext::ProbeSparse),
            Err(e) => (CopyPhase::Done, CopyNext::Failed(e)),
        },
        (CopyPhase::Probing, CopyEvent::Sparse(sparse)) => if sparse {
            seek_step(h, 0)
        } else {
            whole_step(h, Stretch { len: h.metadata.len, written: 0 })
        },
        (CopyPhase::Seeking(_), CopyEvent::Segment(start, end)) => data_step(
            h,
            Stretch { len: (end - start) as u64, written: 0 },
            end,
        ),
        (CopyPhase::Whole(stretch), CopyEvent::Copied(n)) => whole_step(h, extended(stretch, n)),
        (CopyPhase::Data(stretch, end), CopyEvent::Copied(n)) => data_step(
            h,
            extended(stretch, n),
            end,
        ),
        _ => (phase, CopyNext::OutOfTurn),
    }
}

/// The progress to report on an event: the bytes that were copied.
pub open spec fn progress(phase: CopyPhase, event: CopyEvent) -> Option<u64> {
    match (phase, event) {
        (CopyPhase::Whole(_), CopyEvent::Copied(n)) => Some(n),
        (CopyPhase::Data(_, _), CopyEvent::Copied(n)) => Some(n),
        _ => None,
    }
}

/// What is carried over at the end of a copy, in order.
pub open spec fn final_steps(config: Config) -> Seq<FinalStep> {
    (if config.no_perms {
        seq![]
    } else {
        seq![FinalStep::Permissions]
    }) + (if config.no_timestamps {
        seq![]
    } else {
        seq![FinalStep::Timestamps]
    }) + (if config.ownership {
        seq![FinalStep::Owner]
    } else {
        seq![]
    }) + (if config.fsync {
        seq![FinalStep::Sync]
    } else {
        seq![]
    })
}

/// What opens a file to write: a file that has to be kept is renamed to its
/// backup first.
pub open spec fn opening_commands(to: PathBuf, backup: Option<PathBuf>, len: u64) -> Seq<
    Command<Seq<u8>>,
> {
    (match backup {
        Some(kept) => seq![Command::Rename(to@, kept@)],
        None => seq![],
    }) + seq![Command::CreateFile(to@), Command::Allocate(len)]
}

impl CopyHandle {
    /// The handle of a copy, and what opens the file to write. A file that
    /// has to be kept is renamed to its backup first.
    pub fn new(to: PathBuf, metadata: Metadata, config: Config, backup: Option<PathBuf>) -> (res: (
        CopyHandle,
        Vec<Command>,
    ))
        ensures
            res.0 == (CopyHandle { metadata, config }),
            commands_of(res.1@) == opening_commands(to, backup, metadata.len),
    {
        let mut commands = no_commands();
        match backup {
            Some(kept) => {
                add_command(&mut commands, Command::Rename(to.clone(), kept));
            },
            None => {},
        }
        add_command(&mut commands, Command::CreateFile(to));
        add_command(&mut commands, Command::Allocate(metadata.len));
        assert(commands_of(commands@) =~= opening_commands(to, backup, metadata.len));
        (CopyHandle { metadata, config }, commands)
    }

    /// What an attempt to share blocks means: whether the copy is made, or
    /// the error where sharing was demanded.
    pub fn try_reflink(&self, worked: bool) -> (res: Result<bool, XcpError>)
        ensures
            match res {
                Ok(made) => reflink_outcome(self.config.reflink, worked) == Ok::<
                    bool,
                    XcpError<Seq<u8>>,
                >(made),
                Err(e) => reflink_outcome(self.config.reflink, worked) == Err::<
                    bool,
                    XcpError<Seq<u8>>,
                >(e@),
            },
    {
        match self.config.reflink {
            Reflink::Always | Reflink::Auto => {
                if worked {
                    Ok(true)
                } else if self.config.reflink == Reflink::Always {
                    Err(XcpError::ReflinkFailed)
                } else {
                    Ok(false)
                }
            },
            Reflink::Never => Ok(false),
        }
    }

    /// How many bytes of a stretch to ask for next; nothing at its end.
    pub fn copy_bytes(&self, stretch: Stretch) -> (res: Option<u64>)
        ensures
            res == next_piece(stretch, self.config.block_size),
    {
        if stretch.written < stretch.len {
            let left = stretch.len - stretch.written;
            if left < self.config.block_size {
                Some(left)
            } else {
                Some(self.config.block_size)
            }
        } else {
            None
        }
    }

    /// Looks for data from an offset on, or ends the copy there.
    pub fn copy_sparse(&self, pos: u64) -> (res: (CopyPhase, CopyNext))
        ensures
            (res.0, res.1@) == seek_step(*self, pos),
    {
        if pos < self.metadata.len {
            (CopyPhase::Seeking(pos), CopyNext::NextSegment(pos))
        } else {
            (CopyPhase::Done, CopyNext::Finished(self.metadata.len))
        }
    }

    fn copy_data(&self, stretch: Stretch, end: u64) -> (res: (CopyPhase, CopyNext))
        ensures
            (res.0, res.1@) == data_step(*self, stretch, end),
    {
        match self.copy_bytes(stretch) {
            Some(n) => (CopyPhase::Data(stretch, end), CopyNext::CopyBytes(n)),
            None => self.copy_sparse(end),
        }
    }

    fn copy_whole(&self, stretch: Stretch) -> (res: (CopyPhase, CopyNext))
        ensures
            (res.0, res.1@) == whole_step(*self, stretch),
    {
        match self.copy_bytes(stretch) {
            Some(n) => (CopyPhase::Whole(stretch), CopyNext::CopyBytes(n)),
            None => (CopyPhase::Done, CopyNext::Finished(stretch.written)),
        }
    }

    /// Whether the numbers of an event make sense where the copy stands.
    pub fn is_sensible(phase: CopyPhase, event: CopyEvent) -> (res: bool)
        ensures
            res == sensible(phase, event),
    {
        match (phase, event) {
            (CopyPhase::Seeking(_), CopyEvent::Segment(start, end)) => start <= end,
            (CopyPhase::Whole(stretch), CopyEvent::Copied(n)) => n <= u64::MAX - stretch.written,
            (CopyPhase::Data(stretch, _), CopyEvent::Copied(n)) => n <= u64::MAX
                - stretch.written,
            _ => true,
        }
    }

    /// Takes the copy one event further: where it stands then, what the
    /// driver is to do, and the progress to report before that.
    pub fn copy_file(&self, phase: CopyPhase, event: CopyEvent) -> (res: (
        CopyPhase,
        CopyNext,
        Option<u64>,
    ))
        requires
            sensible(phase, event),
        ensures
            (res.0, res.1@) == copy_step(*self, phase, event),
            res.2 == progress(phase, event),
    {
        match (phase, event) {
            (CopyPhase::Ready, CopyEvent::Begin) => {
                if self.config.reflink == Reflink::Never {
                    (CopyPhase::Probing, CopyNext::ProbeSparse, None)
                } else {
                    (CopyPhase::Reflinking, CopyNext::Reflink, None)
                }
            },
            (CopyPhase::Reflinking, CopyEvent::Reflinked(worked)) => {
                match self.try_reflink(worked) {
                    Ok(true) => (CopyPhase::Done, CopyNext::Finished(self.metadata.len), None),
                    Ok(false) => (CopyPhase::Probing, CopyNext::ProbeSparse, None),
                    Err(e) => (CopyPhase::Done, CopyNext::Failed(e), None),
                }
            },
            (CopyPhase::Probing, CopyEvent::Sparse(sparse)) => {
                let (phase, next) = if sparse {
                    self.copy_sparse(0)
                } else {
                    self.copy_whole(Stretch { len: self.metadata.len, written: 0 })
                };
                (phase, next, None)
            },
            (CopyPhase::Seeking(_), CopyEvent::Segment(start, end)) => {
                let (phase, next) = self.copy_data(
                    Stretch { len: end - start, written: 0 },
                    end,
                );
                (phase, next, None)
            },
            (CopyPhase::Whole(stretch), CopyEvent::Copied(n)) => {
                let (phase, next) = self.copy_whole(
                    Stretch { len: stretch.len, written: stretch.written + n },
                );
                (phase, next, Some(n))
            },
            (CopyPhase::Data(stretch, end), CopyEvent::Copied(n)) => {
                let (phase, next) = self.copy_data(
                    Stretch { len: stretch.len, written: stretch.written + n },
                    end,
                );
                (phase, next, Some(n))
            },
            (phase, _) => (phase, CopyNext::OutOfTurn, None),
        }
    }

    /// What is carried over at the end of a copy, in order.
    pub fn finalise_copy(&self) -> (res: Vec<FinalStep>)
        ensures
            res@ == final_steps(self.config),
    {
        let mut steps: Vec<FinalStep> = Vec::new();
        if !self.config.no_perms {
            steps.push(FinalStep::Permissions);
        }
        if !self.config.no_timestamps {
            steps.push(FinalStep::Timestamps);
        }
        if self.config.ownership {
            steps.push(FinalStep::Owner);
        }
        if self.config.fsync {
            steps.push(FinalStep::Sync);
        }
        assert(steps@ =~= final_steps(self.config));
        steps
    }
}

impl FinalStep {
    /// Whether the copy goes on when this step fails.
    pub fn may_fail(self) -> (res: bool)
        ensures
            res == (self == FinalStep::Owner),
    {
        match self {
            FinalStep::Owner => true,
            _ => false,
        }
    }
}

/// The place of a step in the order in which steps are taken.
pub open spec fn rank(step: FinalStep) -> int {
    match step {
        FinalStep::Permissions => 0,
        FinalStep::Timestamps => 1,
        FinalStep::Owner => 2,
        FinalStep::Sync => 3,
    }
}

/// Each option decides on its own step, whatever the others are: permissions
/// and timestamps are carried over unless that is ruled out, the owner and the
/// sync to disk come where they are asked for. No step is taken twice, and the
/// sync is the last of all.
pub proof fn law_final_steps_follow_the_options(config: Config)
    ensures
        final_steps(config).contains(FinalStep::Permissions) <==> !config.no_perms,
        final_steps(config).contains(FinalStep::Timestamps) <==> !config.no_timestamps,
        final_steps(config).contains(FinalStep::Owner) <==> config.ownership,
        final_steps(config).contains(FinalStep::Sync) <==> config.fsync,
        forall|i: int, j: int|
            #![trigger final_steps(config)[i], final_steps(config)[j]]
            0 <= i < j < final_steps(config).len() ==> rank(final_steps(config)[i]) < rank(
                final_steps(config)[j],
            ),
{
    let steps = final_steps(config);
    let a: int = if config.no_perms {
        0
    } else {
        1
    };
    let b: int = if config.no_timestamps {
        a
    } else {
        a + 1
    };
    let c: int = if config.ownership {
        b + 1
    } else {
        b
    };
    if !config.no_perms {
        assert(steps[0] == FinalStep::Permissions);
    }
    if !config.no_timestamps {
        assert(steps[a] == FinalStep::Timestamps);
    }
    if config.ownership {
        assert(steps[b] == FinalStep::Owner);
    }
    if config.fsync {
        assert(steps[c] == FinalStep::Sync);
    }
}

/// A piece is never larger than a block, nor than what is left of the
/// stretch, and there is one as long as something is left.
pub proof fn law_pieces_fit(stretch: Stretch, block_size: u64)
    ensures
        match next_piece(stretch, block_size) {
            Some(n) => {
                &&& stretch.written < stretch.len
                &&& n <= block_size && n <= stretch.len - stretch.written
                &&& block_size > 0 ==> n > 0
                &&& fair_piece(n, stretch.len - stretch.written, block_size)
            },
            None => stretch.written >= stretch.len,
        },
{
}

/// The sum of some counts.
pub open spec fn total(counts: Seq<u64>) -> nat
    decreases counts.len(),
{
    if counts.len() == 0 {
        0
    } else {
        total(counts.drop_last()) + counts.last() as nat
    }
}

/// A stretch after copies of the given sizes.
pub open spec fn fed(stretch: Stretch, counts: Seq<u64>) -> Stretch
    decreases counts.len(),
{
    if counts.len() == 0 {
        stretch
    } else {
        extended(fed(stretch, counts.drop_last()), counts.last())
    }
}

/// Whether one of the copies was not larger than what was asked for.
pub open spec fn modest_at(stretch: Stretch, block_size: u64, counts: Seq<u64>, i: int) -> bool {
    match next_piece(fed(stretch, counts.take(i)), block_size) {
        Some(n) => counts[i] <= n,
        None => false,
    }
}

/// Whether none of the copies was larger than what was asked for.
pub open spec fn modest(stretch: Stretch, block_size: u64, counts: Seq<u64>) -> bool {
    forall|i: int| 0 <= i < counts.len() ==> #[trigger] modest_at(stretch, block_size, counts, i)
}

/// Where none of the copies was too large, the last one was not, and none of
/// those before it.
proof fn lemma_modest_to_the_last(stretch: Stretch, block_size: u64, counts: Seq<u64>)
    requires
        counts.len() > 0,
        modest(stretch, block_size, counts),
    ensures
        modest(stretch, block_size, counts.drop_last()),
        next_piece(fed(stretch, counts.drop_last()), block_size) is Some,
        counts.last() <= next_piece(fed(stretch, counts.drop_last()), block_size)->0,
{
    let front = counts.drop_last();
    let last = counts.len() - 1;
    assert forall|i: int| 0 <= i < front.len() implies #[trigger] modest_at(
        stretch,
        block_size,
        front,
        i,
    ) by {
        assert(modest_at(stretch, block_size, counts, i));
        assert(front.take(i) =~= counts.take(i));
    }
    assert(modest_at(stretch, block_size, counts, last));
    assert(counts.take(last) =~= front);
}

/// A copy that was not too large adds to the stretch, which is done exactly
/// when its length is reached.
proof fn lemma_piece_is_added(stretch: Stretch, block_size: u64, n: u64)
    requires
        stretch.written <= stretch.len,
        next_piece(stretch, block_size) is Some,
        n <= next_piece(stretch, block_size)->0,
    ensures
        ({
            let end = extended(stretch, n);
            &&& end.len == stretch.len
            &&& end.written == stretch.written + n
            &&& end.written <= end.len
            &&& next_piece(end, block_size) is None <==> end.written == end.len
        }),
{
}

/// A stretch is copied byte for byte: what was copied adds up, never exceeds
/// the stretch, and the stretch is done exactly when the sum is its length.
pub proof fn law_stretch_is_copied_exactly(len: u64, block_size: u64, counts: Seq<u64>)
    requires
        modest(Stretch { len, written: 0 }, block_size, counts),
    ensures
        ({
            let end = fed(Stretch { len, written: 0 }, counts);
            &&& end.len == len
            &&& end.written == total(counts)
            &&& total(counts) <= len
            &&& next_piece(end, block_size) is None <==> total(counts) == len
        }),
    decreases counts.len(),
{
    let start = Stretch { len, written: 0 };
    if counts.len() > 0 {
        let front = counts.drop_last();
        lemma_modest_to_the_last(start, block_size, counts);
        law_stretch_is_copied_exactly(len, block_size, front);
        lemma_piece_is_added(fed(start, front), block_size, counts.last());
    }
}

/// Whether the copy stands where a file of its length can be copied from.
pub open spec fn on_track(h: CopyHandle, phase: CopyPhase) -> bool {
    phase matches CopyPhase::Whole(stretch) ==> stretch.len == h.metadata.len && stretch.written
        <= stretch.len
}

/// Whether no more was copied than was asked for.
pub open spec fn within_request(h: CopyHandle, phase: CopyPhase, event: CopyEvent) -> bool {
    match (phase, event) {
        (CopyPhase::Whole(stretch), CopyEvent::Copied(n)) => {
            stretch.written < stretch.len && n <= stretch.len - stretch.written
        },
        _ => true,
    }
}

/// However a file is copied, a copy that completes reports the length of the
/// source.
pub proof fn law_copy_reports_the_length(h: CopyHandle, phase: CopyPhase, event: CopyEvent)
    requires
        on_track(h, phase),
        within_request(h, phase, event),
    ensures
        on_track(h, copy_step(h, phase, event).0),
        copy_step(h, phase, event).1 matches CopyNext::Finished(n) ==> n == h.metadata.len,
{
}

/// A sparse copy moves on: after a stretch of data it looks for more from the
/// end of that stretch, until the end of the file.
pub proof fn law_sparse_copy_moves_on(h: CopyHandle, stretch: Stretch, end: u64, n: u64)
    requires
        stretch.written + n >= stretch.len,
        stretch.written + n <= u64::MAX,
    ensures
        ({
            let (phase, next) = copy_step(
                h,
                CopyPhase::Data(stretch, end),
                CopyEvent::Copied(n),
            );
            if end < h.metadata.len {
                phase == CopyPhase::Seeking(end) && next == CopyNext::<Seq<u8>>::NextSegment(end)
            } else {
                phase == CopyPhase::Done && next == CopyNext::<Seq<u8>>::Finished(h.metadata.len)
            }
        }),
{
}

/// Whether the copy stands where the option on sharing blocks lets it.
pub open spec fn obeys(reflink: Reflink, phase: CopyPhase) -> bool {
    match reflink {
        Reflink::Always => phase is Ready || phase is Reflinking || phase is Done,
        Reflink::Auto => true,
        Reflink::Never => !(phase is Reflinking),
    }
}

/// Where sharing blocks is demanded no byte is copied, and where it is ruled
/// out it is never tried.
pub proof fn law_reflink_option_is_obeyed(h: CopyHandle, phase: CopyPhase, event: CopyEvent)
    requires
        obeys(h.config.reflink, phase),
    ensures
        ({
            let (then, next) = copy_step(h, phase, event);
            &&& obeys(h.config.reflink, then)
            &&& h.config.reflink == Reflink::Always ==> !(next is CopyBytes)
            &&& h.config.reflink == Reflink::Never ==> !(next is Reflink)
        }),
{
}

/// Where a copy stands after some events, and its reply to the last of them.
pub open spec fn copy_after(h: CopyHandle, events: Seq<CopyEvent>) -> (
    CopyPhase,
    CopyNext<Seq<u8>>,
)
    decreases events.len(),
{
    if events.len() == 0 {
        (CopyPhase::Ready, CopyNext::OutOfTurn)
    } else {
        copy_step(h, copy_after(h, events.drop_last()).0, events.last())
    }
}

/// Whether an event answers a request: data does not end before it starts, and
/// no more bytes are copied than were asked for.
pub open spec fn answers_request(request: CopyNext<Seq<u8>>, event: CopyEvent) -> bool {
    match (request, event) {
        (CopyNext::Reflink, CopyEvent::Reflinked(_)) => true,
        (CopyNext::ProbeSparse, CopyEvent::Sparse(_)) => true,
        (CopyNext::NextSegment(_), CopyEvent::Segment(start, end)) => start <= end,
        (CopyNext::CopyBytes(asked), CopyEvent::Copied(n)) => n <= asked,
        _ => false,
    }
}

/// Whether the events are those of a run: it begins, and every later event
/// answers the request before it.
pub open spec fn is_run(h: CopyHandle, events: Seq<CopyEvent>) -> bool
    decreases events.len(),
{
    events.len() > 0 && if events.len() == 1 {
        events.last() == CopyEvent::Begin
    } else {
        is_run(h, events.drop_last()) && answers_request(
            copy_after(h, events.drop_last()).1,
            events.last(),
        )
    }
}

/// How many bytes have been copied in the course of some events.
pub open spec fn bytes_copied(events: Seq<CopyEvent>) -> nat
    decreases events.len(),
{
    if events.len() == 0 {
        0
    } else {
        bytes_copied(events.drop_last()) + match events.last() {
            CopyEvent::Copied(n) => n as nat,
            _ => 0,
        }
    }
}

/// Where the data that was found last starts and ends.
pub open spec fn last_segment(events: Seq<CopyEvent>) -> Option<(u64, u64)>
    decreases events.len(),
{
    if events.len() == 0 {
        None
    } else {
        match events.last() {
            CopyEvent::Segment(start, end) => Some((start, end)),
            _ => last_segment(events.drop_last()),
        }
    }
}

/// How many bytes have been copied since data was found last.
pub open spec fn copied_of_segment(events: Seq<CopyEvent>) -> nat
    decreases events.len(),
{
    if events.len() == 0 {
        0
    } else {
        match events.last() {
            CopyEvent::Segment(_, _) => 0,
            CopyEvent::Copied(n) => copied_of_segment(events.drop_last()) + n as nat,
            _ => copied_of_segment(events.drop_last()),
        }
    }
}

/// Whether all of the data that was found last has been copied.
pub open spec fn segment_is_copied(events: Seq<CopyEvent>) -> bool {
    match last_segment(events) {
        Some((start, end)) => copied_of_segment(events) == end - start,
        None => true,
    }
}

/// Up to where data has been looked for.
pub open spec fn looked_up_to(events: Seq<CopyEvent>) -> u64 {
    match last_segment(events) {
        Some((_, end)) => end,
        None => 0,
    }
}

/// Whether a request is for a full block, or for all that is left if that is
/// less.
pub open spec fn fair_piece(asked: u64, left: int, block_size: u64) -> bool {
    asked <= left && asked <= block_size && (asked == left || asked == block_size)
}

/// What is true of a run at every point of it.
pub open spec fn accounted(h: CopyHandle, events: Seq<CopyEvent>) -> bool {
    let (phase, next) = copy_after(h, events);
    let shared = events.contains(CopyEvent::Reflinked(true));
    let plain = events.contains(CopyEvent::Sparse(false));
    let sparse = events.contains(CopyEvent::Sparse(true));
    let untouched = !shared && !plain && !sparse && bytes_copied(events) == 0 && last_segment(
        events,
    ) is None && copied_of_segment(events) == 0;
    match phase {
        CopyPhase::Ready => false,
        CopyPhase::Reflinking => {
            untouched && next == CopyNext::<Seq<u8>>::Reflink && h.config.reflink != Reflink::Never
        },
        CopyPhase::Probing => {
            &&& untouched && next == CopyNext::<Seq<u8>>::ProbeSparse
            &&& h.config.reflink != Reflink::Always
        },
        CopyPhase::Whole(stretch) => {
            &&& plain && !sparse && !shared && h.config.reflink != Reflink::Always
            &&& stretch.len == h.metadata.len && stretch.written == bytes_copied(events)
            &&& stretch.written < stretch.len
            &&& next matches CopyNext::CopyBytes(n) && fair_piece(
                n,
                h.metadata.len - bytes_copied(events),
                h.config.block_size,
            )
        },
        CopyPhase::Seeking(pos) => {
            &&& sparse && !plain && !shared && h.config.reflink != Reflink::Always
            &&& next == CopyNext::<Seq<u8>>::NextSegment(pos)
            &&& pos < h.metadata.len && pos == looked_up_to(events) && segment_is_copied(events)
        },
        CopyPhase::Data(stretch, end) => {
            &&& sparse && !plain && !shared && h.config.reflink != Reflink::Always
            &&& last_segment(events) matches Some((start, e)) && start <= end && e == end
                && stretch.len == end - start
            &&& stretch.written == copied_of_segment(events) && stretch.written < stretch.len
            &&& next matches CopyNext::CopyBytes(n) && fair_piece(
                n,
                stretch.len - copied_of_segment(events),
                h.config.block_size,
            )
        },
        CopyPhase::Done => match next {
            CopyNext::Finished(n) => {
                &&& n == h.metadata.len
                &&& shared || plain || sparse
                &&& shared ==> h.config.reflink != Reflink::Never && !plain && !sparse
                    && bytes_copied(events) == 0
                &&& plain ==> !sparse && bytes_copied(events) == h.metadata.len
                &&& sparse ==> looked_up_to(events) >= h.metadata.len && segment_is_copied(events)
            },
            CopyNext::Failed(e) => {
                &&& e == XcpError::<Seq<u8>>::ReflinkFailed && h.config.reflink == Reflink::Always
                &&& events.contains(CopyEvent::Reflinked(false))
                &&& untouched
            },
            _ => false,
        },
    }
}

proof fn lemma_one_more_event(events: Seq<CopyEvent>, e: CopyEvent)
    requires
        events.len() > 0,
    ensures
        events.contains(e) <==> events.drop_last().contains(e) || events.last() == e,
{
    let front = events.drop_last();
    if events.contains(e) {
        let i = events.index_of(e);
        if i < front.len() {
            assert(front[i] == e);
        }
    }
    if front.contains(e) {
        let i = front.index_of(e);
        assert(events[i] == e);
    }
    assert(events[events.len() - 1] == events.last());
}

proof fn lemma_run_is_accounted(h: CopyHandle, events: Seq<CopyEvent>)
    requires
        is_run(h, events),
    ensures
        accounted(h, events),
    decreases events.len(),
{
    let front = events.drop_last();
    lemma_one_more_event(events, CopyEvent::Reflinked(true));
    lemma_one_more_event(events, CopyEvent::Reflinked(false));
    lemma_one_more_event(events, CopyEvent::Sparse(true));
    lemma_one_more_event(events, CopyEvent::Sparse(false));
    if events.len() == 1 {
        assert(front =~= seq![]);
        assert(bytes_copied(front) == 0 && copied_of_segment(front) == 0);
        assert(last_segment(front) is None);
        assert(copy_after(h, front).0 == CopyPhase::Ready);
    } else {
        lemma_run_is_accounted(h, front);
    }
}

/// A file that is copied plainly, neither by sharing its blocks nor as a
/// sparse one, is copied in full: when the copy is complete, the bytes that
/// were copied add up to the length of the file, however they were cut up. As
/// long as some are missing, more are asked for, a block or what is left.
pub proof fn law_file_is_copied_in_full(h: CopyHandle, events: Seq<CopyEvent>)
    requires
        is_run(h, events),
        events.contains(CopyEvent::Sparse(false)),
    ensures
        ({
            let next = copy_after(h, events).1;
            let left = h.metadata.len - bytes_copied(events);
            &&& left >= 0
            &&& left == 0 ==> next == CopyNext::<Seq<u8>>::Finished(h.metadata.len)
            &&& left > 0 ==> {
                next matches CopyNext::CopyBytes(n) && fair_piece(n, left, h.config.block_size)
            }
        }),
{
    lemma_run_is_accounted(h, events);
}

/// Of a sparse file, all data is copied: data is looked for from the start of
/// the file, then from where the data before ends, until the end of the file,
/// and only when the bytes copied since data was found add up to its length,
/// wherever it starts. As long as some are missing, more are asked for, a
/// block or what is left.
pub proof fn law_data_is_copied_in_full(h: CopyHandle, events: Seq<CopyEvent>)
    requires
        is_run(h, events),
        events.contains(CopyEvent::Sparse(true)),
    ensures
        ({
            let next = copy_after(h, events).1;
            match last_segment(events) {
                None => if h.metadata.len == 0 {
                    next == CopyNext::<Seq<u8>>::Finished(0)
                } else {
                    next == CopyNext::<Seq<u8>>::NextSegment(0)
                },
                Some((start, end)) => {
                    let left = end - start - copied_of_segment(events);
                    if left > 0 {
                        next matches CopyNext::CopyBytes(n) && fair_piece(
                            n,
                            left,
                            h.config.block_size,
                        )
                    } else {
                        &&& left == 0
                        &&& end < h.metadata.len ==> next == CopyNext::<Seq<u8>>::NextSegment(end)
                        &&& end >= h.metadata.len ==> next == CopyNext::<Seq<u8>>::Finished(
                            h.metadata.len,
                        )
                    }
                },
            }
        }),
{
    lemma_run_is_accounted(h, events);
}

/// Sharing blocks makes the copy where it is not ruled out and worked, and is
/// an error exactly where it was demanded and did not work.
pub proof fn law_sharing_blocks_is_optional(reflink: Reflink, worked: bool)
    ensures
        reflink_outcome(reflink, worked) == Ok::<bool, XcpError<Seq<u8>>>(true) <==> worked
            && reflink != Reflink::Never,
        reflink_outcome(reflink, worked) is Err <==> !worked && reflink == Reflink::Always,
        reflink_outcome(reflink, worked) matches Err(e) ==> e is ReflinkFailed,
{
}

/// How a file is copied is decided by what the run is told and by the option
/// on sharing blocks. Sharing is tried first unless it is ruled out; where it
/// worked the copy is complete without a byte copied; where it did not, the
/// copy fails if sharing was demanded, and goes on otherwise.
pub proof fn law_way_of_copying_is_decided(h: CopyHandle, events: Seq<CopyEvent>)
    requires
        is_run(h, events),
    ensures
        ({
            let next = copy_after(h, events).1;
            let last = events.last();
            &&& last == CopyEvent::Begin ==> next == (if h.config.reflink == Reflink::Never {
                CopyNext::<Seq<u8>>::ProbeSparse
            } else {
                CopyNext::<Seq<u8>>::Reflink
            })
            &&& last == CopyEvent::Reflinked(true) ==> next == CopyNext::<Seq<u8>>::Finished(
                h.metadata.len,
            ) && bytes_copied(events) == 0
            &&& last == CopyEvent::Reflinked(false) ==> next == (if h.config.reflink
                == Reflink::Always {
                CopyNext::<Seq<u8>>::Failed(XcpError::ReflinkFailed)
            } else {
                CopyNext::<Seq<u8>>::ProbeSparse
            })
            &&& next is Failed ==> last == CopyEvent::Reflinked(false) && h.config.reflink
                == Reflink::Always
            &&& next matches CopyNext::Finished(n) ==> {
                &&& n == h.metadata.len
                &&& last == CopyEvent::Reflinked(true) || events.contains(CopyEvent::Sparse(false))
                    || events.contains(CopyEvent::Sparse(true))
            }
            &&& !(next is OutOfTurn)
        }),
{
    lemma_run_is_accounted(h, events);
    lemma_one_more_event(events, CopyEvent::Reflinked(true));
    if events.len() > 1 {
        lemma_run_is_accounted(h, events.drop_last());
    }
}

/// The progress that is reported in the course of some events.
pub open spec fn bytes_reported(h: CopyHandle, events: Seq<CopyEvent>) -> nat
    decreases events.len(),
{
    if events.len() == 0 {
        0
    } else {
        bytes_reported(h, events.drop_last()) + match progress(
            copy_after(h, events.drop_last()).0,
            events.last(),
        ) {
            Some(n) => n as nat,
            None => 0,
        }
    }
}

/// The progress that a run reports adds up to the bytes that it has copied,
/// and every event of a run has numbers that make sense.
pub proof fn law_progress_adds_up(h: CopyHandle, events: Seq<CopyEvent>)
    requires
        is_run(h, events),
    ensures
        bytes_reported(h, events) == bytes_copied(events),
        sensible(copy_after(h, events.drop_last()).0, events.last()),
    decreases events.len(),
{
    let front = events.drop_last();
    if events.len() == 1 {
        assert(front =~= seq![]);
        assert(bytes_copied(front) == 0 && bytes_reported(h, front) == 0);
        assert(copy_after(h, front).0 == CopyPhase::Ready);
    } else {
        law_progress_adds_up(h, front);
        lemma_run_is_accounted(h, front);
    }
}

/// Every number of bytes that was copied is reported as it is, even where it
/// is more than was asked for, and nothing else is. A copy of the whole file
/// is complete as soon as nothing is missing, with all bytes counted.
pub proof fn law_every_copy_is_counted(
    h: CopyHandle,
    phase: CopyPhase,
    event: CopyEvent,
    stretch: Stretch,
    n: u64,
)
    requires
        stretch.written + n <= u64::MAX,
    ensures
        progress(phase, event) == match event {
            CopyEvent::Copied(k) => if phase is Whole || phase is Data {
                Some(k)
            } else {
                None
            },
            _ => None,
        },
        ({
            let (then, next) = copy_step(h, CopyPhase::Whole(stretch), CopyEvent::Copied(n));
            let written = stretch.written + n;
            if written >= stretch.len {
                then is Done && next == CopyNext::<Seq<u8>>::Finished(written as u64)
            } else {
                &&& then matches CopyPhase::Whole(s) && s.len == stretch.len && s.written == written
                &&& next matches CopyNext::CopyBytes(k) && fair_piece(
                    k,
                    stretch.len - written,
                    h.config.block_size,
                )
            }
        }),
{
}

/// Numbers make sense unless data ends before it starts or more bytes have
/// been copied than can be counted.
pub proof fn law_what_makes_sense(stretch: Stretch, end: u64, a: u64, b: u64)
    ensures
        sensible(CopyPhase::Seeking(end), CopyEvent::Segment(a, b)) <==> a <= b,
        sensible(CopyPhase::Whole(stretch), CopyEvent::Copied(a)) <==> stretch.written + a
            <= u64::MAX,
        sensible(CopyPhase::Data(stretch, end), CopyEvent::Copied(a)) <==> stretch.written + a
            <= u64::MAX,
{
}

/// What a name leads to once commands are carried out: the contents of files
/// by their paths.
pub open spec fn files_after(
    commands: Seq<Command<Seq<u8>>>,
    files: Map<Seq<u8>, Seq<u8>>,
) -> Map<Seq<u8>, Seq<u8>>
    decreases commands.len(),
{
    if commands.len() == 0 {
        files
    } else {
        let before = files_after(commands.drop_last(), files);
        match commands.last() {
            Command::Rename(a, b) => if before.contains_key(a) {
                before.remove(a).insert(b, before[a])
            } else {
                before
            },
            Command::CreateFile(a) => before.insert(a, seq![]),
            _ => before,
        }
    }
}

/// Opening the file to write leaves an empty file there, with room for the
/// whole source set aside in it, and touches nothing else. A file that has to
/// be kept is there afterwards, under the name of its backup.
pub proof fn law_opening_keeps_the_backup(
    to: PathBuf,
    backup: Option<PathBuf>,
    len: u64,
    files: Map<Seq<u8>, Seq<u8>>,
    other: Seq<u8>,
)
    requires
        backup is Some ==> backup->0@ != to@,
    ensures
        ({
            let commands = opening_commands(to, backup, len);
            let then = files_after(commands, files);
            &&& then.contains_key(to@) && then[to@].len() == 0
            &&& commands.last() == Command::<Seq<u8>>::Allocate(len)
            &&& backup is Some && files.contains_key(to@) ==> then.contains_key(backup->0@)
                && then[backup->0@] == files[to@]
            &&& other != to@ && (backup is Some ==> other != backup->0@) ==> {
                &&& then.contains_key(other) == files.contains_key(other)
                &&& files.contains_key(other) ==> then[other] == files[other]
            }
        }),
{
    let commands = opening_commands(to, backup, len);
    let room = Command::<Seq<u8>>::Allocate(len);
    let create = Command::CreateFile(to@);
    let renaming = match backup {
        Some(kept) => seq![Command::Rename(to@, kept@)],
        None => seq![],
    };
    assert(commands.drop_last() =~= renaming + seq![create]);
    assert((renaming + seq![create]).drop_last() =~= renaming);
    assert(files_after(seq![], files) == files);
    if backup is Some {
        assert(renaming.drop_last() =~= seq![]);
    }
    assert(files_after(commands, files) == files_after(renaming + seq![create], files));
    assert(files_after(renaming + seq![create], files) == files_after(renaming, files).insert(
        to@,
        seq![],
    ));
}

} // verus!
