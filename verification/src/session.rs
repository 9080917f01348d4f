//! The writing of one sequence of points: where it stands, and what comes next.

use crate::error::CopcError;
use crate::geometry::{Bounds, Position};
use crate::grouping::Group;
use crate::ingest::{is_sampled, Admission, PointAttributes, Progress};
use crate::key::VoxelKey;
use crate::point_format::PointFormat;
use crate::voxel::VoxelNode;
use vstd::prelude::*;

verus! {

/// How far a point is on its way into the file.
pub enum Phase {
    /// No point is on its way.
    Idle,
    /// The point at `position` waits for a full octree node to be divided.
    Dividing { node: usize, position: Position },
    /// The point at `position` has come to this node of the voxel strategy.
    Descending { at: VoxelNode, position: Position },
    /// The point has its node, whose chunk is to be compressed if it is `full`; its
    /// record is to come.
    Encoding { key: VoxelKey, full: bool },
    /// The record waits for the chunk of `victim` to leave memory.
    Spilling { victim: VoxelKey, key: VoxelKey, full: bool, bytes: Vec<u8> },
    /// The record waits to be written to the file of its chunk.
    Filing { key: VoxelKey, full: bool, bytes: Vec<u8> },
    /// The chunk of the full node `key` is being compressed.
    Compressing { key: VoxelKey, records: Ghost<Seq<Seq<u8>>> },
    /// The file is being closed: the node `key` is being compressed, and the `rest`
    /// is to come.
    Closing { key: VoxelKey, records: Ghost<Seq<Seq<u8>>>, rest: Vec<Group> },
    /// Something failed; no more points can be taken in.
    Failed,
}

/// What the caller has to do next.
pub enum Action {
    /// To go on to the next point.
    Done,
    /// To find the center of the box of the node `key`.
    FindCenter { key: VoxelKey, bounds: Bounds },
    /// To find the place of the point in the grid of this node, and the center of
    /// the node's box.
    Locate { node: VoxelNode },
    /// To bring the point, which goes to the chunk of `key`, into the form of a
    /// record.
    Encode { key: VoxelKey },
    /// To write the chunk of `victim` to a new file.
    Spill { victim: VoxelKey },
    /// To append the record to the file of the chunk of `key`.
    AppendFile { key: VoxelKey },
    /// To write the record to a new file for the chunk of `key`.
    NewFile { key: VoxelKey },
    /// To compress the records of this node, one chunk after another.
    Compress { group: Group },
    /// To write what follows the chunks, and the header.
    Finish,
    /// To give up.
    Stop,
}

/// The writing of one sequence of points.
pub struct Session {
    greedy: bool,
    cancellable: bool,
    index: u64,
    phase: Phase,
    admission: Admission,
    progress: Option<Progress>,
}

/// The state of a session.
pub struct SessionView {
    /// Whether the greedy strategy is used.
    pub greedy: bool,
    /// Whether the caller is asked whether to go on.
    pub cancellable: bool,
    /// The points that were offered.
    pub index: nat,
    /// How far the current point is.
    pub phase: Phase,
    /// What is wrong with the points that were left out.
    pub error: Option<crate::error::PointAddError>,
    /// How far things are, where the caller wants to know.
    pub progress: Option<crate::ingest::ProgressView>,
}

impl View for Session {
    type V = SessionView;

    closed spec fn view(&self) -> SessionView {
        SessionView {
            greedy: self.greedy,
            cancellable: self.cancellable,
            index: self.index as nat,
            phase: self.phase,
            error: self.admission@,
            progress: match self.progress {
                Some(progress) => Some(progress@),
                None => None,
            },
        }
    }
}

/// Whether the session counts `points` more compressed points, and `report` is
/// what to tell the caller of it, as done and total.
pub open spec fn notes_compressed(
    before: SessionView,
    points: u64,
    after: SessionView,
    report: Option<(u64, u64)>,
) -> bool {
    match before.progress {
        None => report is None && after == before,
        Some(progress) => {
            &&& after == (SessionView { progress: Some(progress.compressing(points)), ..before })
            &&& report == progress.report(progress.done(progress.counting(points) as int))
        },
    }
}

/// Whether a session has just been opened for about `num_points` points.
pub open spec fn is_opened(
    session: SessionView,
    num_points: i32,
    min_node_size: i32,
    max_node_size: i32,
    cancellable: bool,
    reporting: bool,
) -> bool {
    &&& session.greedy == crate::ingest::chooses_greedy(num_points, min_node_size, max_node_size)
    &&& session.cancellable == cancellable
    &&& session.index == 0
    &&& session.phase is Idle
    &&& session.error is None
    &&& session.progress is Some <==> reporting
    &&& session.progress matches Some(progress) ==> {
        &&& progress.base == crate::ingest::announced(num_points)
        &&& progress.compressed == 0
        &&& progress.reached == 0
        &&& progress.percent is None
    }
}

/// How a write ends, where `closed` is how the closing of the file went.
pub open spec fn conclusion<E>(
    closed: Result<(), E>,
    error: Option<crate::error::PointAddError>,
) -> Result<Result<(), CopcError>, E> {
    match closed {
        Ok(_) => Ok(write_outcome(error)),
        Err(error) => Err(error),
    }
}

/// The record that waits to be written to a file.
pub open spec fn waiting_record(phase: Phase) -> Option<Seq<u8>> {
    match phase {
        Phase::Filing { key, full, bytes } => Some(bytes@),
        _ => None,
    }
}

/// Whether a session went on to its next point: every so often it asks whether to go on,
/// where the caller can cancel, and tells how far things are, where the caller wants to
/// know.
pub open spec fn starts_point(
    before: SessionView,
    after: SessionView,
    ask: bool,
    report: Option<(u64, u64)>,
) -> bool {
    let sampled = before.index as int % crate::ingest::SAMPLE_INTERVAL as int == 0;
    &&& ask == (before.cancellable && sampled)
    &&& match before.progress {
        None => {
            &&& report is None
            &&& after == (SessionView { index: before.index + 1, ..before })
        },
        Some(progress) => {
            let done = progress.taken_in(before.index as int);
            &&& report == (if sampled {
                progress.report(done)
            } else {
                None
            })
            &&& after == (SessionView {
                index: before.index + 1,
                progress: if sampled {
                    Some(progress.reporting(done))
                } else {
                    Some(progress)
                },
                ..before
            })
        },
    }
}

/// Whether the progress of a session went on with the given report, if there is
/// one.
pub open spec fn session_advances(
    before: SessionView,
    after: SessionView,
    report: Option<(u64, u64)>,
) -> bool {
    match (before.progress, after.progress) {
        (Some(progress), Some(next)) => crate::ingest::advances(progress, next, report),
        (None, None) => report is None,
        _ => false,
    }
}

/// Whether a session reports exactly where the whole percentage is another one than
/// before.
pub open spec fn session_is_throttled(
    before: SessionView,
    after: SessionView,
    report: Option<(u64, u64)>,
) -> bool {
    match (before.progress, after.progress) {
        (Some(progress), Some(next)) => crate::ingest::is_throttled(progress, next, report),
        _ => report is None,
    }
}

/// The outcome of a write, where `error` is what is wrong with the points that
/// were left out.
pub open spec fn write_outcome(error: Option<crate::error::PointAddError>) -> Result<(), CopcError> {
    match error {
        None => Ok(()),
        Some(error) => Err(CopcError::InvalidPoint(error)),
    }
}

/// What to do before the next point.
#[derive(Clone, Copy, Debug)]
pub struct Prompt {
    /// To ask the caller whether to go on.
    pub ask: bool,
    /// To tell the caller how far things are, as done and total.
    pub report: Option<(u64, u64)>,
}

impl Session {
    /// The progress is one of the writer's own.
    pub closed spec fn wf(&self) -> bool {
        self.progress matches Some(progress) ==> progress.wf()
    }

    pub(crate) fn new(greedy: bool, cancellable: bool, progress: Option<Progress>) -> (res: Session)
        requires
            progress matches Some(progress) ==> progress.wf(),
        ensures
            res.wf(),
            res@ == (SessionView {
                greedy,
                cancellable,
                index: 0,
                phase: Phase::Idle,
                error: None,
                progress: match progress {
                    Some(progress) => Some(progress@),
                    None => None,
                },
            }),
    {
        Session {
            greedy,
            cancellable,
            index: 0,
            phase: Phase::Idle,
            admission: Admission::new(),
            progress,
        }
    }

    pub(crate) fn accept(
        &mut self,
        attributes: &PointAttributes,
        p: &Position,
        format: &PointFormat,
        bounds: &Bounds,
    ) -> (res: bool)
        requires
            old(self).wf(),
        ensures
            final(self).wf(),
            ({
                let offer = crate::ingest::Offer {
                    matches: attributes.agree(*format),
                    inside: crate::geometry::contains(*bounds, *p),
                };
                &&& res == offer.taken()
                &&& final(self)@ == (SessionView {
                    error: crate::ingest::noted(old(self)@.error, offer, *format),
                    ..old(self)@
                })
            }),
    {
        self.admission.accept(attributes, p, format, bounds)
    }

    pub(crate) fn set_phase(&mut self, phase: Phase)
        requires
            old(self).wf(),
        ensures
            final(self).wf(),
            final(self)@ == (SessionView { phase, ..old(self)@ }),
    {
        self.phase = phase;
    }

    pub(crate) fn take_phase(&mut self) -> (res: Phase)
        requires
            old(self).wf(),
        ensures
            final(self).wf(),
            res == old(self)@.phase,
            final(self)@ == (SessionView { phase: Phase::Failed, ..old(self)@ }),
    {
        let mut phase: Phase = Phase::Failed;
        std::mem::swap(&mut phase, &mut self.phase);
        phase
    }

    /// The record that waits to be written to a file.
    pub fn pending_record(&self) -> (res: Option<&Vec<u8>>)
        ensures
            match self@.phase {
                Phase::Filing { key, full, bytes } => res == Some(&bytes),
                _ => res is None,
            },
            res is Some <==> waiting_record(self@.phase) is Some,
            res matches Some(bytes) ==> waiting_record(self@.phase) == Some(bytes@),
    {
        match &self.phase {
            Phase::Filing { bytes, .. } => Some(bytes),
            _ => None,
        }
    }

    /// Starts with the next point: says what to do before it is taken in.
    pub fn next_point(&mut self) -> (res: Prompt)
        requires
            old(self).wf(),
            old(self)@.index < u64::MAX,
        ensures
            final(self).wf(),
            starts_point(old(self)@, final(self)@, res.ask, res.report),
            session_advances(old(self)@, final(self)@, res.report),
            session_is_throttled(old(self)@, final(self)@, res.report),
            res.ask <==> old(self)@.cancellable && old(self)@.index as int % 4096 == 0,
            final(self)@.index == old(self)@.index + 1,
            old(self)@.progress matches Some(progress) ==> {
                let index = old(self)@.index;
                index as int % 4096 == 0 && progress.reached <= index <= progress.base ==> {
                    &&& final(self)@.progress matches Some(next) && next.reached == index
                    &&& res.report matches Some((done, total)) ==> done == index
                }
            },
    {
        let index: u64 = self.index;
        self.index = index + 1;
        let ask: bool = self.cancellable && is_sampled(index);
        let mut report: Option<(u64, u64)> = None;
        if let Some(progress) = &mut self.progress {
            report = progress.taking_in(index);
        }
        Prompt { ask, report }
    }

    /// Takes note that a chunk of `points` points is compressed; says what to
    /// tell the caller, as done and total.
    pub fn chunk_compressed(&mut self, points: u64) -> (res: Option<(u64, u64)>)
        requires
            old(self).wf(),
        ensures
            final(self).wf(),
            notes_compressed(old(self)@, points, final(self)@, res),
            session_advances(old(self)@, final(self)@, res),
            session_is_throttled(old(self)@, final(self)@, res),
    {
        let mut report: Option<(u64, u64)> = None;
        if let Some(progress) = &mut self.progress {
            report = progress.compressed(points);
        }
        report
    }

    /// Ends the session, once the file is closed or has failed to be: `closed` is
    /// how that went. Gives the outcome of the whole write, and the last report, as
    /// done and total. Where the caller wants reports, the last one is due however
    /// things went.
    pub fn conclude<E>(&mut self, closed: Result<(), E>) -> (res: (
        Result<Result<(), CopcError>, E>,
        Option<(u64, u64)>,
    ))
        requires
            old(self).wf(),
        ensures
            final(self).wf(),
            res.0 == (match closed {
                Ok(_) => Ok::<Result<(), CopcError>, E>(write_outcome(old(self)@.error)),
                Err(error) => Err::<Result<(), CopcError>, E>(error),
            }),
            res.0 == conclusion(closed, old(self)@.error),
            match old(self)@.progress {
                None => res.1 is None && final(self)@ == old(self)@,
                Some(progress) => {
                    &&& res.1 == Some((progress.total() as u64, progress.total() as u64))
                    &&& final(self)@ == (SessionView {
                        progress: Some(progress.finished()),
                        ..old(self)@
                    })
                },
            },
            session_advances(old(self)@, final(self)@, res.1),
    {
        let mut report: Option<(u64, u64)> = None;
        if let Some(progress) = &mut self.progress {
            report = Some(progress.finish());
        }
        match closed {
            Ok(_) => (Ok(self.outcome()), report),
            Err(error) => (Err(error), report),
        }
    }

    /// The points that were offered.
    pub fn points_offered(&self) -> (res: u64)
        ensures
            res == self@.index,
    {
        self.index
    }

    /// Whether the greedy strategy is used.
    pub fn is_greedy(&self) -> (res: bool)
        ensures
            res == self@.greedy,
    {
        self.greedy
    }

    /// The outcome once all points are written.
    pub fn outcome(&self) -> (res: Result<(), CopcError>)
        ensures
            res == write_outcome(self@.error),
    {
        self.admission.outcome()
    }
}

/// The outcome of a write is an error exactly where a point was left out, and tells
/// what was wrong with it.
pub proof fn lemma_outcome_tells_what_was_wrong(error: Option<crate::error::PointAddError>)
    ensures
        write_outcome(error) is Ok <==> error is None,
        error matches Some(wrong) ==> write_outcome(error) is Err && write_outcome(error)->Err_0
            == CopcError::InvalidPoint(wrong),
{
}

/// Before every 4096th point, from the first one on, the caller who can cancel is asked
/// whether to go on, and the caller who wants to know is told the number of the point,
/// where it is a whole percent further, and no more than was announced. Nothing else of
/// the session changes but the number of the point.
pub proof fn lemma_points_are_sampled(
    before: SessionView,
    after: SessionView,
    ask: bool,
    report: Option<(u64, u64)>,
)
    requires
        starts_point(before, after, ask, report),
        before.progress matches Some(progress) ==> progress.wf(),
    ensures
        ask <==> before.cancellable && before.index as int % 4096 == 0,
        before.index as int % 4096 != 0 ==> report is None && after.progress == before.progress,
        before.progress is None ==> report is None && after.progress is None,
        before.progress matches Some(progress) ==> (after.progress matches Some(next) && {
            let index = before.index;
            &&& index as int % 4096 == 0 && progress.reached <= index <= progress.base
                ==> next.reached == index
            &&& index as int % 4096 == 0 ==> (report is Some <==> next.percent
                != progress.percent)
            &&& report matches Some((done, total)) ==> done == next.reached && (progress.base > 0
                ==> total == 2 * progress.base)
            &&& next.base == progress.base && next.compressed == progress.compressed
        }),
        after.index == before.index + 1,
        after.greedy == before.greedy && after.cancellable == before.cancellable,
        after.phase == before.phase && after.error == before.error,
{
    if let Some(progress) = before.progress {
        crate::ingest::lemma_taking_in_counts_points(progress, before.index as int);
    }
}

/// A chunk counts with all its points once it is compressed, and nothing else of the
/// session changes but how far it is.
pub proof fn lemma_compressed_points_are_counted(
    before: SessionView,
    points: u64,
    after: SessionView,
    report: Option<(u64, u64)>,
)
    requires
        notes_compressed(before, points, after, report),
        before.progress matches Some(progress) ==> progress.wf() && progress.compressed + points
            <= u64::MAX,
    ensures
        before.progress is None ==> report is None && after.progress is None,
        before.progress matches Some(progress) ==> (after.progress matches Some(next) && {
            let sum = progress.base + progress.compressed + points;
            &&& next.compressed == progress.compressed + points
            &&& progress.base > 0 && progress.reached <= sum <= 2 * progress.base ==> next.reached
                == sum
            &&& report is Some <==> next.percent != progress.percent
            &&& report matches Some((done, total)) ==> done == next.reached && (progress.base > 0
                ==> total == 2 * progress.base)
            &&& next.base == progress.base
        }),
        after.index == before.index && after.greedy == before.greedy,
        after.cancellable == before.cancellable && after.phase == before.phase,
        after.error == before.error,
{
    if let Some(progress) = before.progress {
        crate::ingest::lemma_compressing_counts_points(progress, points);
    }
}

/// A new session is at its first point, knows of no error, and has reported nothing. It
/// is greedy exactly where fewer points are announced than the two sizes together, and
/// its bar is as long as twice the announced points.
pub proof fn lemma_new_session(
    session: SessionView,
    num_points: i32,
    min_node_size: i32,
    max_node_size: i32,
    cancellable: bool,
    reporting: bool,
)
    requires
        is_opened(session, num_points, min_node_size, max_node_size, cancellable, reporting),
    ensures
        session.greedy <==> num_points as int - min_node_size < max_node_size,
        session.cancellable == cancellable,
        session.index == 0,
        session.error is None,
        session.progress is Some <==> reporting,
        session.progress matches Some(progress) ==> {
            &&& num_points >= 1 ==> progress.base == num_points && progress.total() == 2
                * num_points
            &&& num_points <= 0 ==> progress.total() == 1
            &&& progress.reached == 0 && progress.percent is None
        },
{
}

/// A write whose file could not be closed ends with that error, whatever the points were;
/// else it ends well exactly where no point was left out.
pub proof fn lemma_how_a_write_ends<E>(
    closed: Result<(), E>,
    error: Option<crate::error::PointAddError>,
)
    ensures
        closed is Err ==> conclusion(closed, error) is Err && conclusion(closed, error)->Err_0
            == closed->Err_0,
        closed is Ok ==> conclusion(closed, error) is Ok && (conclusion(closed, error)->Ok_0
            is Ok <==> error is None),
        closed is Ok && error is Some ==> conclusion(closed, error)->Ok_0->Err_0
            == CopcError::InvalidPoint(error->0),
{
}

} // verus!
