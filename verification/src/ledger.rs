//! What a writer has taken in, whatever the memory at hand and whoever watches.
//!
//! A ledger has the records of each node in order, wherever they are, and what was
//! handed out to be compressed. It is a function of the points that were offered,
//! of their records, and of what the caller computed on the way; nothing else has a
//! part in it.

use crate::error::PointAddError;
use crate::geometry::{Bounds, Position};
use crate::grouping::Group;
use crate::hierarchy::CopcInfo;
use crate::key::VoxelKey;
use crate::octree::OctreeView;
use crate::point_format::PointFormat;
use crate::session::{Action, Phase, SessionView};
use crate::voxel::VoxelNode;
use crate::writer::{GridIndices, PointInfo, WriterView};
use vstd::prelude::*;

verus! {

/// What was taken in.
#[verifier::ext_equal]
pub struct Ledger {
    pub min_node_size: i32,
    pub max_node_size: i32,
    pub max_level: i32,
    pub format: PointFormat,
    /// The points that were taken in.
    pub points: nat,
    pub info: CopcInfo,
    /// What is wrong with the points that were left out.
    pub error: Option<PointAddError>,
    pub octree: OctreeView,
    /// The cells that have a representative.
    pub claimed: Set<(VoxelKey, u64)>,
    /// The records of each node, in order.
    pub chunks: Map<VoxelKey, Seq<Seq<u8>>>,
    /// The nodes that were handed out to be compressed, each with its records.
    pub handed: Seq<(VoxelKey, Seq<Seq<u8>>)>,
}

/// What the caller computes.
pub struct Answers {
    /// The center of a box.
    pub center: spec_fn(Bounds) -> Position,
    /// The place of a point in the grid of a node.
    pub place: spec_fn(VoxelNode, Position) -> GridIndices,
}

/// The cells of the nodes that a point at `p` is in.
pub open spec fn cells_of(answers: Answers, p: Position, grid: int) -> spec_fn(VoxelNode) -> u64 {
    |node: VoxelNode|
        {
            let at = (answers.place)(node, p);
            crate::voxel::cell_number(at.x as int, at.y as int, at.z as int, grid) as u64
        }
}

/// The centers of nodes.
pub open spec fn centers_of(answers: Answers) -> spec_fn(VoxelNode) -> Position {
    |node: VoxelNode| (answers.center)(node.bounds)
}

/// The groups of a list from the last to the first, each with its records.
pub open spec fn backward(list: Seq<Group>) -> Seq<(VoxelKey, Seq<Seq<u8>>)> {
    Seq::new(
        list.len(),
        |i: int| (list[list.len() - 1 - i].key, list[list.len() - 1 - i].records()),
    )
}

impl Ledger {
    /// The ledger of a writer, where `error` is what is wrong with the points that
    /// were left out.
    pub open spec fn of(writer: WriterView, error: Option<PointAddError>) -> Ledger {
        Ledger {
            min_node_size: writer.min_node_size,
            max_node_size: writer.max_node_size,
            max_level: writer.max_level,
            format: writer.format,
            points: writer.points,
            info: writer.info,
            error,
            octree: writer.octree,
            claimed: writer.claimed,
            chunks: crate::grouping::chunk_records(writer.store.chunks),
            handed: writer.handed,
        }
    }

    /// The cube that the octree covers.
    pub open spec fn cube(self) -> Bounds {
        self.octree.nodes[0].bounds
    }

    /// How a point stands to the format and the cube.
    pub open spec fn offer(self, point: PointInfo) -> crate::ingest::Offer {
        crate::ingest::Offer {
            matches: point.attributes.agree(self.format),
            inside: crate::geometry::contains(self.cube(), point.position),
        }
    }

    /// The cells along each side of a node.
    pub open spec fn grid(self) -> int {
        crate::voxel::grid_of(self.max_node_size)
    }

    /// The ledger with one more record in the chunk of `key`; with `full`, the chunk
    /// is handed out.
    pub open spec fn recorded(self, key: VoxelKey, full: bool, record: Seq<u8>) -> Ledger {
        let records = crate::grouping::records_at(self.chunks, key).push(record);
        if full {
            Ledger {
                chunks: self.chunks.remove(key),
                handed: self.handed.push((key, records)),
                ..self
            }
        } else {
            Ledger { chunks: self.chunks.insert(key, records), ..self }
        }
    }

    /// The ledger with one more point in octree node `i`. A node that is full with it is
    /// handed out, but for the root where a node can be too small.
    pub open spec fn put(self, i: int, record: Seq<u8>) -> Ledger {
        let node = self.octree.nodes[i];
        Ledger { octree: self.octree.placed(i), ..self }.recorded(
            node.entry.key,
            node.with_point().full(self.max_node_size) && (node.entry.key.level != 0
                || self.min_node_size == 1),
            record,
        )
    }

    /// The ledger with octree node `i` divided.
    pub open spec fn divided(self, i: int, answers: Answers) -> Ledger {
        Ledger {
            octree: self.octree.divided(i, (answers.center)(self.octree.nodes[i].bounds)),
            ..self
        }
    }

    /// The ledger with a point at `p` in octree node `i`, which is full, or in one
    /// of its octants.
    pub open spec fn put_below(self, i: int, p: Position, record: Seq<u8>, answers: Answers) -> Ledger {
        let divided = self.divided(i, answers);
        divided.put(divided.octree.find(0, p), record)
    }

    /// The ledger with a point at `p`, by the greedy strategy.
    pub open spec fn put_greedily(self, p: Position, record: Seq<u8>, answers: Answers) -> Ledger {
        let i = self.octree.find(0, p);
        if self.octree.nodes[i].full(self.max_node_size) {
            self.put_below(i, p, record, answers)
        } else {
            self.put(i, record)
        }
    }

    /// The ledger with a point at `p`, by the voxel strategy, from `node` on down.
    pub open spec fn put_from(
        self,
        node: VoxelNode,
        p: Position,
        record: Seq<u8>,
        answers: Answers,
    ) -> Ledger {
        let end = crate::voxel::descent(
            self.claimed,
            node,
            p,
            cells_of(answers, p, self.grid()),
            centers_of(answers),
            self.max_level,
        );
        Ledger { claimed: end.claimed, ..self }.recorded(end.node.key, false, record)
    }

    /// The ledger once a point has been offered, and `record` is its record.
    pub open spec fn taken(
        self,
        greedy: bool,
        point: PointInfo,
        record: Seq<u8>,
        answers: Answers,
    ) -> Ledger {
        let offer = self.offer(point);
        let noted = Ledger {
            error: crate::ingest::noted(self.error, offer, self.format),
            ..self
        };
        let counted = Ledger {
            points: self.points + 1,
            info: crate::writer::with_time(self.info, point.gps_time),
            ..noted
        };
        if !offer.taken() {
            noted
        } else if greedy {
            counted.put_greedily(point.position, record, answers)
        } else {
            counted.put_from(
                VoxelNode { key: VoxelKey::root(), bounds: self.cube() },
                point.position,
                record,
                answers,
            )
        }
    }

    /// The ledger once points have been offered, one after another; each comes with
    /// its record.
    pub open spec fn taken_all(
        self,
        greedy: bool,
        points: Seq<(PointInfo, Seq<u8>)>,
        answers: Answers,
    ) -> Ledger
        decreases points.len(),
    {
        if points.len() == 0 {
            self
        } else {
            self.taken_all(greedy, points.drop_last(), answers).taken(
                greedy,
                points.last().0,
                points.last().1,
                answers,
            )
        }
    }

    /// The nodes that are handed out when the file is closed, each with its records:
    /// the root first, the deepest node last.
    pub open spec fn left(self) -> Seq<(VoxelKey, Seq<Seq<u8>>)> {
        let groups = crate::grouping::grouped(self.chunks, self.min_node_size as int);
        let keys = crate::grouping::group_keys(self.chunks, self.min_node_size as int);
        Seq::new(
            keys.len(),
            |i: int| (keys[keys.len() - 1 - i], groups[keys[keys.len() - 1 - i]]),
        )
    }

    /// The ledger once the file is closed.
    pub open spec fn closed(self) -> Ledger {
        Ledger { chunks: Map::empty(), handed: self.handed + self.left(), ..self }
    }
}

/// The ledger that a writer comes to once what the session has begun is done, where
/// `record` is the record of the point that is on its way.
pub open spec fn outlook(
    writer: WriterView,
    session: SessionView,
    record: Seq<u8>,
    answers: Answers,
) -> Ledger {
    let ledger = Ledger::of(writer, session.error);
    match session.phase {
        Phase::Idle => ledger,
        Phase::Dividing { node, position } => ledger.put_below(
            node as int,
            position,
            record,
            answers,
        ),
        Phase::Descending { at, position } => ledger.put_from(at, position, record, answers),
        Phase::Encoding { key, full } => ledger.recorded(key, full, record),
        Phase::Spilling { victim, key, full, bytes } => ledger.recorded(key, full, bytes@),
        Phase::Filing { key, full, bytes } => ledger.recorded(key, full, bytes@),
        Phase::Compressing { key, records } => Ledger {
            handed: ledger.handed.push((key, records@)),
            ..ledger
        },
        Phase::Closing { key, records, rest } => Ledger {
            handed: ledger.handed.push((key, records@)) + backward(rest@),
            ..ledger
        },
        Phase::Failed => ledger,
    }
}

proof fn lemma_store_changes(store: crate::chunk_store::StoreView, key: VoxelKey, bytes: Seq<u8>)
    ensures
        ({
            let chunks = crate::grouping::chunk_records(store.chunks);
            let grown = crate::grouping::records_at(chunks, key).push(bytes);
            &&& crate::grouping::chunk_records(store.stored(key, bytes).chunks) == chunks.insert(
                key,
                grown,
            )
            &&& crate::grouping::chunk_records(store.filed(key, bytes).chunks) == chunks.insert(
                key,
                grown,
            )
            &&& store.chunks.contains_key(key) ==> crate::grouping::chunk_records(
                store.spill(key).chunks,
            ) == chunks
            &&& crate::grouping::chunk_records(store.removed(key).chunks) == chunks.remove(key)
        }),
{
    let chunks = crate::grouping::chunk_records(store.chunks);
    let grown = crate::grouping::records_at(chunks, key).push(bytes);
    assert(crate::grouping::chunk_records(store.stored(key, bytes).chunks) =~= chunks.insert(
        key,
        grown,
    ));
    assert(crate::grouping::chunk_records(store.filed(key, bytes).chunks) =~= chunks.insert(
        key,
        grown,
    ));
    if store.chunks.contains_key(key) {
        assert(crate::grouping::chunk_records(store.spill(key).chunks) =~= chunks);
    }
    assert(crate::grouping::chunk_records(store.removed(key).chunks) =~= chunks.remove(key));
}

/// A record that was added leads on to the ledger with it.
pub proof fn lemma_settling_keeps_outlook(
    before: WriterView,
    key: VoxelKey,
    full: bool,
    bytes: Seq<u8>,
    stored: WriterView,
    after: WriterView,
    session: SessionView,
    action: Action,
    record: Seq<u8>,
    answers: Answers,
)
    requires
        stored.store == before.store.stored(key, bytes) || stored.store == before.store.filed(
            key,
            bytes,
        ),
        stored == (WriterView { store: stored.store, ..before }),
        crate::steps::settles(stored, key, full, after, session.phase, action),
    ensures
        outlook(after, session, record, answers) == Ledger::of(before, session.error).recorded(
            key,
            full,
            bytes,
        ),
{
    let ledger = Ledger::of(before, session.error);
    lemma_store_changes(before.store, key, bytes);
    lemma_store_changes(stored.store, key, bytes);
    if full {
        assert(ledger.chunks.insert(key, stored.store.records(key)).remove(key)
            =~= ledger.chunks.remove(key));
        assert(outlook(after, session, record, answers) =~= ledger.recorded(key, full, bytes));
    }
}

/// A record that is being added leads on to the ledger with it, whatever moves to
/// files on the way.
pub proof fn lemma_adding_keeps_outlook(
    before: WriterView,
    key: VoxelKey,
    full: bool,
    bytes: Vec<u8>,
    resumed: bool,
    after: WriterView,
    session: SessionView,
    action: Action,
    record: Seq<u8>,
    answers: Answers,
)
    requires
        crate::steps::adds_record(before, key, full, bytes, resumed, after, session.phase, action),
    ensures
        outlook(after, session, record, answers) == Ledger::of(before, session.error).recorded(
            key,
            full,
            bytes@,
        ),
{
    let store = before.store;
    let short = store.lacks_room_for(bytes@.len());
    if (resumed || !store.spilled(key)) && short && exists|other: VoxelKey| #[trigger]
        store.in_memory(other) {
    } else if store.spilled(key) || short {
    } else {
        lemma_settling_keeps_outlook(
            before,
            key,
            full,
            bytes@,
            WriterView { store: store.stored(key, bytes@), ..before },
            after,
            session,
            action,
            record,
            answers,
        );
    }
}

/// A chunk that moves to a file leaves the ledger as it is.
pub proof fn lemma_spilling_keeps_ledger(
    writer: WriterView,
    victim: VoxelKey,
    error: Option<PointAddError>,
)
    requires
        writer.store.chunks.contains_key(victim),
    ensures
        Ledger::of(WriterView { store: writer.store.spill(victim), ..writer }, error)
            == Ledger::of(writer, error),
{
    lemma_store_changes(writer.store, victim, Seq::empty());
}

/// A group that is handed out is the next one of those that are left.
pub proof fn lemma_handing_out_keeps_outlook(
    writer: WriterView,
    list: Seq<Group>,
    session: SessionView,
    action: Action,
    record: Seq<u8>,
    answers: Answers,
)
    requires
        crate::steps::hands_out(list, session.phase, action),
    ensures
        outlook(writer, session, record, answers) == (Ledger {
            handed: writer.handed + backward(list),
            ..Ledger::of(writer, session.error)
        }),
{
    let end = Ledger {
        handed: writer.handed + backward(list),
        ..Ledger::of(writer, session.error)
    };
    if list.len() > 0 {
        let group = list.last();
        assert(writer.handed.push((group.key, group.records())) + backward(list.drop_last())
            =~= writer.handed + backward(list));
    }
    assert(outlook(writer, session, record, answers) =~= end);
}

/// When the file is closed, all that is left is handed out.
pub proof fn lemma_closing_keeps_outlook(
    before: WriterView,
    after: WriterView,
    list: Seq<Group>,
    session: SessionView,
    action: Action,
    record: Seq<u8>,
    answers: Answers,
)
    requires
        has_no_empty_record(Ledger::of(before, session.error)),
        before.lists_what_is_left(list),
        crate::steps::hands_out(list, session.phase, action),
        after == (WriterView {
            store: crate::chunk_store::StoreView { chunks: Map::empty(), ..before.store },
            ..before
        }),
    ensures
        outlook(after, session, record, answers) == Ledger::of(before, session.error).closed(),
{
    let ledger = Ledger::of(before, session.error);
    lemma_handing_out_keeps_outlook(after, list, session, action, record, answers);
    assert forall|key: VoxelKey| #[trigger] before.store.chunks.contains_key(key) implies
        before.store.chunks[key].content().len() > 0 by {
        assert(ledger.chunks.contains_key(key));
        let records = ledger.chunks[key];
        assert(records.last().len() > 0);
    }
    assert(crate::chunk_store::to_compress(before.store.chunks) =~= before.store.chunks);
    assert(backward(list) =~= ledger.left()) by {
        let keys = crate::grouping::group_keys(ledger.chunks, ledger.min_node_size as int);
        assert forall|i: int| 0 <= i < list.len() implies (#[trigger] backward(list)[i])
            == ledger.left()[i] by {
            assert(list[list.len() - 1 - i].key == keys[list.len() - 1 - i]);
        }
    }
    assert(outlook(after, session, record, answers) =~= ledger.closed());
}

/// Whether every chunk has a record, and no record is empty.
pub open spec fn has_no_empty_record(ledger: Ledger) -> bool {
    forall|key: VoxelKey| #[trigger]
        ledger.chunks.contains_key(key) ==> {
            &&& ledger.chunks[key].len() > 0
            &&& forall|i: int|
                0 <= i < ledger.chunks[key].len() ==> (#[trigger] ledger.chunks[key][i]).len() > 0
        }
}

/// What the caller is asked for leads on to the ledger in view: the record of the point
/// goes to the chunk that it is asked for, or the one that waits goes to the file of that
/// chunk; the point goes on from the node in whose grid its place is asked for; the box
/// whose center is asked for is that of the node that is divided there; and what is to be
/// compressed is what is handed out next.
pub proof fn lemma_caller_is_asked_for_what_is_next(
    writer: WriterView,
    session: SessionView,
    action: Action,
    record: Seq<u8>,
    answers: Answers,
)
    requires
        crate::steps::asks_for(writer, session.phase, action),
    ensures
        ({
            let ledger = Ledger::of(writer, session.error);
            let view = outlook(writer, session, record, answers);
            &&& action matches Action::Encode { key } ==> view == ledger.recorded(key, true, record)
                || view == ledger.recorded(key, false, record)
            &&& action matches Action::Locate { node } ==> session.phase is Descending
                && view == ledger.put_from(
                node,
                session.phase->Descending_position,
                record,
                answers,
            )
            &&& action matches Action::FindCenter { key, bounds } ==> {
                &&& session.phase matches Phase::Dividing { node, position }
                &&& writer.octree.nodes[node as int].bounds == bounds
                &&& writer.octree.nodes[node as int].entry.key == key
                &&& view == ledger.put_below(node as int, position, record, answers)
            }
            &&& action matches Action::AppendFile { key } ==> {
                let waiting = crate::session::waiting_record(session.phase)->0;
                &&& crate::session::waiting_record(session.phase) is Some
                &&& view == ledger.recorded(key, true, waiting) || view == ledger.recorded(
                    key,
                    false,
                    waiting,
                )
            }
            &&& action matches Action::NewFile { key } ==> {
                let waiting = crate::session::waiting_record(session.phase)->0;
                &&& crate::session::waiting_record(session.phase) is Some
                &&& view == ledger.recorded(key, true, waiting) || view == ledger.recorded(
                    key,
                    false,
                    waiting,
                )
            }
            &&& action matches Action::Compress { group } ==> {
                &&& view.handed.len() > writer.handed.len()
                &&& view.handed[writer.handed.len() as int] == (group.key, group.records())
            }
            &&& action is Done || action is Finish ==> view == ledger
        }),
{
}

/// Points share a cell of a node exactly where they have the same place in its grid,
/// along all three axes.
pub proof fn lemma_cells_are_places_in_the_grid(
    answers: Answers,
    p: Position,
    q: Position,
    node: VoxelNode,
    grid: int,
)
    requires
        1 <= grid <= crate::voxel::MAX_GRID,
        ({
            let a = (answers.place)(node, p);
            let b = (answers.place)(node, q);
            &&& 0 <= a.x < grid && 0 <= a.y < grid && 0 <= a.z < grid
            &&& 0 <= b.x < grid && 0 <= b.y < grid && 0 <= b.z < grid
        }),
    ensures
        cells_of(answers, p, grid)(node) == cells_of(answers, q, grid)(node) <==> {
            let a = (answers.place)(node, p);
            let b = (answers.place)(node, q);
            a.x == b.x && a.y == b.y && a.z == b.z
        },
{
    let a = (answers.place)(node, p);
    let b = (answers.place)(node, q);
    crate::voxel::lemma_cell_number_is_bounded(a.x as int, a.y as int, a.z as int, grid);
    crate::voxel::lemma_cell_number_is_bounded(b.x as int, b.y as int, b.z as int, grid);
    if cells_of(answers, p, grid)(node) == cells_of(answers, q, grid)(node) {
        crate::voxel::lemma_cell_numbers_differ(
            a.x as int,
            a.y as int,
            a.z as int,
            b.x as int,
            b.y as int,
            b.z as int,
            grid,
        );
    }
}

/// A ledger has what the writer has: the records of every chunk, wherever they are, and
/// the rest as it is.
pub proof fn lemma_ledger_has_what_the_writer_has(
    writer: WriterView,
    error: Option<PointAddError>,
    key: VoxelKey,
)
    ensures
        ({
            let ledger = Ledger::of(writer, error);
            &&& ledger.chunks.contains_key(key) <==> writer.store.chunks.contains_key(key)
            &&& writer.store.chunks.contains_key(key) ==> ledger.chunks[key]
                == writer.store.chunks[key].records
            &&& ledger.points == writer.points && ledger.info == writer.info
            &&& ledger.octree == writer.octree && ledger.claimed == writer.claimed
            &&& ledger.handed == writer.handed && ledger.error == error
            &&& ledger.min_node_size == writer.min_node_size
            &&& ledger.max_node_size == writer.max_node_size
            &&& ledger.max_level == writer.max_level && ledger.format == writer.format
            &&& ledger.cube() == writer.octree.nodes[0].bounds
        }),
{
}

} // verus!
