//! The way of a point into the file, step by step. Each step takes what the
//! caller found out or did, and says what the caller has to do next.

use crate::chunk_store::AppendStep;
use crate::error::CopcError;
use crate::geometry::Position;
use crate::grouping::Group;
use crate::key::VoxelKey;
use crate::ledger::{Answers, Ledger};
use crate::octree::PlaceStep;
use crate::session::{Action, Phase, Session, SessionView};
use crate::voxel::{VoxelNode, VoxelStep};
use crate::writer::{CopcWriter, GridIndices, PointInfo, WriterView};
use vstd::prelude::*;

verus! {

/// Whether the last group of `list` is handed out to be compressed while the file
/// is closed, or, where there is none, the file can be finished.
pub open spec fn hands_out(list: Seq<Group>, phase: Phase, action: Action) -> bool {
    if list.len() == 0 {
        phase is Idle && action is Finish
    } else {
        &&& phase matches Phase::Closing { key, records, rest }
        &&& key == list.last().key
        &&& records@ == list.last().records()
        &&& rest@ == list.drop_last()
        &&& action == (Action::Compress { group: list.last() })
    }
}

/// Whether the writer is as the phase takes it to be.
pub open spec fn consistent(writer: WriterView, phase: Phase) -> bool {
    match phase {
        Phase::Dividing { node, position } => {
            &&& crate::geometry::contains(writer.cube(), position)
            &&& node == writer.octree.find(0, position)
            &&& node < writer.octree.nodes.len()
            &&& writer.octree.nodes[node as int].full(writer.max_node_size)
        },
        Phase::Spilling { victim, key, full, bytes } => {
            &&& writer.store.in_memory(victim)
            &&& writer.store.points(key) < u32::MAX
        },
        Phase::Filing { key, full, bytes } => {
            &&& !writer.store.in_memory(key)
            &&& writer.store.points(key) < u32::MAX
        },
        Phase::Closing { key, records, rest } => forall|i: int|
            0 <= i < rest@.len() ==> (#[trigger] rest@[i]).wf(),
        _ => true,
    }
}

/// Whether `action` asks the caller for what the phase waits for.
pub open spec fn asks_for(writer: WriterView, phase: Phase, action: Action) -> bool {
    match phase {
        Phase::Idle => action is Done || action is Finish,
        Phase::Dividing { node, position } => action == (Action::FindCenter {
            key: writer.octree.nodes[node as int].entry.key,
            bounds: writer.octree.nodes[node as int].bounds,
        }),
        Phase::Descending { at, position } => action == (Action::Locate { node: at }),
        Phase::Encoding { key, full } => action == (Action::Encode { key }),
        Phase::Spilling { victim, key, full, bytes } => action == (Action::Spill { victim }),
        Phase::Filing { key, full, bytes } => if writer.store.spilled(key) {
            action == (Action::AppendFile { key })
        } else {
            action == (Action::NewFile { key })
        },
        Phase::Compressing { key, records } => {
            &&& action matches Action::Compress { group }
            &&& group.key == key && group.records() == records@ && group.wf()
        },
        Phase::Closing { key, records, rest } => {
            &&& action matches Action::Compress { group }
            &&& group.key == key && group.records() == records@ && group.wf()
        },
        Phase::Failed => action is Stop,
    }
}

/// Whether a point at `p` is put into the first node that contains it and has
/// room, or waits for the full node it comes to to be divided. Where a node can be too
/// small, the root stays in the store when it is full, to take in what is too small for
/// a node of its own.
pub open spec fn seeks_node(
    before: WriterView,
    p: Position,
    after: WriterView,
    phase: Phase,
    action: Action,
) -> bool {
    let i = before.octree.find(0, p);
    let node = before.octree.nodes[i];
    if node.full(before.max_node_size) {
        &&& after == before
        &&& phase == (Phase::Dividing { node: i as usize, position: p })
        &&& action == (Action::FindCenter { key: node.entry.key, bounds: node.bounds })
    } else {
        &&& after == (WriterView { octree: before.octree.placed(i), ..before })
        &&& phase == (Phase::Encoding {
            key: node.entry.key,
            full: node.with_point().full(before.max_node_size) && (node.entry.key.level != 0
                || before.min_node_size == 1),
        })
        &&& action == (Action::Encode { key: node.entry.key })
    }
}

/// Whether a record that has just been added to the chunk of `key` is done with,
/// or, where the node is `full`, its chunk is handed out to be compressed.
pub open spec fn settles(
    before: WriterView,
    key: VoxelKey,
    full: bool,
    after: WriterView,
    phase: Phase,
    action: Action,
) -> bool {
    if full {
        &&& after == (WriterView { store: before.store.removed(key), ..before })
        &&& phase == (Phase::Compressing { key, records: Ghost(before.store.records(key)) })
        &&& action matches Action::Compress { group }
        &&& group.key == key
        &&& group.records() == before.store.records(key)
        &&& group.wf()
    } else {
        &&& after == before
        &&& phase is Idle
        &&& action is Done
    }
}

/// Whether a record goes to its chunk: to memory where there is room, else a
/// largest chunk leaves memory first, else to a file. With `resumed`, room was
/// looked for before; without, a chunk that is in a file grows there at once.
pub open spec fn adds_record(
    before: WriterView,
    key: VoxelKey,
    full: bool,
    bytes: Vec<u8>,
    resumed: bool,
    after: WriterView,
    phase: Phase,
    action: Action,
) -> bool {
    let store = before.store;
    let short = store.lacks_room_for(bytes@.len());
    if (resumed || !store.spilled(key)) && short && exists|other: VoxelKey| #[trigger]
        store.in_memory(other) {
        &&& after == before
        &&& phase matches Phase::Spilling { victim, key: its, full: f, bytes: kept }
        &&& its == key
        &&& f == full
        &&& kept == bytes
        &&& store.is_largest(victim)
        &&& action == (Action::Spill { victim })
    } else if store.spilled(key) || short {
        &&& after == before
        &&& phase == (Phase::Filing { key, full, bytes })
        &&& action == (if store.spilled(key) {
            Action::AppendFile { key }
        } else {
            Action::NewFile { key }
        })
    } else {
        settles(
            WriterView { store: store.stored(key, bytes@), ..before },
            key,
            full,
            after,
            phase,
            action,
        )
    }
}

/// Whether the nodes that are left are handed out, one after another.
/// Each has the least number of points, unless it is the only one.
pub open spec fn starts_closing(before: WriterView, phase: Phase, action: Action) -> bool {
    exists|list: Seq<Group>|
        before.lists_what_is_left(list) && crate::grouping::none_is_small(
            list,
            before.min_node_size as int,
        ) && #[trigger] hands_out(list, phase, action)
}

impl CopcWriter {
    /// Offers a point to the file. A point that does not match the format or is
    /// outside the cube is left out, and the session notes why.
    pub fn offer_point(&mut self, session: &mut Session, point: &PointInfo) -> (action: Action)
        requires
            old(self).wf(),
            old(session).wf(),
            old(session)@.phase is Idle,
            old(self)@.points < u64::MAX,
        ensures
            final(self).wf(),
            final(session).wf(),
            final(self).dir() == old(self).dir(),
            consistent(final(self)@, final(session)@.phase),
            ({
                let before = old(self)@;
                let offer = before.offer(*point);
                let counted = WriterView {
                    points: before.points + 1,
                    info: crate::writer::with_time(before.info, point.gps_time),
                    ..before
                };
                let root = VoxelNode { key: VoxelKey::root(), bounds: before.cube() };
                &&& final(session)@ == (SessionView {
                    error: crate::ingest::noted(old(session)@.error, offer, before.format),
                    phase: final(session)@.phase,
                    ..old(session)@
                })
                &&& if !offer.taken() {
                    &&& final(self)@ == before
                    &&& final(session)@.phase is Idle
                    &&& action is Done
                } else if old(session)@.greedy {
                    seeks_node(
                        counted,
                        point.position,
                        final(self)@,
                        final(session)@.phase,
                        action,
                    )
                } else {
                    &&& final(self)@ == counted
                    &&& final(session)@.phase == (Phase::Descending {
                        at: root,
                        position: point.position,
                    })
                    &&& action == (Action::Locate { node: root })
                }
            }),
            forall|record: Seq<u8>, answers: Answers| #[trigger]
                crate::ledger::outlook(final(self)@, final(session)@, record, answers) == Ledger::of(
                    old(self)@,
                    old(session)@.error,
                ).taken(old(session)@.greedy, *point, record, answers),
            asks_for(final(self)@, final(session)@.phase, action),
    {
        if !self.take_in(session, point) {
            return Action::Done;
        }
        if session.is_greedy() {
            return self.seek_node(session, &point.position);
        }
        let node: VoxelNode = self.root_voxel();
        session.set_phase(Phase::Descending { at: node, position: point.position });
        Action::Locate { node }
    }

    fn seek_node(&mut self, session: &mut Session, p: &Position) -> (action: Action)
        requires
            old(self).wf(),
            old(session).wf(),
            crate::geometry::contains(old(self)@.cube(), *p),
        ensures
            final(self).wf(),
            final(session).wf(),
            final(self).dir() == old(self).dir(),
            final(session)@ == (SessionView { phase: final(session)@.phase, ..old(session)@ }),
            seeks_node(old(self)@, *p, final(self)@, final(session)@.phase, action),
            consistent(final(self)@, final(session)@.phase),
    {
        proof {
            self.lemma_parts_are_wf();
            crate::octree::lemma_find_contains(self@.octree, 0, *p);
        }
        match self.add_point_greedy(p) {
            Ok(PlaceStep::Placed { key, full }) => {
                let full: bool = full && (key.level != 0 || self.min_node_size() == 1);
                session.set_phase(Phase::Encoding { key, full });
                Action::Encode { key }
            },
            Ok(PlaceStep::Divide { node, key, bounds }) => {
                session.set_phase(Phase::Dividing { node, position: *p });
                Action::FindCenter { key, bounds }
            },
            Ok(PlaceStep::Outside) => Action::Stop,
            Err(_) => Action::Stop,
        }
    }

    /// Divides the full octree node that a point came to at `center`, and puts the
    /// point into one of its octants.
    pub fn center_found(&mut self, session: &mut Session, center: &Position) -> (action: Action)
        requires
            old(self).wf(),
            old(session).wf(),
            consistent(old(self)@, old(session)@.phase),
            old(session)@.phase matches Phase::Dividing { node, position }
                && old(self)@.octree.nodes[node as int].entry.key.level < i32::MAX,
        ensures
            final(self).wf(),
            final(session).wf(),
            final(self).dir() == old(self).dir(),
            consistent(final(self)@, final(session)@.phase),
            final(session)@ == (SessionView { phase: final(session)@.phase, ..old(session)@ }),
            old(session)@.phase matches Phase::Dividing { node, position } ==> seeks_node(
                WriterView {
                    octree: old(self)@.octree.divided(node as int, *center),
                    ..old(self)@
                },
                position,
                final(self)@,
                final(session)@.phase,
                action,
            ),
            action is Encode,
            forall|record: Seq<u8>, answers: Answers|
                #![trigger crate::ledger::outlook(final(self)@, final(session)@, record, answers)]
                old(session)@.phase matches Phase::Dividing { node, position } && (answers.center)(
                    old(self)@.octree.nodes[node as int].bounds,
                ) == *center ==>
                    crate::ledger::outlook(final(self)@, final(session)@, record, answers)
                    == crate::ledger::outlook(
                    old(self)@,
                    old(session)@,
                    record,
                    answers,
                ),
            asks_for(final(self)@, final(session)@.phase, action),
    {
        proof {
            self.lemma_parts_are_wf();
        }
        match session.take_phase() {
            Phase::Dividing { node, position } => {
                proof {
                    let tree = self@.octree;
                    crate::octree::lemma_find_contains(tree, 0, position);
                    crate::octree::lemma_division_makes_room(tree, *center, position);
                }
                self.divide_node(node, center);
                self.seek_node(session, &position)
            },
            _ => Action::Stop,
        }
    }

    /// Takes a point on from the node it came to, where it has the grid coordinates
    /// `indices` and the box of the node has the center `center`.
    pub fn located(
        &mut self,
        session: &mut Session,
        indices: &GridIndices,
        center: &Position,
    ) -> (action: Action)
        requires
            old(self).wf(),
            old(session).wf(),
            old(session)@.phase is Descending,
        ensures
            final(self).wf(),
            final(session).wf(),
            final(self).dir() == old(self).dir(),
            consistent(final(self)@, final(session)@.phase),
            final(session)@ == (SessionView { phase: final(session)@.phase, ..old(session)@ }),
            old(session)@.phase matches Phase::Descending { at: node, position } ==> {
                let before = old(self)@;
                let cell = crate::voxel::cell_number(
                    indices.x as int,
                    indices.y as int,
                    indices.z as int,
                    crate::voxel::grid_of(before.max_node_size),
                ) as u64;
                &&& final(self)@ == (WriterView {
                    claimed: before.claimed.insert((node.key, cell)),
                    ..before
                })
                &&& if !before.claimed.contains((node.key, cell)) || node.key.level
                    >= before.max_level {
                    &&& final(session)@.phase == (Phase::Encoding { key: node.key, full: false })
                    &&& action == (Action::Encode { key: node.key })
                } else {
                    &&& final(session)@.phase == (Phase::Descending {
                        at: node.toward(position, *center),
                        position,
                    })
                    &&& action == (Action::Locate { node: node.toward(position, *center) })
                }
            },
            forall|record: Seq<u8>, answers: Answers|
                #![trigger crate::ledger::outlook(final(self)@, final(session)@, record, answers)]
                old(session)@.phase matches Phase::Descending { at: node, position } && (
                answers.place)(node, position) == *indices && (answers.center)(node.bounds)
                    == *center ==> crate::ledger::outlook(final(self)@, final(session)@, record, answers)
                    == crate::ledger::outlook(old(self)@, old(session)@, record, answers),
            asks_for(final(self)@, final(session)@.phase, action),
    {
        match session.take_phase() {
            Phase::Descending { at: node, position } => {
                match self.add_point_voxel(&node, indices, &position, center) {
                    VoxelStep::Place { key } => {
                        session.set_phase(Phase::Encoding { key, full: false });
                        Action::Encode { key }
                    },
                    VoxelStep::Descend { node: next } => {
                        session.set_phase(Phase::Descending { at: next, position });
                        Action::Locate { node: next }
                    },
                }
            },
            _ => Action::Stop,
        }
    }

    /// Adds the record of a point to the chunk of the node that it was put into.
    pub fn encoded(&mut self, session: &mut Session, bytes: Vec<u8>) -> (action: Action)
        requires
            old(self).wf(),
            old(session).wf(),
            old(session)@.phase matches Phase::Encoding { key, full } && old(self)@.store.points(key)
                < u32::MAX,
        ensures
            final(self).wf(),
            final(session).wf(),
            final(self).dir() == old(self).dir(),
            consistent(final(self)@, final(session)@.phase),
            final(session)@ == (SessionView { phase: final(session)@.phase, ..old(session)@ }),
            old(session)@.phase matches Phase::Encoding { key, full } ==> adds_record(
                old(self)@,
                key,
                full,
                bytes,
                false,
                final(self)@,
                final(session)@.phase,
                action,
            ),
            forall|answers: Answers| #[trigger]
                crate::ledger::outlook(final(self)@, final(session)@, bytes@, answers)
                    == crate::ledger::outlook(
                    old(self)@,
                    old(session)@,
                    bytes@,
                    answers,
                ),
            asks_for(final(self)@, final(session)@.phase, action),
    {
        proof {
            self.lemma_parts_are_wf();
        }
        match session.take_phase() {
            Phase::Encoding { key, full } => {
                let step: AppendStep = self.write_point_to_open_chunk(key, bytes);
                let action: Action = self.follow(session, key, full, step);
                proof {
                    assert forall|answers: Answers| #[trigger]
                        crate::ledger::outlook(self@, session@, bytes@, answers)
                            == crate::ledger::outlook(
                            old(self)@,
                            old(session)@,
                            bytes@,
                            answers,
                        ) by {
                        crate::ledger::lemma_adding_keeps_outlook(
                            old(self)@,
                            key,
                            full,
                            bytes,
                            false,
                            self@,
                            session@,
                            action,
                            bytes@,
                            answers,
                        );
                    }
                }
                action
            },
            _ => Action::Stop,
        }
    }

    fn follow(&mut self, session: &mut Session, key: VoxelKey, full: bool, step: AppendStep) -> (action:
        Action)
        requires
            old(self).wf(),
            old(session).wf(),
            step is Stored ==> old(self)@.store.chunks.contains_key(key),
        ensures
            final(self).wf(),
            final(session).wf(),
            final(self).dir() == old(self).dir(),
            final(session)@ == (SessionView { phase: final(session)@.phase, ..old(session)@ }),
            match step {
                AppendStep::Stored => settles(
                    old(self)@,
                    key,
                    full,
                    final(self)@,
                    final(session)@.phase,
                    action,
                ),
                AppendStep::MakeRoom { victim, bytes } => {
                    &&& final(self)@ == old(self)@
                    &&& final(session)@.phase == (Phase::Spilling { victim, key, full, bytes })
                    &&& action == (Action::Spill { victim })
                },
                AppendStep::AppendToFile { bytes } => {
                    &&& final(self)@ == old(self)@
                    &&& final(session)@.phase == (Phase::Filing { key, full, bytes })
                    &&& action == (Action::AppendFile { key })
                },
                AppendStep::NewFile { bytes } => {
                    &&& final(self)@ == old(self)@
                    &&& final(session)@.phase == (Phase::Filing { key, full, bytes })
                    &&& action == (Action::NewFile { key })
                },
            },
    {
        match step {
            AppendStep::Stored => self.settle(session, key, full),
            AppendStep::MakeRoom { victim, bytes } => {
                session.set_phase(Phase::Spilling { victim, key, full, bytes });
                Action::Spill { victim }
            },
            AppendStep::AppendToFile { bytes } => {
                session.set_phase(Phase::Filing { key, full, bytes });
                Action::AppendFile { key }
            },
            AppendStep::NewFile { bytes } => {
                session.set_phase(Phase::Filing { key, full, bytes });
                Action::NewFile { key }
            },
        }
    }

    fn settle(&mut self, session: &mut Session, key: VoxelKey, full: bool) -> (action: Action)
        requires
            old(self).wf(),
            old(session).wf(),
            old(self)@.store.chunks.contains_key(key),
        ensures
            final(self).wf(),
            final(session).wf(),
            final(self).dir() == old(self).dir(),
            final(session)@ == (SessionView { phase: final(session)@.phase, ..old(session)@ }),
            settles(old(self)@, key, full, final(self)@, final(session)@.phase, action),
    {
        if !full {
            session.set_phase(Phase::Idle);
            return Action::Done;
        }
        match self.take_chunk(&key) {
            Some(chunk) => {
                let ghost records: Seq<Seq<u8>> = chunk@.records;
                let group: Group = Group::of_chunk(key, chunk);
                session.set_phase(Phase::Compressing { key, records: Ghost(records) });
                Action::Compress { group }
            },
            None => Action::Stop,
        }
    }

    /// Takes note of an attempt to write the chunk that had to leave memory to a
    /// file. Where all of it was written, the record goes on; else the chunk and the
    /// record are lost.
    pub fn spilled(&mut self, session: &mut Session, written: bool) -> (action: Action)
        requires
            old(self).wf(),
            old(session).wf(),
            consistent(old(self)@, old(session)@.phase),
            old(session)@.phase is Spilling,
        ensures
            final(self).wf(),
            final(session).wf(),
            final(self).dir() == old(self).dir(),
            consistent(final(self)@, final(session)@.phase),
            final(session)@ == (SessionView { phase: final(session)@.phase, ..old(session)@ }),
            old(session)@.phase matches Phase::Spilling { victim, key, full, bytes } ==> {
                if written {
                    adds_record(
                        WriterView { store: old(self)@.store.spill(victim), ..old(self)@ },
                        key,
                        full,
                        bytes,
                        true,
                        final(self)@,
                        final(session)@.phase,
                        action,
                    )
                } else {
                    &&& final(self)@ == (WriterView {
                        store: old(self)@.store.lost(victim),
                        ..old(self)@
                    })
                    &&& final(session)@.phase is Failed
                    &&& action is Stop
                }
            },
            written ==> forall|record: Seq<u8>, answers: Answers| #[trigger]
                crate::ledger::outlook(final(self)@, final(session)@, record, answers)
                    == crate::ledger::outlook(
                    old(self)@,
                    old(session)@,
                    record,
                    answers,
                ),
            asks_for(final(self)@, final(session)@.phase, action),
    {
        proof {
            self.lemma_parts_are_wf();
        }
        match session.take_phase() {
            Phase::Spilling { victim, key, full, bytes } => {
                match self.chunk_spilled(&victim, written, key, bytes) {
                    Some(step) => {
                        let action: Action = self.follow(session, key, full, step);
                        proof {
                            let moved = WriterView {
                                store: old(self)@.store.spill(victim),
                                ..old(self)@
                            };
                            crate::ledger::lemma_spilling_keeps_ledger(
                                old(self)@,
                                victim,
                                session@.error,
                            );
                            assert forall|record: Seq<u8>, answers: Answers| #[trigger]
                                crate::ledger::outlook(self@, session@, record, answers)
                                    == crate::ledger::outlook(
                                    old(self)@,
                                    old(session)@,
                                    record,
                                    answers,
                                ) by {
                                crate::ledger::lemma_adding_keeps_outlook(
                                    moved,
                                    key,
                                    full,
                                    bytes,
                                    true,
                                    self@,
                                    session@,
                                    action,
                                    record,
                                    answers,
                                );
                            }
                        }
                        action
                    },
                    None => Action::Stop,
                }
            },
            _ => Action::Stop,
        }
    }

    /// Takes note that the record was written to the file of its chunk.
    pub fn filed(&mut self, session: &mut Session) -> (action: Action)
        requires
            old(self).wf(),
            old(session).wf(),
            consistent(old(self)@, old(session)@.phase),
            old(session)@.phase matches Phase::Filing { key, full, bytes } && (
            old(self)@.store.spilled(key) ==> old(self)@.store.content(key).len() + bytes@.len()
                <= u64::MAX),
        ensures
            final(self).wf(),
            final(session).wf(),
            final(self).dir() == old(self).dir(),
            consistent(final(self)@, final(session)@.phase),
            final(session)@ == (SessionView { phase: final(session)@.phase, ..old(session)@ }),
            old(session)@.phase matches Phase::Filing { key, full, bytes } ==> settles(
                WriterView { store: old(self)@.store.filed(key, bytes@), ..old(self)@ },
                key,
                full,
                final(self)@,
                final(session)@.phase,
                action,
            ),
            forall|record: Seq<u8>, answers: Answers| #[trigger]
                crate::ledger::outlook(final(self)@, final(session)@, record, answers)
                    == crate::ledger::outlook(
                    old(self)@,
                    old(session)@,
                    record,
                    answers,
                ),
            asks_for(final(self)@, final(session)@.phase, action),
    {
        proof {
            self.lemma_parts_are_wf();
        }
        match session.take_phase() {
            Phase::Filing { key, full, bytes } => {
                self.record_filed(key, &bytes);
                let ghost stored: WriterView = self@;
                let action: Action = self.settle(session, key, full);
                proof {
                    assert forall|record: Seq<u8>, answers: Answers| #[trigger]
                        crate::ledger::outlook(self@, session@, record, answers)
                            == crate::ledger::outlook(
                            old(self)@,
                            old(session)@,
                            record,
                            answers,
                        ) by {
                        crate::ledger::lemma_settling_keeps_outlook(
                            old(self)@,
                            key,
                            full,
                            bytes@,
                            stored,
                            self@,
                            session@,
                            action,
                            record,
                            answers,
                        );
                    }
                }
                action
            },
            _ => Action::Stop,
        }
    }

    /// Enters the compressed chunk of a full node in the hierarchy.
    pub fn compressed(
        &mut self,
        session: &mut Session,
        offset: u64,
        byte_count: u64,
        point_count: u64,
    ) -> (action: Action)
        requires
            old(self).wf(),
            old(session).wf(),
            old(session)@.phase is Compressing,
        ensures
            final(self).wf(),
            final(session).wf(),
            final(self).dir() == old(self).dir(),
            consistent(final(self)@, final(session)@.phase),
            final(session)@ == (SessionView { phase: Phase::Idle, ..old(session)@ }),
            action is Done,
            old(session)@.phase matches Phase::Compressing { key, records } ==> {
                &&& final(self)@ == old(self)@.entering(
                    key,
                    offset,
                    byte_count,
                    point_count,
                    records@,
                )
            },
            forall|record: Seq<u8>, answers: Answers| #[trigger]
                crate::ledger::outlook(final(self)@, final(session)@, record, answers)
                    == crate::ledger::outlook(
                    old(self)@,
                    old(session)@,
                    record,
                    answers,
                ),
            crate::laws::is_entered(old(self)@.entries, old(self)@.handed) && (
            old(session)@.phase matches Phase::Compressing { key, records } && point_count == records@.len()
                <= i32::MAX) ==> crate::laws::is_entered(final(self)@.entries, final(self)@.handed),
            old(session)@.phase matches Phase::Compressing { key, records } ==> crate::writer::says_where(
                final(self)@.entries.last(),
                key,
                offset,
                byte_count,
                point_count,
            ),
            asks_for(final(self)@, final(session)@.phase, action),
    {
        match session.take_phase() {
            Phase::Compressing { key, records } => {
                self.record_chunk(key, offset, byte_count, point_count, records);
                session.set_phase(Phase::Idle);
                Action::Done
            },
            _ => Action::Stop,
        }
    }

    /// Starts to close the file. It is an error if the writer is closed, or if no
    /// point was taken in. Else the chunks that are left are put together, so that no
    /// node has too few points, and the nodes are to be compressed.
    pub fn close(&mut self, session: &mut Session) -> (res: Result<Action, CopcError>)
        requires
            old(self).wf(),
            old(session).wf(),
        ensures
            final(self).wf(),
            final(session).wf(),
            final(self).dir() == old(self).dir(),
            final(session)@ == (SessionView { phase: final(session)@.phase, ..old(session)@ }),
            if old(self)@.closed {
                &&& res == Err::<Action, CopcError>(CopcError::ClosedWriter)
                &&& final(self)@ == old(self)@
                &&& final(session)@ == old(session)@
            } else if old(self)@.points < 1 {
                &&& res == Err::<Action, CopcError>(CopcError::EmptyCopcFile)
                &&& final(self)@ == old(self)@
                &&& final(session)@ == old(session)@
            } else {
                &&& res is Ok
                &&& final(self)@ == (WriterView {
                    store: crate::chunk_store::StoreView {
                        chunks: Map::empty(),
                        ..old(self)@.store
                    },
                    ..old(self)@
                })
                &&& starts_closing(old(self)@, final(session)@.phase, res->Ok_0)
                &&& consistent(final(self)@, final(session)@.phase)
            },
            old(session)@.phase is Idle && res is Ok && crate::ledger::has_no_empty_record(
                Ledger::of(old(self)@, old(session)@.error),
            ) ==> forall|record: Seq<u8>, answers: Answers| #[trigger]
                crate::ledger::outlook(final(self)@, final(session)@, record, answers) == Ledger::of(
                    old(self)@,
                    old(session)@.error,
                ).closed(),
            res matches Ok(action) ==> asks_for(final(self)@, final(session)@.phase, action),
    {
        proof {
            self.lemma_parts_are_wf();
        }
        let ghost before: WriterView = self@;
        match self.begin_close() {
            Ok(list) => {
                let ghost listed: Seq<Group> = list@;
                let action: Action = self.hand_out(session, list);
                assert(starts_closing(before, session@.phase, action)) by {
                    assert(hands_out(listed, session@.phase, action));
                }
                proof {
                    if crate::ledger::has_no_empty_record(Ledger::of(before, session@.error)) {
                        assert forall|record: Seq<u8>, answers: Answers| #[trigger]
                            crate::ledger::outlook(self@, session@, record, answers) == Ledger::of(
                                before,
                                session@.error,
                            ).closed() by {
                            crate::ledger::lemma_closing_keeps_outlook(
                                before,
                                self@,
                                listed,
                                session@,
                                action,
                                record,
                                answers,
                            );
                        }
                    }
                }
                Ok(action)
            },
            Err(error) => Err(error),
        }
    }

    fn hand_out(&self, session: &mut Session, list: Vec<Group>) -> (action: Action)
        requires
            old(session).wf(),
            forall|i: int| 0 <= i < list@.len() ==> (#[trigger] list@[i]).wf(),
        ensures
            final(session).wf(),
            final(session)@ == (SessionView { phase: final(session)@.phase, ..old(session)@ }),
            hands_out(list@, final(session)@.phase, action),
            consistent(self@, final(session)@.phase),
            asks_for(self@, final(session)@.phase, action),
    {
        let mut rest: Vec<Group> = list;
        match rest.pop() {
            Some(group) => {
                assert(rest@ =~= list@.drop_last());
                let ghost records: Seq<Seq<u8>> = group.records();
                session.set_phase(
                    Phase::Closing { key: group.key, records: Ghost(records), rest },
                );
                Action::Compress { group }
            },
            None => {
                session.set_phase(Phase::Idle);
                Action::Finish
            },
        }
    }

    /// Enters a chunk that was compressed while the file is closed in the
    /// hierarchy, and goes on to the next one. Says what to tell the caller, as done
    /// and total.
    pub fn chunk_closed(
        &mut self,
        session: &mut Session,
        offset: u64,
        byte_count: u64,
        point_count: u64,
    ) -> (res: (Action, Option<(u64, u64)>))
        requires
            old(self).wf(),
            old(session).wf(),
            old(session)@.phase is Closing,
            consistent(old(self)@, old(session)@.phase),
        ensures
            final(self).wf(),
            final(session).wf(),
            final(self).dir() == old(self).dir(),
            consistent(final(self)@, final(session)@.phase),
            old(session)@.phase matches Phase::Closing { key, records, rest } ==> {
                &&& final(self)@ == old(self)@.entering(
                    key,
                    offset,
                    byte_count,
                    point_count,
                    records@,
                )
                &&& crate::session::notes_compressed(
                    old(session)@,
                    point_count,
                    SessionView { phase: old(session)@.phase, ..final(session)@ },
                    res.1,
                )
                &&& hands_out(rest@, final(session)@.phase, res.0)
            },
            forall|record: Seq<u8>, answers: Answers| #[trigger]
                crate::ledger::outlook(final(self)@, final(session)@, record, answers)
                    == crate::ledger::outlook(
                    old(self)@,
                    old(session)@,
                    record,
                    answers,
                ),
            crate::laws::is_entered(old(self)@.entries, old(self)@.handed) && (
            old(session)@.phase matches Phase::Closing { key, records, rest } && point_count == records@.len()
                <= i32::MAX) ==> crate::laws::is_entered(final(self)@.entries, final(self)@.handed),
            crate::session::session_advances(old(session)@, final(session)@, res.1),
            crate::session::session_is_throttled(old(session)@, final(session)@, res.1),
            old(session)@.phase matches Phase::Closing { key, records, rest } ==> crate::writer::says_where(
                final(self)@.entries.last(),
                key,
                offset,
                byte_count,
                point_count,
            ),
            asks_for(final(self)@, final(session)@.phase, res.0),
    {
        let report: Option<(u64, u64)> = session.chunk_compressed(point_count);
        match session.take_phase() {
            Phase::Closing { key, records, rest } => {
                self.record_chunk(key, offset, byte_count, point_count, records);
                let action: Action = self.hand_out(session, rest);
                proof {
                    assert forall|record: Seq<u8>, answers: Answers| #[trigger]
                        crate::ledger::outlook(self@, session@, record, answers)
                            == crate::ledger::outlook(
                            old(self)@,
                            old(session)@,
                            record,
                            answers,
                        ) by {
                        crate::ledger::lemma_handing_out_keeps_outlook(
                            self@,
                            rest@,
                            session@,
                            action,
                            record,
                            answers,
                        );
                    }
                }
                (action, report)
            },
            _ => (Action::Stop, report),
        }
    }
}

} // verus!
