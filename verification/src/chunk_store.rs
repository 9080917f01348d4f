//! The point records that wait to be compressed, by octree node.
//!
//! A chunk is the records of one node. Chunks are held in memory as long as
//! they fit the budget; then the largest ones move to files. The store decides
//! what moves and keeps the books. The caller writes the files, one per chunk,
//! in the store's directory, and tells the store what was written.

use crate::error::CopcError;
use crate::key::VoxelKey;
use crate::keymap::KeyMap;
use crate::options::WriterOptions;
use std::path::PathBuf;
use vstd::prelude::*;

verus! {

broadcast use crate::bytes::lemma_joined_with_one_more;

/// The records of one octree node.
pub enum ChunkBuffer {
    /// The records are in memory.
    InMemory { bytes: Vec<u8>, point_count: u32, records: Ghost<Seq<Seq<u8>>> },
    /// The records are in the file `path` of the store's directory.
    Spilled { path: String, point_count: u32, byte_count: u64, records: Ghost<Seq<Seq<u8>>> },
}

/// What a chunk holds: its records in order, wherever they are.
pub struct ChunkView {
    pub records: Seq<Seq<u8>>,
    pub spilled: bool,
}

impl View for ChunkBuffer {
    type V = ChunkView;

    open spec fn view(&self) -> ChunkView {
        match *self {
            ChunkBuffer::InMemory { bytes, point_count, records } => ChunkView {
                records: records@,
                spilled: false,
            },
            ChunkBuffer::Spilled { path, point_count, byte_count, records } => ChunkView {
                records: records@,
                spilled: true,
            },
        }
    }
}

impl ChunkView {
    /// The bytes of the chunk.
    pub open spec fn content(self) -> Seq<u8> {
        crate::bytes::joined(self.records)
    }

    /// The points of the chunk, one for each record.
    pub open spec fn points(self) -> nat {
        self.records.len()
    }

    /// The bytes that the chunk takes up in memory.
    pub open spec fn memory(self) -> nat {
        if self.spilled {
            0
        } else {
            self.content().len()
        }
    }
}

/// The name of the file that holds the chunk of `key`.
pub open spec fn spill_file_name(key: VoxelKey) -> Seq<char> {
    "node-"@ + (crate::text::decimal(key.level) + ("-"@ + (crate::text::decimal(key.x) + ("-"@ + (
    crate::text::decimal(key.y) + ("-"@ + (crate::text::decimal(key.z) + ".bin"@)))))))
}

impl ChunkBuffer {
    /// A chunk in memory has the bytes of its records. One in a file is in the file
    /// of its key, and its size is known. The points are counted.
    pub open spec fn wf(self, key: VoxelKey) -> bool {
        match self {
            ChunkBuffer::InMemory { bytes, point_count, records } => {
                &&& bytes@ == crate::bytes::joined(records@)
                &&& point_count == records@.len()
            },
            ChunkBuffer::Spilled { path, point_count, byte_count, records } => {
                &&& path@ == spill_file_name(key)
                &&& crate::bytes::joined(records@).len() == byte_count
                &&& point_count == records@.len()
            },
        }
    }
}

impl ChunkBuffer {
    /// The size of the records.
    pub fn byte_count(&self, key: &VoxelKey) -> (res: u64)
        requires
            self.wf(*key),
        ensures
            res == self@.content().len(),
    {
        match self {
            ChunkBuffer::InMemory { bytes, .. } => bytes.len() as u64,
            ChunkBuffer::Spilled { byte_count, .. } => *byte_count,
        }
    }

    /// The points of the chunk.
    pub fn point_count(&self, key: &VoxelKey) -> (res: u32)
        requires
            self.wf(*key),
        ensures
            res == self@.points(),
    {
        match self {
            ChunkBuffer::InMemory { point_count, .. } => *point_count,
            ChunkBuffer::Spilled { point_count, .. } => *point_count,
        }
    }
}

/// The bytes that a chunk takes up in memory.
pub open spec fn memory_of() -> spec_fn(ChunkView) -> nat {
    |chunk: ChunkView| chunk.memory()
}

/// The points of a chunk.
pub open spec fn points_of() -> spec_fn(ChunkView) -> nat {
    |chunk: ChunkView| chunk.points()
}

/// A store: its chunks, its budget, and the bytes counted against the budget.
#[verifier::ext_equal]
pub struct StoreView {
    pub budget: nat,
    pub buffered: nat,
    pub chunks: Map<VoxelKey, ChunkView>,
}

impl StoreView {
    /// The records of the chunk of `key`; none where there is no such chunk.
    pub open spec fn records(self, key: VoxelKey) -> Seq<Seq<u8>> {
        if self.chunks.contains_key(key) {
            self.chunks[key].records
        } else {
            Seq::empty()
        }
    }

    /// The bytes of the chunk of `key`; none where there is no such chunk.
    pub open spec fn content(self, key: VoxelKey) -> Seq<u8> {
        if self.chunks.contains_key(key) {
            self.chunks[key].content()
        } else {
            Seq::empty()
        }
    }

    /// The points of the chunk of `key`.
    pub open spec fn points(self, key: VoxelKey) -> nat {
        if self.chunks.contains_key(key) {
            self.chunks[key].points()
        } else {
            0
        }
    }

    /// Whether the chunk of `key` is in memory.
    pub open spec fn in_memory(self, key: VoxelKey) -> bool {
        self.chunks.contains_key(key) && !self.chunks[key].spilled
    }

    /// Whether the chunk of `key` is in a file.
    pub open spec fn spilled(self, key: VoxelKey) -> bool {
        self.chunks.contains_key(key) && self.chunks[key].spilled
    }

    /// Whether the file `name` holds a chunk.
    pub open spec fn has_file(self, name: Seq<char>) -> bool {
        exists|key: VoxelKey| #[trigger] self.spilled(key) && name == spill_file_name(key)
    }

    /// The bytes of all chunks that are in memory.
    pub open spec fn memory(self) -> nat {
        crate::tally::sum_over(self.chunks, self.chunks.dom(), memory_of())
    }

    /// The points of all chunks.
    pub open spec fn total_points(self) -> nat {
        crate::tally::sum_over(self.chunks, self.chunks.dom(), points_of())
    }

    /// Whether `additional` more bytes would break the budget.
    pub open spec fn lacks_room_for(self, additional: nat) -> bool {
        self.buffered + additional > self.budget
    }

    /// Whether the chunk of `key` is in memory and none in memory is larger.
    pub open spec fn is_largest(self, key: VoxelKey) -> bool {
        &&& self.in_memory(key)
        &&& forall|other: VoxelKey| #[trigger]
            self.in_memory(other) ==> self.chunks[other].content().len()
                <= self.chunks[key].content().len()
    }

    /// The store with the chunk of `key` extended by one point, in memory.
    pub open spec fn stored(self, key: VoxelKey, bytes: Seq<u8>) -> StoreView {
        StoreView {
            buffered: self.buffered + bytes.len(),
            chunks: self.chunks.insert(
                key,
                ChunkView {
                    records: self.records(key).push(bytes),
                    spilled: false,
                },
            ),
            ..self
        }
    }

    /// The store with the chunk of `key` extended by one point, in its file.
    pub open spec fn filed(self, key: VoxelKey, bytes: Seq<u8>) -> StoreView {
        StoreView {
            chunks: self.chunks.insert(
                key,
                ChunkView {
                    records: self.records(key).push(bytes),
                    spilled: true,
                },
            ),
            ..self
        }
    }

    /// The store once the chunk of `key` has moved from memory to its file.
    pub open spec fn spill(self, key: VoxelKey) -> StoreView {
        StoreView {
            buffered: if self.buffered >= self.content(key).len() {
                (self.buffered - self.content(key).len()) as nat
            } else {
                0
            },
            chunks: self.chunks.insert(key, ChunkView { spilled: true, ..self.chunks[key] }),
            ..self
        }
    }

    /// The store without the chunk of `key`; what it counted stays counted.
    pub open spec fn lost(self, key: VoxelKey) -> StoreView {
        StoreView { chunks: self.chunks.remove(key), ..self }
    }

    /// The store once the chunk of `key` has been handed out.
    pub open spec fn removed(self, key: VoxelKey) -> StoreView {
        StoreView {
            buffered: if !self.in_memory(key) {
                self.buffered
            } else if self.buffered >= self.content(key).len() {
                (self.buffered - self.content(key).len()) as nat
            } else {
                0
            },
            chunks: self.chunks.remove(key),
            ..self
        }
    }

    /// What is in memory is counted, and the count is within the budget.
    pub open spec fn wf(self) -> bool {
        &&& self.chunks.dom().finite()
        &&& self.memory() <= self.buffered <= self.budget
    }
}

/// What appending a record asks of the caller.
#[derive(Debug)]
pub enum AppendStep {
    /// Nothing: the record is in memory.
    Stored,
    /// To move the chunk of `victim` to a file, and then to resume with `bytes`.
    MakeRoom { victim: VoxelKey, bytes: Vec<u8> },
    /// To append `bytes` to the chunk's file.
    AppendToFile { bytes: Vec<u8> },
    /// To write `bytes` to a new file for the chunk.
    NewFile { bytes: Vec<u8> },
}

/// Whether `step` is what adding one point to the chunk of `key` calls for, and
/// the store changed from `before` to `after` accordingly.
pub open spec fn appends(
    before: StoreView,
    after: StoreView,
    key: VoxelKey,
    bytes: Vec<u8>,
    step: AppendStep,
) -> bool {
    let short = before.lacks_room_for(bytes@.len());
    if short && exists|other: VoxelKey| #[trigger] before.in_memory(other) {
        &&& step matches AppendStep::MakeRoom { victim, bytes: kept }
        &&& before.is_largest(victim)
        &&& kept == bytes
        &&& after == before
    } else if before.spilled(key) {
        step == (AppendStep::AppendToFile { bytes }) && after == before
    } else if short {
        step == (AppendStep::NewFile { bytes }) && after == before
    } else {
        step is Stored && after == before.stored(key, bytes@)
    }
}

/// The chunks of a file that is being written.
pub struct ChunkStore {
    memory_budget_bytes: u64,
    buffered_bytes: u64,
    temp_dir: PathBuf,
    chunks: KeyMap<ChunkBuffer>,
}

impl View for ChunkStore {
    type V = StoreView;

    closed spec fn view(&self) -> StoreView {
        StoreView {
            budget: self.memory_budget_bytes as nat,
            buffered: self.buffered_bytes as nat,
            chunks: self.chunks@.map_values(|chunk: ChunkBuffer| chunk@),
        }
    }
}

impl ChunkStore {
    /// The records of every chunk are where the books say, and within the budget.
    pub closed spec fn wf(&self) -> bool {
        &&& self@.wf()
        &&& forall|key: VoxelKey| #[trigger]
            self.chunks@.contains_key(key) ==> self.chunks@[key].wf(key)
    }

    /// The directory for the files of the chunks.
    pub closed spec fn dir(&self) -> PathBuf {
        self.temp_dir
    }

    /// What is in memory is counted, and the count is within the budget.
    pub proof fn lemma_view_is_wf(&self)
        requires
            self.wf(),
        ensures
            self@.wf(),
    {
    }

    /// An empty store with the memory budget of `options`. Its directory is that
    /// of `options` or else `default_dir`.
    pub fn new(options: WriterOptions, default_dir: PathBuf) -> (res: Result<ChunkStore, CopcError>)
        ensures
            res matches Ok(store) && {
                &&& store.wf()
                &&& store@ == (StoreView {
                    budget: options.memory_budget_bytes as nat,
                    buffered: 0,
                    chunks: Map::empty(),
                })
                &&& store.dir() == (match options.temp_dir {
                    Some(dir) => dir,
                    None => default_dir,
                })
            },
    {
        let temp_dir = match options.temp_dir {
            Some(dir) => dir,
            None => default_dir,
        };
        let store = ChunkStore {
            memory_budget_bytes: options.memory_budget_bytes,
            buffered_bytes: 0,
            temp_dir,
            chunks: KeyMap::new(),
        };
        assert(store@.chunks =~= Map::<VoxelKey, ChunkView>::empty());
        assert(store@.chunks.dom() =~= Set::<VoxelKey>::empty());
        Ok(store)
    }

    /// The directory for the files of the chunks.
    pub fn temp_dir(&self) -> (res: &PathBuf)
        ensures
            *res == self.dir(),
    {
        &self.temp_dir
    }

    /// The chunk of `key`.
    pub fn get(&self, key: &VoxelKey) -> (res: Option<&ChunkBuffer>)
        requires
            self.wf(),
        ensures
            res is Some <==> self@.chunks.contains_key(*key),
            res matches Some(chunk) ==> chunk@ == self@.chunks[*key] && chunk.wf(*key),
    {
        self.chunks.get(key)
    }

    /// The name, within the store's directory, of the file for the chunk of `key`.
    pub fn spill_path_for(&self, key: &VoxelKey) -> (res: String)
        ensures
            res@ == spill_file_name(*key),
    {
        let mut name: String = String::from_str("node-");
        crate::text::push_decimal(&mut name, key.level);
        name.append("-");
        crate::text::push_decimal(&mut name, key.x);
        name.append("-");
        crate::text::push_decimal(&mut name, key.y);
        name.append("-");
        crate::text::push_decimal(&mut name, key.z);
        name.append(".bin");
        assert(name@ =~= spill_file_name(*key));
        name
    }

    /// The chunk that leaves memory next: one that no other chunk in memory
    /// exceeds. `None` where no chunk is in memory.
    pub fn spill_largest_in_memory_chunk(&self) -> (res: Option<VoxelKey>)
        requires
            self.wf(),
        ensures
            res is None <==> forall|key: VoxelKey| !#[trigger] self@.in_memory(key),
            res matches Some(key) ==> self@.is_largest(key),
    {
        let keys = self.chunks.keys();
        proof {
            assert forall|j: int| 0 <= j < keys@.len() implies self@.chunks.contains_key(
                #[trigger] keys@[j],
            ) by {
                assert(keys@.contains(keys@[j]));
            }
        }
        let mut best: Option<VoxelKey> = None;
        let mut best_len: usize = 0;
        let mut i: usize = 0;
        while i < keys.len()
            invariant
                self.wf(),
                0 <= i <= keys@.len(),
                forall|j: int| 0 <= j < keys@.len() ==> self@.chunks.contains_key(#[trigger] keys@[j]),
                best is None ==> forall|j: int| 0 <= j < i ==> !self@.in_memory(#[trigger] keys@[j]),
                best matches Some(key) ==> {
                    &&& self@.in_memory(key)
                    &&& self@.chunks[key].content().len() == best_len
                    &&& forall|j: int|
                        0 <= j < i && self@.in_memory(#[trigger] keys@[j])
                            ==> self@.chunks[keys@[j]].content().len() <= best_len
                },
            decreases keys@.len() - i,
        {
            let key: VoxelKey = keys[i];
            assert(self.chunks@.contains_key(key));
            match self.chunks.get(&key) {
                Some(ChunkBuffer::InMemory { bytes, .. }) => {
                    if best.is_none() || bytes.len() >= best_len {
                        best = Some(key);
                        best_len = bytes.len();
                    }
                },
                _ => {},
            }
            i = i + 1;
        }
        proof {
            assert forall|key: VoxelKey| self@.in_memory(key) implies exists|j: int|
                0 <= j < keys@.len() && #[trigger] keys@[j] == key by {
                assert(keys@.contains(key));
            }
        }
        best
    }

    /// What has to leave memory before `additional` more bytes fit the budget:
    /// a largest chunk, or `None` where they fit or nothing is left in memory.
    pub fn ensure_budget_for(&self, additional: usize) -> (res: Option<VoxelKey>)
        requires
            self.wf(),
        ensures
            res is Some <==> self@.lacks_room_for(additional as nat) && exists|key: VoxelKey|
                #[trigger] self@.in_memory(key),
            res matches Some(key) ==> self@.is_largest(key),
    {
        if additional as u64 > self.memory_budget_bytes - self.buffered_bytes {
            self.spill_largest_in_memory_chunk()
        } else {
            None
        }
    }

    /// Adds one point, with the record `bytes`, to the chunk of `key`, or says
    /// what the caller has to do for that. A chunk that is in a file grows there.
    pub fn append(&mut self, key: VoxelKey, bytes: Vec<u8>) -> (step: AppendStep)
        requires
            old(self).wf(),
            old(self)@.points(key) < u32::MAX,
        ensures
            final(self).wf(),
            final(self).dir() == old(self).dir(),
            old(self)@.spilled(key) ==> step == (AppendStep::AppendToFile { bytes })
                && final(self)@ == old(self)@,
            !old(self)@.spilled(key) ==> appends(old(self)@, final(self)@, key, bytes, step),
    {
        match self.chunks.get(&key) {
            Some(ChunkBuffer::Spilled { .. }) => AppendStep::AppendToFile { bytes },
            _ => self.resume_append(key, bytes),
        }
    }

    /// Continues to add one point to the chunk of `key`, once a chunk has left
    /// memory. As long as there is no room, chunks leave memory; then the record
    /// goes to where the chunk now is.
    pub fn resume_append(&mut self, key: VoxelKey, bytes: Vec<u8>) -> (step: AppendStep)
        requires
            old(self).wf(),
            old(self)@.points(key) < u32::MAX,
        ensures
            final(self).wf(),
            final(self).dir() == old(self).dir(),
            appends(old(self)@, final(self)@, key, bytes, step),
    {
        if let Some(victim) = self.ensure_budget_for(bytes.len()) {
            return AppendStep::MakeRoom { victim, bytes };
        }
        if let Some(ChunkBuffer::Spilled { .. }) = self.chunks.get(&key) {
            return AppendStep::AppendToFile { bytes };
        }
        let byte_count: u64 = bytes.len() as u64;
        if byte_count > self.memory_budget_bytes - self.buffered_bytes {
            assert(!self@.in_memory(key));
            return AppendStep::NewFile { bytes };
        }
        let ghost record: Seq<u8> = bytes@;
        let chunk: ChunkBuffer = match self.chunks.remove(&key) {
            Some(ChunkBuffer::InMemory { bytes: existing, point_count, records }) => {
                let mut grown: Vec<u8> = existing;
                let mut more: Vec<u8> = bytes;
                grown.append(&mut more);
                ChunkBuffer::InMemory {
                    bytes: grown,
                    point_count: point_count + 1,
                    records: Ghost(records@.push(record)),
                }
            },
            _ => ChunkBuffer::InMemory {
                bytes,
                point_count: 1,
                records: Ghost(Seq::empty().push(record)),
            },
        };
        self.chunks.insert(key, chunk);
        self.buffered_bytes = self.buffered_bytes + byte_count;
        proof {
            let before = old(self)@;
            assert(self@.chunks =~= before.stored(key, record).chunks);
            crate::tally::lemma_sum_insert(before.chunks, key, self@.chunks[key], memory_of());
            crate::tally::lemma_sum_remove(before.chunks, key, memory_of());
        }
        AppendStep::Stored
    }

    /// Takes note of an attempt to move the chunk of `key` from memory to a new
    /// file. Where all of it was `written`, the chunk is in the file from now on.
    /// Where not, the chunk is lost, and its bytes stay counted.
    pub fn spill_in_memory_chunk(&mut self, key: &VoxelKey, written: bool)
        requires
            old(self).wf(),
            old(self)@.in_memory(*key),
        ensures
            final(self).wf(),
            final(self).dir() == old(self).dir(),
            written ==> final(self)@ == old(self)@.spill(*key),
            !written ==> final(self)@ == old(self)@.lost(*key),
    {
        let path: String = self.spill_path_for(key);
        let chunk: Option<ChunkBuffer> = self.chunks.remove(key);
        proof {
            crate::tally::lemma_sum_remove(old(self)@.chunks, *key, memory_of());
            assert(self@.chunks =~= old(self)@.lost(*key).chunks);
        }
        if let Some(ChunkBuffer::InMemory { bytes, point_count, records }) = chunk {
            if written {
                let byte_count: u64 = bytes.len() as u64;
                self.buffered_bytes = self.buffered_bytes.saturating_sub(byte_count);
                self.chunks.insert(
                    *key,
                    ChunkBuffer::Spilled { path, point_count, byte_count, records },
                );
                proof {
                    assert(self@.chunks =~= old(self)@.spill(*key).chunks);
                    crate::tally::lemma_sum_insert(old(self)@.chunks, *key, self@.chunks[*key], memory_of());
                }
            }
        }
    }

    /// Takes note that the chunk of `key` now is one record, `bytes`, that was
    /// written to a new file.
    pub fn write_new_spilled_chunk(&mut self, key: VoxelKey, bytes: &Vec<u8>)
        requires
            old(self).wf(),
            !old(self)@.chunks.contains_key(key),
        ensures
            final(self).wf(),
            final(self).dir() == old(self).dir(),
            final(self)@ == old(self)@.filed(key, bytes@),
    {
        let path: String = self.spill_path_for(&key);
        self.chunks.insert(
            key,
            ChunkBuffer::Spilled {
                path,
                point_count: 1,
                byte_count: bytes.len() as u64,
                records: Ghost(Seq::empty().push(bytes@)),
            },
        );
        proof {
            let before = old(self)@;
            assert(self@.chunks =~= before.filed(key, bytes@).chunks);
            crate::tally::lemma_sum_insert(before.chunks, key, self@.chunks[key], memory_of());
            crate::tally::lemma_sum_remove(before.chunks, key, memory_of());
        }
    }

    /// Takes note that the record `bytes` was appended to the file of the chunk
    /// of `key`.
    pub fn append_to_spilled(&mut self, key: VoxelKey, bytes: &Vec<u8>)
        requires
            old(self).wf(),
            old(self)@.spilled(key),
            old(self)@.points(key) < u32::MAX,
            old(self)@.content(key).len() + bytes@.len() <= u64::MAX,
        ensures
            final(self).wf(),
            final(self).dir() == old(self).dir(),
            final(self)@ == old(self)@.filed(key, bytes@),
    {
        let chunk: Option<ChunkBuffer> = self.chunks.remove(&key);
        if let Some(ChunkBuffer::Spilled { path, point_count, byte_count, records }) = chunk {
            self.chunks.insert(
                key,
                ChunkBuffer::Spilled {
                    path,
                    point_count: point_count + 1,
                    byte_count: byte_count + bytes.len() as u64,
                    records: Ghost(records@.push(bytes@)),
                },
            );
            proof {
                let before = old(self)@;
                assert(self@.chunks =~= before.filed(key, bytes@).chunks);
                crate::tally::lemma_sum_insert(before.chunks, key, self@.chunks[key], memory_of());
                crate::tally::lemma_sum_remove(before.chunks, key, memory_of());
            }
        }
    }

    /// Hands the chunk of `key` out; the store has it no more.
    pub fn remove(&mut self, key: &VoxelKey) -> (res: Option<ChunkBuffer>)
        requires
            old(self).wf(),
        ensures
            final(self).wf(),
            final(self).dir() == old(self).dir(),
            final(self)@ == old(self)@.removed(*key),
            res is Some <==> old(self)@.chunks.contains_key(*key),
            res matches Some(chunk) ==> chunk@ == old(self)@.chunks[*key] && chunk.wf(*key),
    {
        let chunk: Option<ChunkBuffer> = self.chunks.remove(key);
        proof {
            crate::tally::lemma_sum_remove(old(self)@.chunks, *key, memory_of());
            assert(self@.chunks =~= old(self)@.removed(*key).chunks);
        }
        if let Some(ChunkBuffer::InMemory { bytes, .. }) = &chunk {
            self.buffered_bytes = self.buffered_bytes.saturating_sub(bytes.len() as u64);
        }
        chunk
    }

    /// Hands all chunks out, each with its key, in no particular order.
    pub fn drain(&mut self) -> (res: Vec<(VoxelKey, ChunkBuffer)>)
        requires
            old(self).wf(),
        ensures
            final(self).wf(),
            final(self).dir() == old(self).dir(),
            final(self)@ == (StoreView { chunks: Map::empty(), ..old(self)@ }),
            drained(old(self)@.chunks, res@),
    {
        let keys: Vec<VoxelKey> = self.chunks.keys();
        let ghost before: Map<VoxelKey, ChunkBuffer> = self.chunks@;
        proof {
            assert forall|j: int| 0 <= j < keys@.len() implies before.contains_key(
                #[trigger] keys@[j],
            ) by {
                assert(keys@.contains(keys@[j]));
            }
        }
        let mut res: Vec<(VoxelKey, ChunkBuffer)> = Vec::new();
        let mut i: usize = 0;
        while i < keys.len()
            invariant
                0 <= i <= keys@.len(),
                keys@.no_duplicates(),
                before == old(self).chunks@,
                old(self).wf(),
                forall|j: int| 0 <= j < keys@.len() ==> before.contains_key(#[trigger] keys@[j]),
                forall|key: VoxelKey| #[trigger]
                    self.chunks@.contains_key(key) <==> before.contains_key(key) && !keys@.subrange(
                        0,
                        i as int,
                    ).contains(key),
                forall|key: VoxelKey| #[trigger]
                    self.chunks@.contains_key(key) ==> self.chunks@[key] == before[key],
                res@.len() == i,
                forall|j: int| 0 <= j < i ==> (#[trigger] res@[j]).0 == keys@[j],
                forall|j: int| 0 <= j < i ==> (#[trigger] res@[j]).1 == before[keys@[j]],
                self.memory_budget_bytes == old(self).memory_budget_bytes,
                self.buffered_bytes == old(self).buffered_bytes,
                self.temp_dir == old(self).temp_dir,
            decreases keys@.len() - i,
        {
            let key: VoxelKey = keys[i];
            proof {
                assert(!keys@.subrange(0, i as int).contains(key));
                assert(self.chunks@.contains_key(key));
                assert(keys@.subrange(0, i + 1) =~= keys@.subrange(0, i as int).push(key));
                assert forall|k: VoxelKey| #[trigger]
                    keys@.subrange(0, i + 1).contains(k) <==> k == key || keys@.subrange(
                        0,
                        i as int,
                    ).contains(k) by {
                    if k == key {
                        assert(keys@.subrange(0, i + 1)[i as int] == k);
                    }
                    if keys@.subrange(0, i as int).contains(k) {
                        let j = choose|j: int| 0 <= j < i && keys@.subrange(0, i as int)[j] == k;
                        assert(keys@.subrange(0, i + 1)[j] == k);
                    }
                }
            }
            if let Some(chunk) = self.chunks.remove(&key) {
                res.push((key, chunk));
            }
            i = i + 1;
        }
        proof {
            assert(keys@.subrange(0, keys@.len() as int) =~= keys@);
            assert(self@.chunks =~= Map::<VoxelKey, ChunkView>::empty());
            assert(self@.chunks.dom() =~= Set::<VoxelKey>::empty());
            assert forall|key: VoxelKey| #[trigger] before.contains_key(key) implies exists|j: int|
                0 <= j < res@.len() && (#[trigger] res@[j]).0 == key by {
                assert(keys@.contains(key));
                let j = choose|j: int| 0 <= j < keys@.len() && keys@[j] == key;
                assert(res@[j].0 == key);
            }
        }
        res
    }

    /// Hands out all chunks that are to be compressed, each with its key, in no
    /// particular order. Those in memory without a record are dropped.
    pub fn drain_to_compress(&mut self) -> (res: Vec<(VoxelKey, ChunkBuffer)>)
        requires
            old(self).wf(),
        ensures
            final(self).wf(),
            final(self).dir() == old(self).dir(),
            final(self)@ == (StoreView { chunks: Map::empty(), ..old(self)@ }),
            drained(to_compress(old(self)@.chunks), res@),
    {
        let ghost chunks: Map<VoxelKey, ChunkView> = self@.chunks;
        let mut list: Vec<(VoxelKey, ChunkBuffer)> = self.drain();
        let ghost whole: Seq<(VoxelKey, ChunkBuffer)> = list@;
        let mut res: Vec<(VoxelKey, ChunkBuffer)> = Vec::new();
        while list.len() > 0
            invariant
                drained(chunks, whole),
                list@.len() <= whole.len(),
                list@ == whole.take(list@.len() as int),
                forall|i: int|
                    0 <= i < res@.len() ==> {
                        let (key, chunk) = #[trigger] res@[i];
                        &&& to_compress(chunks).contains_key(key)
                        &&& chunk@ == chunks[key]
                        &&& chunk.wf(key)
                    },
                forall|i: int, j: int| 0 <= i < j < res@.len() ==> res@[i].0 != res@[j].0,
                forall|i: int, j: int|
                    0 <= i < res@.len() && 0 <= j < list@.len() ==> (#[trigger] res@[i]).0 != (
                    #[trigger] list@[j]).0,
                forall|j: int|
                    list@.len() <= j < whole.len() && to_compress(chunks).contains_key(
                        (#[trigger] whole[j]).0,
                    ) ==> is_listed(res@, whole[j].0),
            decreases list@.len(),
        {
            let ghost before: Seq<(VoxelKey, ChunkBuffer)> = list@;
            let ghost taken: Seq<(VoxelKey, ChunkBuffer)> = res@;
            if let Some((key, chunk)) = list.pop() {
                let ghost last: int = before.len() - 1;
                assert(before[last] == whole[last]);
                assert(before[last] == (key, chunk));
                assert(list@ =~= whole.take(last));
                let empty: bool = match &chunk {
                    ChunkBuffer::InMemory { bytes, .. } => bytes.len() == 0,
                    ChunkBuffer::Spilled { .. } => false,
                };
                assert(to_compress(chunks).contains_key(key) == !empty);
                if !empty {
                    res.push((key, chunk));
                }
                proof {
                    assert forall|j: int| list@.len() <= j < whole.len() && to_compress(
                        chunks,
                    ).contains_key((#[trigger] whole[j]).0) implies is_listed(res@, whole[j].0) by {
                        if j == last {
                            assert(res@[res@.len() - 1].0 == whole[j].0);
                        } else {
                            assert(is_listed(taken, whole[j].0));
                            let i = choose|i: int| 0 <= i < taken.len() && (#[trigger] taken[i]).0
                                == whole[j].0;
                            assert(res@[i].0 == whole[j].0);
                        }
                    }
                }
            }
        }
        proof {
            assert forall|key: VoxelKey| #[trigger] to_compress(chunks).contains_key(key) implies exists|
                i: int,
            | 0 <= i < res@.len() && (#[trigger] res@[i]).0 == key by {
                assert(chunks.contains_key(key));
                let j = choose|j: int| 0 <= j < whole.len() && (#[trigger] whole[j]).0 == key;
                assert(is_listed(res@, whole[j].0));
            }
        }
        res
    }

    /// The names of the files that hold chunks, each once, in no particular order.
    pub fn spilled_files(&self) -> (res: Vec<String>)
        requires
            self.wf(),
        ensures
            forall|i: int, j: int| 0 <= i < j < res@.len() ==> res@[i]@ != res@[j]@,
            forall|i: int| 0 <= i < res@.len() ==> self@.has_file((#[trigger] res@[i])@),
            forall|key: VoxelKey| #[trigger]
                self@.spilled(key) ==> exists|i: int|
                    0 <= i < res@.len() && (#[trigger] res@[i])@ == spill_file_name(key),
    {
        let keys: Vec<VoxelKey> = self.chunks.keys();
        let mut res: Vec<String> = Vec::new();
        let ghost mut owners: Seq<int> = Seq::empty();
        let mut i: usize = 0;
        while i < keys.len()
            invariant
                0 <= i <= keys@.len(),
                keys@.no_duplicates(),
                forall|key: VoxelKey| #[trigger] keys@.contains(key) <==> self.chunks@.contains_key(key),
                owners.len() == res@.len(),
                forall|k: int|
                    0 <= k < owners.len() ==> 0 <= #[trigger] owners[k] < i && self@.spilled(
                        keys@[owners[k]],
                    ) && res@[k]@ == spill_file_name(keys@[owners[k]]),
                forall|k: int, l: int| 0 <= k < l < owners.len() ==> owners[k] < owners[l],
                forall|j: int|
                    0 <= j < i && self@.spilled(#[trigger] keys@[j]) ==> exists|k: int|
                        0 <= k < owners.len() && #[trigger] owners[k] == j,
            decreases keys@.len() - i,
        {
            let key: VoxelKey = keys[i];
            assert(keys@.contains(key));
            let ghost owners_before = owners;
            if let Some(ChunkBuffer::Spilled { .. }) = self.chunks.get(&key) {
                res.push(self.spill_path_for(&key));
                proof {
                    owners = owners.push(i as int);
                }
            }
            proof {
                assert forall|j: int| 0 <= j < i + 1 && self@.spilled(#[trigger] keys@[j]) implies exists|
                    k: int,
                | 0 <= k < owners.len() && #[trigger] owners[k] == j by {
                    if j < i {
                        let k = choose|k: int| 0 <= k < owners_before.len() && owners_before[k] == j;
                        assert(owners[k] == j);
                    } else {
                        assert(owners[owners.len() - 1] == j);
                    }
                }
            }
            i = i + 1;
        }
        proof {
            assert forall|k: int, l: int| 0 <= k < l < res@.len() implies res@[k]@ != res@[l]@ by {
                assert(owners[k] < owners[l]);
                if res@[k]@ == res@[l]@ {
                    lemma_file_names_differ(keys@[owners[k]], keys@[owners[l]]);
                }
            }
            assert forall|k: int| 0 <= k < res@.len() implies self@.has_file((#[trigger] res@[k])@) by {
                assert(self@.spilled(keys@[owners[k]]));
            }
            assert forall|key: VoxelKey| #[trigger] self@.spilled(key) implies exists|k: int|
                0 <= k < res@.len() && (#[trigger] res@[k])@ == spill_file_name(key) by {
                assert(keys@.contains(key));
                let j = choose|j: int| 0 <= j < keys@.len() && keys@[j] == key;
                let k = choose|k: int| 0 <= k < owners.len() && owners[k] == j;
                assert(res@[k]@ == spill_file_name(key));
            }
        }
        res
    }
}

/// The chunks that are compressed: all but those in memory without a record.
pub open spec fn to_compress(chunks: Map<VoxelKey, ChunkView>) -> Map<VoxelKey, ChunkView> {
    Map::new(
        |key: VoxelKey|
            chunks.contains_key(key) && (chunks[key].spilled || chunks[key].content().len() > 0),
        |key: VoxelKey| chunks[key],
    )
}

/// Whether there is a chunk of `key` in `list`.
pub open spec fn is_listed(list: Seq<(VoxelKey, ChunkBuffer)>, key: VoxelKey) -> bool {
    exists|i: int| 0 <= i < list.len() && (#[trigger] list[i]).0 == key
}

/// Whether `list` holds every chunk once, with its key, and nothing else.
pub open spec fn drained(
    chunks: Map<VoxelKey, ChunkView>,
    list: Seq<(VoxelKey, ChunkBuffer)>,
) -> bool {
    &&& forall|i: int|
        0 <= i < list.len() ==> {
            let (key, chunk) = #[trigger] list[i];
            chunks.contains_key(key) && chunk@ == chunks[key] && chunk.wf(key)
        }
    &&& forall|i: int, j: int| 0 <= i < j < list.len() ==> list[i].0 != list[j].0
    &&& forall|key: VoxelKey| #[trigger]
        chunks.contains_key(key) ==> exists|i: int|
            0 <= i < list.len() && (#[trigger] list[i]).0 == key
}

/// Two chunks never share a file: the names of their files differ.
pub proof fn lemma_file_names_differ(a: VoxelKey, b: VoxelKey)
    requires
        spill_file_name(a) == spill_file_name(b),
    ensures
        a == b,
{
    reveal_strlit("node-");
    reveal_strlit("-");
    reveal_strlit(".bin");
    let az = crate::text::decimal(a.z) + ".bin"@;
    let bz = crate::text::decimal(b.z) + ".bin"@;
    let ay = crate::text::decimal(a.y) + ("-"@ + az);
    let by = crate::text::decimal(b.y) + ("-"@ + bz);
    let ax = crate::text::decimal(a.x) + ("-"@ + ay);
    let bx = crate::text::decimal(b.x) + ("-"@ + by);
    let al = crate::text::decimal(a.level) + ("-"@ + ax);
    let bl = crate::text::decimal(b.level) + ("-"@ + bx);
    assert(spill_file_name(a).skip(5) =~= al);
    assert(spill_file_name(b).skip(5) =~= bl);
    crate::text::lemma_decimal_reads_back(a.level, "-"@ + ax, b.level, "-"@ + bx);
    assert(("-"@ + ax).skip(1) =~= ax);
    assert(("-"@ + bx).skip(1) =~= bx);
    crate::text::lemma_decimal_reads_back(a.x, "-"@ + ay, b.x, "-"@ + by);
    assert(("-"@ + ay).skip(1) =~= ay);
    assert(("-"@ + by).skip(1) =~= by);
    crate::text::lemma_decimal_reads_back(a.y, "-"@ + az, b.y, "-"@ + bz);
    assert(("-"@ + az).skip(1) =~= az);
    assert(("-"@ + bz).skip(1) =~= bz);
    crate::text::lemma_decimal_reads_back(a.z, ".bin"@, b.z, ".bin"@);
}

impl StoreView {
    /// The store once the chunks of `victims` have moved to files, one after another.
    pub open spec fn spill_all(self, victims: Seq<VoxelKey>) -> StoreView
        decreases victims.len(),
    {
        if victims.len() == 0 {
            self
        } else {
            self.spill_all(victims.drop_last()).spill(victims.last())
        }
    }

    /// Whether each of `victims` is in memory when its turn to move comes.
    pub open spec fn can_spill(self, victims: Seq<VoxelKey>) -> bool {
        forall|i: int|
            0 <= i < victims.len() ==> self.spill_all(#[trigger] victims.take(i)).in_memory(victims[i])
    }

    /// Whether the bytes counted are those in memory.
    pub open spec fn books_exact(self) -> bool {
        self.buffered == self.memory()
    }
}

/// Chunks that move to files keep their records and stay in files; the other
/// chunks stay as they were.
pub proof fn lemma_spilling_keeps_contents(store: StoreView, victims: Seq<VoxelKey>, key: VoxelKey)
    requires
        store.can_spill(victims),
    ensures
        store.spill_all(victims).records(key) == store.records(key),
        store.spill_all(victims).content(key) == store.content(key),
        store.spill_all(victims).points(key) == store.points(key),
        store.spill_all(victims).chunks.dom() == store.chunks.dom(),
        store.spill_all(victims).spilled(key) <==> store.spilled(key) || victims.contains(key),
        store.spill_all(victims).budget == store.budget,
    decreases victims.len(),
{
    if victims.len() > 0 {
        let fewer = victims.drop_last();
        let last = victims.last();
        assert(victims.take(victims.len() - 1) =~= fewer);
        assert forall|i: int| 0 <= i < fewer.len() implies store.spill_all(
            #[trigger] fewer.take(i),
        ).in_memory(fewer[i]) by {
            assert(fewer.take(i) =~= victims.take(i));
        }
        lemma_spilling_keeps_contents(store, fewer, key);
        lemma_spilling_keeps_contents(store, fewer, last);
        assert(store.spill_all(fewer).in_memory(last));
        assert(store.spill_all(victims).chunks.dom() =~= store.chunks.dom());
        assert(victims =~= fewer.push(last));
        assert(victims.contains(key) <==> fewer.contains(key) || key == last) by {
            if fewer.contains(key) {
                let i = choose|i: int| 0 <= i < fewer.len() && fewer[i] == key;
                assert(victims[i] == key);
            }
            if key == last {
                assert(victims[victims.len() - 1] == key);
            }
        }
    }
}

/// Making room comes to an end: a chunk moves at most once, so that no more
/// chunks move than the store has.
pub proof fn lemma_spilling_ends(store: StoreView, victims: Seq<VoxelKey>)
    requires
        store.chunks.dom().finite(),
        store.can_spill(victims),
    ensures
        victims.no_duplicates(),
        victims.len() <= store.chunks.dom().len(),
{
    assert forall|i: int, j: int| 0 <= i < j < victims.len() implies victims[i] != victims[j] by {
        let earlier = victims.take(j);
        assert forall|k: int| 0 <= k < earlier.len() implies store.spill_all(
            #[trigger] earlier.take(k),
        ).in_memory(earlier[k]) by {
            assert(earlier.take(k) =~= victims.take(k));
        }
        lemma_spilling_keeps_contents(store, earlier, victims[j]);
        assert(store.spill_all(earlier).in_memory(victims[j]));
        assert(earlier[i] == victims[i]);
    }
    assert forall|key: VoxelKey| #[trigger] victims.to_set().contains(key) implies store.chunks.dom().contains(
        key,
    ) by {
        let i = choose|i: int| 0 <= i < victims.len() && victims[i] == key;
        let earlier = victims.take(i);
        assert forall|k: int| 0 <= k < earlier.len() implies store.spill_all(
            #[trigger] earlier.take(k),
        ).in_memory(earlier[k]) by {
            assert(earlier.take(k) =~= victims.take(k));
        }
        lemma_spilling_keeps_contents(store, earlier, key);
        assert(store.spill_all(earlier).in_memory(victims[i]));
    }
    victims.unique_seq_to_set();
    vstd::set_lib::lemma_len_subset(victims.to_set(), store.chunks.dom());
}

/// Appending loses nothing, whatever moves to files to make room: the record is
/// the last of its chunk, and every other chunk holds what it held.
pub proof fn lemma_append_is_lossless(
    before: StoreView,
    victims: Seq<VoxelKey>,
    key: VoxelKey,
    bytes: Seq<u8>,
    after: StoreView,
    other: VoxelKey,
)
    requires
        before.can_spill(victims),
        after == before.spill_all(victims).stored(key, bytes) || after == before.spill_all(
            victims,
        ).filed(key, bytes),
    ensures
        after.records(key) == before.records(key).push(bytes),
        after.content(key) == before.content(key) + bytes,
        after.points(key) == before.points(key) + 1,
        other != key ==> after.records(other) == before.records(other),
        other != key ==> after.content(other) == before.content(other),
        other != key ==> after.points(other) == before.points(other),
        after.chunks.dom() == before.chunks.dom().insert(key),
{
    lemma_spilling_keeps_contents(before, victims, key);
    lemma_spilling_keeps_contents(before, victims, other);
    assert(after.chunks.dom() =~= before.chunks.dom().insert(key));
}

/// As long as no file fails to be written, the bytes counted against the budget
/// are exactly those in memory.
pub proof fn lemma_books_stay_exact(store: StoreView, key: VoxelKey, bytes: Seq<u8>)
    requires
        store.wf(),
        store.books_exact(),
    ensures
        !store.spilled(key) ==> store.stored(key, bytes).books_exact(),
        store.in_memory(key) ==> store.spill(key).books_exact(),
        !store.in_memory(key) ==> store.filed(key, bytes).books_exact(),
        store.removed(key).books_exact(),
{
    crate::tally::lemma_sum_remove(store.chunks, key, memory_of());
    crate::tally::lemma_sum_insert(store.chunks, key, store.stored(key, bytes).chunks[key], memory_of());
    crate::tally::lemma_sum_insert(store.chunks, key, store.spill(key).chunks[key], memory_of());
    crate::tally::lemma_sum_insert(store.chunks, key, store.filed(key, bytes).chunks[key], memory_of());
}

/// The points of a list of chunks.
pub open spec fn listed_points(list: Seq<(VoxelKey, ChunkBuffer)>) -> nat
    decreases list.len(),
{
    if list.len() == 0 {
        0
    } else {
        listed_points(list.drop_last()) + list.last().1@.points()
    }
}

/// No point is lost or counted twice: appending adds one point to the store,
/// moving a chunk to a file adds none, and a chunk that is handed out takes
/// exactly its own points along.
pub proof fn lemma_points_are_conserved(store: StoreView, key: VoxelKey, bytes: Seq<u8>)
    requires
        store.chunks.dom().finite(),
    ensures
        store.stored(key, bytes).total_points() == store.total_points() + 1,
        store.filed(key, bytes).total_points() == store.total_points() + 1,
        store.chunks.contains_key(key) ==> store.spill(key).total_points() == store.total_points(),
        store.removed(key).total_points() + store.points(key) == store.total_points(),
{
    crate::tally::lemma_sum_remove(store.chunks, key, points_of());
    crate::tally::lemma_sum_insert(store.chunks, key, store.stored(key, bytes).chunks[key], points_of());
    crate::tally::lemma_sum_insert(store.chunks, key, store.filed(key, bytes).chunks[key], points_of());
    crate::tally::lemma_sum_insert(store.chunks, key, store.spill(key).chunks[key], points_of());
}

/// All chunks together, once handed out, have all points of the store.
pub proof fn lemma_drained_has_all_points(
    chunks: Map<VoxelKey, ChunkView>,
    list: Seq<(VoxelKey, ChunkBuffer)>,
)
    requires
        chunks.dom().finite(),
        drained(chunks, list),
    ensures
        listed_points(list) == crate::tally::sum_over(chunks, chunks.dom(), points_of()),
    decreases list.len(),
{
    if list.len() == 0 {
        assert(chunks.dom() =~= Set::<VoxelKey>::empty());
    } else {
        let fewer = list.drop_last();
        let (key, chunk) = list.last();
        let left = chunks.remove(key);
        assert(list[list.len() - 1] == list.last());
        crate::tally::lemma_sum_remove(chunks, key, points_of());
        assert forall|i: int| 0 <= i < fewer.len() implies {
            let (k, c) = #[trigger] fewer[i];
            left.contains_key(k) && c@ == left[k] && c.wf(k)
        } by {
            assert(fewer[i] == list[i]);
            assert(list[i].0 != list[list.len() - 1].0);
        }
        assert forall|k: VoxelKey| #[trigger] left.contains_key(k) implies exists|i: int|
            0 <= i < fewer.len() && (#[trigger] fewer[i]).0 == k by {
            assert(chunks.contains_key(k));
            let i = choose|i: int| 0 <= i < list.len() && (#[trigger] list[i]).0 == k;
            assert(fewer[i].0 == k);
        }
        lemma_drained_has_all_points(left, fewer);
    }
}

/// What a chunk takes up in memory: the bytes of its records where they are in memory,
/// and nothing where they are in a file. It has a point for each record.
pub proof fn lemma_chunk_takes_up_its_records(chunk: ChunkView)
    ensures
        !chunk.spilled ==> memory_of()(chunk) == crate::bytes::joined(chunk.records).len(),
        chunk.spilled ==> memory_of()(chunk) == 0,
        points_of()(chunk) == chunk.records.len(),
        chunk.content() == crate::bytes::joined(chunk.records),
        chunk.points() == chunk.records.len(),
{
}

/// No chunk in memory is larger than the budget, and neither are all of them together.
pub proof fn lemma_memory_is_within_budget(store: StoreView, key: VoxelKey)
    requires
        store.wf(),
    ensures
        crate::tally::sum_over(store.chunks, store.chunks.dom(), memory_of()) <= store.budget,
        store.chunks.contains_key(key) && !store.chunks[key].spilled ==> crate::bytes::joined(
            store.chunks[key].records,
        ).len() <= store.budget,
{
    crate::tally::lemma_sum_remove(store.chunks, key, memory_of());
}

/// Where a record goes. It goes to memory as long as it fits the budget beside what is
/// counted, and its chunk is not in a file. Where it does not fit, a chunk leaves memory
/// first, and none in memory has more bytes; the record is kept for later, and nothing
/// changes yet. Where none is left in memory, it goes to a file.
pub proof fn lemma_record_goes_where_there_is_room(
    before: StoreView,
    after: StoreView,
    key: VoxelKey,
    bytes: Vec<u8>,
    step: AppendStep,
    other: VoxelKey,
)
    requires
        appends(before, after, key, bytes, step),
    ensures
        ({
            let fits = before.buffered + bytes@.len() <= before.budget;
            let in_file = before.chunks.contains_key(key) && before.chunks[key].spilled;
            let other_in_memory = before.chunks.contains_key(other)
                && !before.chunks[other].spilled;
            &&& fits && !in_file <==> step is Stored
            &&& fits && in_file ==> step is AppendToFile
            &&& !fits && other_in_memory ==> step is MakeRoom
            &&& step matches AppendStep::MakeRoom { victim, bytes: kept } ==> {
                &&& !fits
                &&& kept@ == bytes@
                &&& before.chunks.contains_key(victim) && !before.chunks[victim].spilled
                &&& other_in_memory ==> crate::bytes::joined(before.chunks[other].records).len()
                    <= crate::bytes::joined(before.chunks[victim].records).len()
            }
            &&& step matches AppendStep::NewFile { bytes: kept } ==> !fits && !in_file && kept@
                == bytes@ && !other_in_memory
            &&& step matches AppendStep::AppendToFile { bytes: kept } ==> in_file && kept@
                == bytes@
            &&& !(step is Stored) ==> after == before
            &&& step is Stored ==> {
                &&& after.chunks.contains_key(key) && !after.chunks[key].spilled
                &&& after.records(key) == before.records(key) + seq![bytes@]
                &&& after.buffered == before.buffered + bytes@.len()
                &&& after.budget == before.budget
                &&& other != key ==> after.records(other) == before.records(other)
            }
        }),
{
    let other_in_memory = before.chunks.contains_key(other) && !before.chunks[other].spilled;
    if other_in_memory {
        assert(before.in_memory(other));
    }
    if step is Stored {
        assert(before.records(key).push(bytes@) =~= before.records(key) + seq![bytes@]);
    }
    if let AppendStep::MakeRoom { victim, bytes: kept } = step {
        assert(before.in_memory(victim));
    }
}

/// A chunk that moves to its file keeps its records, and its bytes no longer count; a
/// record that goes to a file does not count either. A chunk that is handed out is gone,
/// and the others stay.
pub proof fn lemma_chunks_move_and_leave(store: StoreView, key: VoxelKey, bytes: Seq<u8>, other: VoxelKey)
    requires
        store.wf(),
        store.chunks.contains_key(key),
    ensures
        ({
            let size = crate::bytes::joined(store.chunks[key].records).len();
            let moved = store.spill(key);
            let filed = store.filed(key, bytes);
            let gone = store.removed(key);
            &&& moved.chunks[key].spilled && moved.chunks[key].records == store.chunks[key].records
            &&& !store.chunks[key].spilled ==> moved.buffered == store.buffered - size
            &&& filed.chunks[key].spilled && filed.chunks[key].records
                == store.chunks[key].records + seq![bytes]
            &&& filed.buffered == store.buffered
            &&& !gone.chunks.contains_key(key)
            &&& !store.chunks[key].spilled ==> gone.buffered == store.buffered - size
            &&& store.chunks[key].spilled ==> gone.buffered == store.buffered
            &&& !store.lost(key).chunks.contains_key(key)
            &&& other != key ==> {
                &&& moved.records(other) == store.records(other)
                &&& filed.records(other) == store.records(other)
                &&& gone.records(other) == store.records(other)
                &&& store.lost(key).records(other) == store.records(other)
            }
            &&& moved.budget == store.budget && filed.budget == store.budget && gone.budget
                == store.budget
        }),
{
    crate::tally::lemma_sum_remove(store.chunks, key, memory_of());
    assert(store.chunks[key].records.push(bytes) =~= store.chunks[key].records + seq![bytes]);
}

/// A chunk is compressed when the file is closed exactly where it has a byte, or is in a
/// file, and with all its records.
pub proof fn lemma_chunks_with_records_are_compressed(
    chunks: Map<VoxelKey, ChunkView>,
    key: VoxelKey,
)
    ensures
        to_compress(chunks).contains_key(key) <==> chunks.contains_key(key) && (chunks[key].spilled
            || crate::bytes::joined(chunks[key].records).len() > 0),
        to_compress(chunks).contains_key(key) ==> to_compress(chunks)[key] == chunks[key],
{
}

/// The name of a chunk's file tells its key: the level and the three coordinates, in
/// decimal notation.
pub proof fn lemma_file_name_tells_the_key(key: VoxelKey)
    ensures
        spill_file_name(key) == seq!['n', 'o', 'd', 'e', '-'] + crate::text::decimal(key.level)
            + seq!['-'] + crate::text::decimal(key.x) + seq!['-'] + crate::text::decimal(key.y)
            + seq!['-'] + crate::text::decimal(key.z) + seq!['.', 'b', 'i', 'n'],
{
    reveal_strlit("node-");
    reveal_strlit("-");
    reveal_strlit(".bin");
    assert(spill_file_name(key) =~= seq!['n', 'o', 'd', 'e', '-'] + crate::text::decimal(key.level)
        + seq!['-'] + crate::text::decimal(key.x) + seq!['-'] + crate::text::decimal(key.y) + seq![
        '-',
    ] + crate::text::decimal(key.z) + seq!['.', 'b', 'i', 'n']);
}

/// The files are those of the chunks that are in files: a chunk in a file has one, and a
/// file has a chunk.
pub proof fn lemma_files_are_of_chunks_in_files(store: StoreView, key: VoxelKey)
    ensures
        store.chunks.contains_key(key) && store.chunks[key].spilled <==> store.has_file(
            spill_file_name(key),
        ),
{
    if store.has_file(spill_file_name(key)) {
        let other = choose|other: VoxelKey| #[trigger]
            store.spilled(other) && spill_file_name(key) == spill_file_name(other);
        lemma_file_names_differ(key, other);
    }
    if store.chunks.contains_key(key) && store.chunks[key].spilled {
        assert(store.spilled(key));
    }
}

/// A chunk in memory has the bytes of its records, one after another, and counts them; one
/// in a file is in the file that has its key's name, and knows how many bytes that has.
pub proof fn lemma_chunk_has_its_records(chunk: ChunkBuffer, key: VoxelKey)
    requires
        chunk.wf(key),
    ensures
        chunk matches ChunkBuffer::InMemory { bytes, point_count, records } ==> {
            &&& !chunk@.spilled
            &&& bytes@ == crate::bytes::joined(chunk@.records)
            &&& point_count == chunk@.records.len()
        },
        chunk matches ChunkBuffer::Spilled { path, point_count, byte_count, records } ==> {
            &&& chunk@.spilled
            &&& path@ == spill_file_name(key)
            &&& byte_count == crate::bytes::joined(chunk@.records).len()
            &&& point_count == chunk@.records.len()
        },
{
}

} // verus!
