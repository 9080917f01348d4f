//! The hierarchy, which says where each octree node's chunk is in the file, and
//! the description of the file as a whole.

use crate::bytes::{push_i32, push_little_endian, push_zeros};
use crate::geometry::Position;
use crate::key::VoxelKey;
use crate::record::Vlr;
use vstd::prelude::*;

verus! {

/// The size of an entry in the file.
pub const ENTRY_SIZE: u64 = 32;

/// Where the points of one octree node are in the file.
#[derive(Clone, Copy, Debug, PartialEq, Eq, Structural)]
pub struct Entry {
    pub key: VoxelKey,
    /// Where the chunk starts in the file.
    pub offset: u64,
    /// The size of the compressed chunk.
    pub byte_size: i32,
    /// The number of points in the chunk.
    pub point_count: i32,
}

impl Entry {
    /// The entry in the file.
    pub open spec fn encoded(self) -> Seq<u8> {
        crate::bytes::little_endian(crate::bytes::unsigned(self.key.level), 4)
            + crate::bytes::little_endian(crate::bytes::unsigned(self.key.x), 4)
            + crate::bytes::little_endian(crate::bytes::unsigned(self.key.y), 4)
            + crate::bytes::little_endian(crate::bytes::unsigned(self.key.z), 4)
            + crate::bytes::little_endian(self.offset as nat, 8)
            + crate::bytes::little_endian(crate::bytes::unsigned(self.byte_size), 4)
            + crate::bytes::little_endian(crate::bytes::unsigned(self.point_count), 4)
    }

    /// Appends the entry as it is in the file.
    pub fn write_to(&self, out: &mut Vec<u8>)
        ensures
            final(out)@ == old(out)@ + self.encoded(),
    {
        push_i32(out, self.key.level);
        push_i32(out, self.key.x);
        push_i32(out, self.key.y);
        push_i32(out, self.key.z);
        push_little_endian(out, self.offset, 8);
        push_i32(out, self.byte_size);
        push_i32(out, self.point_count);
        assert(out@ =~= old(out)@ + self.encoded());
    }
}

/// The entries in the file, one after another.
pub open spec fn encoded_entries(entries: Seq<Entry>) -> Seq<u8>
    decreases entries.len(),
{
    if entries.len() == 0 {
        Seq::empty()
    } else {
        encoded_entries(entries.drop_last()) + entries.last().encoded()
    }
}

/// The entries of all chunks that are written.
#[derive(Debug)]
pub struct HierarchyPage {
    pub entries: Vec<Entry>,
}

/// The record of a hierarchy with these entries.
pub open spec fn hierarchy_record(entries: Seq<Entry>) -> crate::record::VlrView {
    crate::record::VlrView {
        user_id: "copc"@,
        record_id: 1000,
        description: "EPT hierarchy"@,
        data: encoded_entries(entries),
    }
}

impl HierarchyPage {
    /// The size of the entries in the file.
    pub fn byte_size(&self) -> (res: u64)
        requires
            ENTRY_SIZE * self.entries@.len() <= u64::MAX,
        ensures
            res == ENTRY_SIZE * self.entries@.len(),
    {
        ENTRY_SIZE * self.entries.len() as u64
    }

    /// The record of the hierarchy.
    pub fn to_evlr(&self) -> (res: Vlr)
        ensures
            res@ == hierarchy_record(self.entries@),
            res@.data.len() == ENTRY_SIZE * self.entries@.len(),
    {
        let mut data: Vec<u8> = Vec::new();
        let mut i: usize = 0;
        while i < self.entries.len()
            invariant
                0 <= i <= self.entries@.len(),
                data@ == encoded_entries(self.entries@.take(i as int)),
            decreases self.entries@.len() - i,
        {
            self.entries[i].write_to(&mut data);
            i = i + 1;
            assert(self.entries@.take(i as int).drop_last() =~= self.entries@.take(i - 1));
        }
        assert(self.entries@.take(self.entries@.len() as int) =~= self.entries@);
        proof {
            lemma_entries_len(self.entries@);
        }
        let res = Vlr {
            user_id: String::from_str("copc"),
            record_id: 1000,
            description: String::from_str("EPT hierarchy"),
            data,
        };
        assert(res@ =~= hierarchy_record(self.entries@));
        res
    }
}

proof fn lemma_entry_len(entry: Entry)
    ensures
        entry.encoded().len() == ENTRY_SIZE,
{
    crate::bytes::lemma_little_endian_len(crate::bytes::unsigned(entry.key.level), 4);
    crate::bytes::lemma_little_endian_len(crate::bytes::unsigned(entry.key.x), 4);
    crate::bytes::lemma_little_endian_len(crate::bytes::unsigned(entry.key.y), 4);
    crate::bytes::lemma_little_endian_len(crate::bytes::unsigned(entry.key.z), 4);
    crate::bytes::lemma_little_endian_len(entry.offset as nat, 8);
    crate::bytes::lemma_little_endian_len(crate::bytes::unsigned(entry.byte_size), 4);
    crate::bytes::lemma_little_endian_len(crate::bytes::unsigned(entry.point_count), 4);
}

/// The entries have the size that is said of them.
pub proof fn lemma_entries_len(entries: Seq<Entry>)
    ensures
        encoded_entries(entries).len() == ENTRY_SIZE * entries.len(),
    decreases entries.len(),
{
    if entries.len() > 0 {
        lemma_entries_len(entries.drop_last());
        lemma_entry_len(entries.last());
    }
}

proof fn lemma_i32_reads_back(a: i32, b: i32)
    requires
        crate::bytes::little_endian(crate::bytes::unsigned(a), 4) == crate::bytes::little_endian(
            crate::bytes::unsigned(b),
            4,
        ),
    ensures
        a == b,
{
    assert(vstd::arithmetic::power::pow(256, 4) == 0x1_0000_0000) by {
        reveal_with_fuel(vstd::arithmetic::power::pow, 5);
    }
    crate::bytes::lemma_little_endian_reads_back(
        crate::bytes::unsigned(a),
        crate::bytes::unsigned(b),
        4,
    );
}

proof fn lemma_u64_reads_back(a: u64, b: u64)
    requires
        crate::bytes::little_endian(a as nat, 8) == crate::bytes::little_endian(b as nat, 8),
    ensures
        a == b,
{
    assert(vstd::arithmetic::power::pow(256, 8) == 0x1_0000_0000_0000_0000) by {
        reveal_with_fuel(vstd::arithmetic::power::pow, 9);
    }
    crate::bytes::lemma_little_endian_reads_back(a as nat, b as nat, 8);
}

/// An entry can be read back from the file: entries with the same bytes are the
/// same.
pub proof fn lemma_entry_reads_back(a: Entry, b: Entry)
    requires
        a.encoded() == b.encoded(),
    ensures
        a == b,
{
    lemma_entry_fields(a);
    lemma_entry_fields(b);
    lemma_i32_reads_back(a.key.level, b.key.level);
    lemma_i32_reads_back(a.key.x, b.key.x);
    lemma_i32_reads_back(a.key.y, b.key.y);
    lemma_i32_reads_back(a.key.z, b.key.z);
    lemma_u64_reads_back(a.offset, b.offset);
    lemma_i32_reads_back(a.byte_size, b.byte_size);
    lemma_i32_reads_back(a.point_count, b.point_count);
}

proof fn lemma_entry_fields(entry: Entry)
    ensures
        entry.encoded().subrange(0, 4) == crate::bytes::little_endian(
            crate::bytes::unsigned(entry.key.level),
            4,
        ),
        entry.encoded().subrange(4, 8) == crate::bytes::little_endian(
            crate::bytes::unsigned(entry.key.x),
            4,
        ),
        entry.encoded().subrange(8, 12) == crate::bytes::little_endian(
            crate::bytes::unsigned(entry.key.y),
            4,
        ),
        entry.encoded().subrange(12, 16) == crate::bytes::little_endian(
            crate::bytes::unsigned(entry.key.z),
            4,
        ),
        entry.encoded().subrange(16, 24) == crate::bytes::little_endian(entry.offset as nat, 8),
        entry.encoded().subrange(24, 28) == crate::bytes::little_endian(
            crate::bytes::unsigned(entry.byte_size),
            4,
        ),
        entry.encoded().subrange(28, 32) == crate::bytes::little_endian(
            crate::bytes::unsigned(entry.point_count),
            4,
        ),
{
    crate::bytes::lemma_little_endian_len(crate::bytes::unsigned(entry.key.level), 4);
    crate::bytes::lemma_little_endian_len(crate::bytes::unsigned(entry.key.x), 4);
    crate::bytes::lemma_little_endian_len(crate::bytes::unsigned(entry.key.y), 4);
    crate::bytes::lemma_little_endian_len(crate::bytes::unsigned(entry.key.z), 4);
    crate::bytes::lemma_little_endian_len(entry.offset as nat, 8);
    crate::bytes::lemma_little_endian_len(crate::bytes::unsigned(entry.byte_size), 4);
    crate::bytes::lemma_little_endian_len(crate::bytes::unsigned(entry.point_count), 4);
}

/// The hierarchy can be read back from the file: pages with the same bytes have
/// the same entries, in the same order.
pub proof fn lemma_entries_read_back(a: Seq<Entry>, b: Seq<Entry>)
    requires
        encoded_entries(a) == encoded_entries(b),
    ensures
        a == b,
    decreases a.len(),
{
    lemma_entries_len(a);
    lemma_entries_len(b);
    assert(a.len() == b.len());
    if a.len() > 0 {
        lemma_entries_len(a.drop_last());
        lemma_entries_len(b.drop_last());
        let whole = encoded_entries(a);
        let cut = ENTRY_SIZE * (a.len() - 1);
        assert(whole.subrange(0, cut) =~= encoded_entries(a.drop_last()));
        assert(whole.subrange(0, cut) =~= encoded_entries(b.drop_last()));
        assert(whole.subrange(cut, whole.len() as int) =~= a.last().encoded());
        assert(whole.subrange(cut, whole.len() as int) =~= b.last().encoded());
        lemma_entry_reads_back(a.last(), b.last());
        lemma_entries_read_back(a.drop_last(), b.drop_last());
        assert(a =~= a.drop_last().push(a.last()));
        assert(b =~= b.drop_last().push(b.last()));
    } else {
        assert(a =~= b);
    }
}

/// What a file says of itself: the cube that it covers, the spacing of its
/// points, where its hierarchy is, and when its points were taken. Coordinates,
/// lengths and times are the bits of binary64 numbers.
#[derive(Clone, Copy, Debug, PartialEq, Eq, Structural)]
pub struct CopcInfo {
    pub center: Position,
    pub halfsize: u64,
    pub spacing: u64,
    pub root_hier_offset: u64,
    pub root_hier_size: u64,
    pub gpstime_minimum: u64,
    pub gpstime_maximum: u64,
}

impl CopcInfo {
    /// All zero, as it is before the file is complete.
    pub open spec fn blank() -> CopcInfo {
        CopcInfo {
            center: Position { x: 0, y: 0, z: 0 },
            halfsize: 0,
            spacing: 0,
            root_hier_offset: 0,
            root_hier_size: 0,
            gpstime_minimum: 0,
            gpstime_maximum: 0,
        }
    }

    /// The description in the file.
    pub open spec fn encoded(self) -> Seq<u8> {
        crate::bytes::little_endian(self.center.x as nat, 8) + crate::bytes::little_endian(
            self.center.y as nat,
            8,
        ) + crate::bytes::little_endian(self.center.z as nat, 8) + crate::bytes::little_endian(
            self.halfsize as nat,
            8,
        ) + crate::bytes::little_endian(self.spacing as nat, 8) + crate::bytes::little_endian(
            self.root_hier_offset as nat,
            8,
        ) + crate::bytes::little_endian(self.root_hier_size as nat, 8)
            + crate::bytes::little_endian(self.gpstime_minimum as nat, 8)
            + crate::bytes::little_endian(self.gpstime_maximum as nat, 8) + crate::bytes::zeros(88)
    }

    /// The record of the description.
    pub open spec fn record(self) -> crate::record::VlrView {
        crate::record::VlrView {
            user_id: "copc"@,
            record_id: 1,
            description: "COPC info VLR"@,
            data: self.encoded(),
        }
    }

    /// The record of the description.
    pub fn to_vlr(&self) -> (res: Vlr)
        ensures
            res@ == self.record(),
            res@.data.len() == 160,
    {
        let mut data: Vec<u8> = Vec::new();
        push_little_endian(&mut data, self.center.x, 8);
        push_little_endian(&mut data, self.center.y, 8);
        push_little_endian(&mut data, self.center.z, 8);
        push_little_endian(&mut data, self.halfsize, 8);
        push_little_endian(&mut data, self.spacing, 8);
        push_little_endian(&mut data, self.root_hier_offset, 8);
        push_little_endian(&mut data, self.root_hier_size, 8);
        push_little_endian(&mut data, self.gpstime_minimum, 8);
        push_little_endian(&mut data, self.gpstime_maximum, 8);
        push_zeros(&mut data, 88);
        proof {
            assert(data@ =~= self.encoded());
            crate::bytes::lemma_little_endian_len(self.center.x as nat, 8);
            crate::bytes::lemma_little_endian_len(self.center.y as nat, 8);
            crate::bytes::lemma_little_endian_len(self.center.z as nat, 8);
            crate::bytes::lemma_little_endian_len(self.halfsize as nat, 8);
            crate::bytes::lemma_little_endian_len(self.spacing as nat, 8);
            crate::bytes::lemma_little_endian_len(self.root_hier_offset as nat, 8);
            crate::bytes::lemma_little_endian_len(self.root_hier_size as nat, 8);
            crate::bytes::lemma_little_endian_len(self.gpstime_minimum as nat, 8);
            crate::bytes::lemma_little_endian_len(self.gpstime_maximum as nat, 8);
        }
        let res = Vlr {
            user_id: String::from_str("copc"),
            record_id: 1,
            description: String::from_str("COPC info VLR"),
            data,
        };
        assert(res@ =~= self.record());
        res
    }
}

impl Default for CopcInfo {
    /// All zero.
    fn default() -> (res: CopcInfo)
        ensures
            res == CopcInfo::blank(),
    {
        CopcInfo {
            center: Position { x: 0, y: 0, z: 0 },
            halfsize: 0,
            spacing: 0,
            root_hier_offset: 0,
            root_hier_size: 0,
            gpstime_minimum: 0,
            gpstime_maximum: 0,
        }
    }
}

/// An entry in the file: 32 bytes, which are the level and the three coordinates of the
/// key, where the chunk starts, its size, and its points, one after another. All but
/// the start are four bytes with a sign; the start is eight bytes.
pub proof fn lemma_entry_layout(entry: Entry)
    ensures
        ({
            let bytes = entry.encoded();
            &&& bytes.len() == 32
            &&& crate::bytes::signed_number_of(bytes.subrange(0, 4)) == entry.key.level
            &&& crate::bytes::signed_number_of(bytes.subrange(4, 8)) == entry.key.x
            &&& crate::bytes::signed_number_of(bytes.subrange(8, 12)) == entry.key.y
            &&& crate::bytes::signed_number_of(bytes.subrange(12, 16)) == entry.key.z
            &&& crate::bytes::number_of(bytes.subrange(16, 24)) == entry.offset
            &&& crate::bytes::signed_number_of(bytes.subrange(24, 28)) == entry.byte_size
            &&& crate::bytes::signed_number_of(bytes.subrange(28, 32)) == entry.point_count
        }),
{
    lemma_entry_len(entry);
    lemma_entry_fields(entry);
    crate::bytes::lemma_four_bytes(entry.key.level);
    crate::bytes::lemma_four_bytes(entry.key.x);
    crate::bytes::lemma_four_bytes(entry.key.y);
    crate::bytes::lemma_four_bytes(entry.key.z);
    crate::bytes::lemma_eight_bytes(entry.offset);
    crate::bytes::lemma_four_bytes(entry.byte_size);
    crate::bytes::lemma_four_bytes(entry.point_count);
}

/// The entries are in the file in order, each in its own 32 bytes.
pub proof fn lemma_entries_layout(entries: Seq<Entry>, i: int)
    requires
        0 <= i < entries.len(),
    ensures
        encoded_entries(entries).len() == 32 * entries.len(),
        encoded_entries(entries).subrange(32 * i, 32 * i + 32) == entries[i].encoded(),
    decreases entries.len(),
{
    let fewer = entries.drop_last();
    lemma_entries_len(entries);
    lemma_entries_len(fewer);
    lemma_entry_len(entries.last());
    if i < entries.len() - 1 {
        lemma_entries_layout(fewer, i);
        assert(encoded_entries(entries).subrange(32 * i, 32 * i + 32) =~= encoded_entries(
            fewer,
        ).subrange(32 * i, 32 * i + 32));
    } else {
        assert(encoded_entries(entries).subrange(32 * i, 32 * i + 32) =~= entries[i].encoded());
    }
}

/// The record of the hierarchy is record 1000 of `copc`, and its data are the entries.
pub proof fn lemma_hierarchy_record_layout(entries: Seq<Entry>)
    ensures
        hierarchy_record(entries).user_id == seq!['c', 'o', 'p', 'c'],
        hierarchy_record(entries).record_id == 1000,
        hierarchy_record(entries).data.len() == 32 * entries.len(),
        hierarchy_record(entries).data == encoded_entries(entries),
{
    reveal_strlit("copc");
    lemma_entries_len(entries);
}

/// The description in the file: 160 bytes, of which the first 72 are nine numbers of
/// eight bytes, and the others are zero. They are the center, half the edge, the spacing,
/// where the hierarchy starts, its size, and the two limits of the times.
pub proof fn lemma_description_layout(info: CopcInfo, i: int)
    ensures
        ({
            let bytes = info.encoded();
            &&& bytes.len() == 160
            &&& crate::bytes::number_of(bytes.subrange(0, 8)) == info.center.x
            &&& crate::bytes::number_of(bytes.subrange(8, 16)) == info.center.y
            &&& crate::bytes::number_of(bytes.subrange(16, 24)) == info.center.z
            &&& crate::bytes::number_of(bytes.subrange(24, 32)) == info.halfsize
            &&& crate::bytes::number_of(bytes.subrange(32, 40)) == info.spacing
            &&& crate::bytes::number_of(bytes.subrange(40, 48)) == info.root_hier_offset
            &&& crate::bytes::number_of(bytes.subrange(48, 56)) == info.root_hier_size
            &&& crate::bytes::number_of(bytes.subrange(56, 64)) == info.gpstime_minimum
            &&& crate::bytes::number_of(bytes.subrange(64, 72)) == info.gpstime_maximum
            &&& 72 <= i < 160 ==> bytes[i] == 0
        }),
{
    let bytes = info.encoded();
    crate::bytes::lemma_eight_bytes(info.center.x);
    crate::bytes::lemma_eight_bytes(info.center.y);
    crate::bytes::lemma_eight_bytes(info.center.z);
    crate::bytes::lemma_eight_bytes(info.halfsize);
    crate::bytes::lemma_eight_bytes(info.spacing);
    crate::bytes::lemma_eight_bytes(info.root_hier_offset);
    crate::bytes::lemma_eight_bytes(info.root_hier_size);
    crate::bytes::lemma_eight_bytes(info.gpstime_minimum);
    crate::bytes::lemma_eight_bytes(info.gpstime_maximum);
    crate::bytes::lemma_zeros_are_zero(88, i - 72);
    assert(bytes.subrange(0, 8) =~= crate::bytes::little_endian(info.center.x as nat, 8));
    assert(bytes.subrange(8, 16) =~= crate::bytes::little_endian(info.center.y as nat, 8));
    assert(bytes.subrange(16, 24) =~= crate::bytes::little_endian(info.center.z as nat, 8));
    assert(bytes.subrange(24, 32) =~= crate::bytes::little_endian(info.halfsize as nat, 8));
    assert(bytes.subrange(32, 40) =~= crate::bytes::little_endian(info.spacing as nat, 8));
    assert(bytes.subrange(40, 48) =~= crate::bytes::little_endian(
        info.root_hier_offset as nat,
        8,
    ));
    assert(bytes.subrange(48, 56) =~= crate::bytes::little_endian(info.root_hier_size as nat, 8));
    assert(bytes.subrange(56, 64) =~= crate::bytes::little_endian(info.gpstime_minimum as nat, 8));
    assert(bytes.subrange(64, 72) =~= crate::bytes::little_endian(info.gpstime_maximum as nat, 8));
}

/// The record of the description is record 1 of `copc`. Before the file is complete
/// nothing is in it.
pub proof fn lemma_description_record_layout(info: CopcInfo)
    ensures
        info.record().user_id == seq!['c', 'o', 'p', 'c'],
        info.record().record_id == 1,
        info.record().data == info.encoded(),
        CopcInfo::blank().center == (Position { x: 0, y: 0, z: 0 }),
        CopcInfo::blank().halfsize == 0 && CopcInfo::blank().spacing == 0,
        CopcInfo::blank().root_hier_offset == 0 && CopcInfo::blank().root_hier_size == 0,
        CopcInfo::blank().gpstime_minimum == 0 && CopcInfo::blank().gpstime_maximum == 0,
{
    reveal_strlit("copc");
}

} // verus!
