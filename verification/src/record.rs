//! Variable length records of a file's header.

use crate::error::CopcError;
use crate::text::{same_text, to_lower_case};
use vstd::prelude::*;

verus! {

/// A variable length record.
#[derive(Debug)]
pub struct Vlr {
    /// Who defines the record.
    pub user_id: String,
    /// Which record it is, among those of the same user.
    pub record_id: u16,
    pub description: String,
    pub data: Vec<u8>,
}

/// What a record holds.
#[verifier::ext_equal]
pub struct VlrView {
    pub user_id: Seq<char>,
    pub record_id: u16,
    pub description: Seq<char>,
    pub data: Seq<u8>,
}

impl View for Vlr {
    type V = VlrView;

    open spec fn view(&self) -> VlrView {
        VlrView {
            user_id: self.user_id@,
            record_id: self.record_id,
            description: self.description@,
            data: self.data@,
        }
    }
}

impl Vlr {
    /// A record that holds the same.
    pub fn duplicate(&self) -> (res: Vlr)
        ensures
            res@ == self@,
    {
        let data: Vec<u8> = self.data.clone();
        assert(data@ =~= self.data@);
        Vlr {
            user_id: self.user_id.clone(),
            record_id: self.record_id,
            description: self.description.clone(),
            data,
        }
    }
}

/// What the records hold.
pub open spec fn views(records: Seq<Vlr>) -> Seq<VlrView> {
    records.map_values(|record: Vlr| record@)
}

/// What becomes of a record of the header that a file starts from.
#[derive(Clone, Copy, Debug, PartialEq, Eq, Structural)]
pub enum RecordRole {
    /// It is the coordinate reference system as text, and is kept.
    WktCrs,
    /// It does not describe the new file, and is left out.
    Dropped,
    /// It is none of the writer's business, and is kept.
    Forwarded,
}

/// The role of the record with the number `record_id` of the user whose name in
/// lower case is `user`. Left out are coordinate reference systems in GeoTIFF
/// form, what describes the layout of another file, and waveform descriptors.
pub open spec fn role(user: Seq<char>, record_id: u16) -> RecordRole {
    if user == "lasf_projection"@ && record_id == 2112 {
        RecordRole::WktCrs
    } else if (user == "lasf_projection"@ && 34735 <= record_id <= 34737) || (user == "copc"@ && (
    record_id == 1 || record_id == 1000)) || (user == "laszip encoded"@ && record_id == 22204) || (
    user == "lasf_spec"@ && (100 <= record_id < 355 || record_id == 65535)) {
        RecordRole::Dropped
    } else {
        RecordRole::Forwarded
    }
}

impl VlrView {
    /// The role of the record.
    pub open spec fn role(self) -> RecordRole {
        role(crate::text::lower_case(self.user_id), self.record_id)
    }

    /// Whether the record is the key directory of a coordinate reference system
    /// in GeoTIFF form.
    pub open spec fn is_geotiff_directory(self) -> bool {
        crate::text::lower_case(self.user_id) == "lasf_projection"@ && self.record_id == 34735
    }
}

/// The records that are kept, in order.
pub open spec fn forwarded(records: Seq<VlrView>) -> Seq<VlrView> {
    records.filter(|record: VlrView| record.role() != RecordRole::Dropped)
}

/// Whether the coordinate reference system is there as text.
pub open spec fn has_wkt(records: Seq<VlrView>) -> bool {
    exists|i: int| 0 <= i < records.len() && (#[trigger] records[i]).role() == RecordRole::WktCrs
}

/// Whether there is the key directory of a coordinate reference system in
/// GeoTIFF form.
pub open spec fn has_geotiff_directory(records: Seq<VlrView>) -> bool {
    exists|i: int| 0 <= i < records.len() && (#[trigger] records[i]).is_geotiff_directory()
}

/// Whether there is a coordinate reference system in one of the two forms.
pub open spec fn has_crs(records: Seq<VlrView>) -> bool {
    has_wkt(records) || has_geotiff_directory(records)
}

/// The role of the record with the number `record_id` of the user whose name in
/// lower case is `user`.
pub fn role_of(user: &str, record_id: u16) -> (res: RecordRole)
    ensures
        res == role(user@, record_id),
{
    let projection: bool = same_text(user, "lasf_projection");
    if projection && record_id == 2112 {
        RecordRole::WktCrs
    } else if projection && 34735 <= record_id && record_id <= 34737 {
        RecordRole::Dropped
    } else if same_text(user, "copc") && (record_id == 1 || record_id == 1000) {
        RecordRole::Dropped
    } else if same_text(user, "laszip encoded") && record_id == 22204 {
        RecordRole::Dropped
    } else if same_text(user, "lasf_spec") && ((100 <= record_id && record_id < 355) || record_id
        == 65535) {
        RecordRole::Dropped
    } else {
        RecordRole::Forwarded
    }
}

/// The records that are kept, in order, and whether the coordinate reference
/// system is among them as text.
pub fn forward_records(records: &Vec<Vlr>) -> (res: (Vec<Vlr>, bool))
    ensures
        views(res.0@) == forwarded(views(records@)),
        res.1 == has_wkt(views(records@)),
{
    let ghost all = views(records@);
    let mut kept: Vec<Vlr> = Vec::new();
    let mut wkt: bool = false;
    let mut i: usize = 0;
    assert(views(kept@) =~= forwarded(all.take(0))) by {
        reveal(Seq::filter);
    }
    while i < records.len()
        invariant
            0 <= i <= records@.len(),
            all == views(records@),
            views(kept@) == forwarded(all.take(i as int)),
            wkt == has_wkt(all.take(i as int)),
        decreases records@.len() - i,
    {
        let role: RecordRole = role_of(
            to_lower_case(records[i].user_id.as_str()).as_str(),
            records[i].record_id,
        );
        proof {
            let now = all.take(i + 1);
            assert(now.drop_last() =~= all.take(i as int));
            assert(now.last() == records@[i as int]@);
            reveal(Seq::filter);
            assert(has_wkt(now) <==> has_wkt(all.take(i as int)) || role == RecordRole::WktCrs) by {
                if has_wkt(all.take(i as int)) {
                    let j = choose|j: int|
                        0 <= j < i && (#[trigger] all.take(i as int)[j]).role() == RecordRole::WktCrs;
                    assert(now[j].role() == RecordRole::WktCrs);
                }
                if role == RecordRole::WktCrs {
                    assert(now[i as int].role() == RecordRole::WktCrs);
                }
                if has_wkt(now) && role != RecordRole::WktCrs {
                    let j = choose|j: int|
                        0 <= j < i + 1 && (#[trigger] now[j]).role() == RecordRole::WktCrs;
                    assert(all.take(i as int)[j].role() == RecordRole::WktCrs);
                }
            }
        }
        if role != RecordRole::Dropped {
            let ghost before = views(kept@);
            let copy = records[i].duplicate();
            kept.push(copy);
            assert(views(kept@) =~= before.push(records@[i as int]@));
        }
        if role == RecordRole::WktCrs {
            wkt = true;
        }
        i = i + 1;
    }
    assert(all.take(records@.len() as int) =~= all);
    (kept, wkt)
}

/// `bytes` followed by zeros, `width` bytes in all.
pub open spec fn padded(bytes: Seq<u8>, width: nat) -> Seq<u8> {
    bytes + crate::bytes::zeros((width - bytes.len()) as nat)
}

impl VlrView {
    /// Whether the record fits its header: the names in their fields, and the
    /// data's length in its field, which is wider for an extended record.
    pub open spec fn fits(self, extended: bool) -> bool {
        &&& vstd::utf8::encode_utf8(self.user_id).len() <= 16
        &&& vstd::utf8::encode_utf8(self.description).len() <= 32
        &&& extended || self.data.len() <= u16::MAX
    }

    /// The record in the file: two zeros, who defines it, which one it is, the
    /// length of the data, what it is about, and the data.
    pub open spec fn encoded(self, extended: bool) -> Seq<u8> {
        crate::bytes::zeros(2) + padded(vstd::utf8::encode_utf8(self.user_id), 16)
            + crate::bytes::little_endian(self.record_id as nat, 2) + crate::bytes::little_endian(
            self.data.len(),
            if extended {
                8
            } else {
                2
            },
        ) + padded(vstd::utf8::encode_utf8(self.description), 32) + self.data
    }
}

/// `las::Vlr::into_raw` and `las::raw::Vlr::write_to`: the record as it is in the
/// file. It is an error if and only if the record does not fit its header.
/// Writing to memory does not fail.
#[verifier::external_body]
fn raw_bytes(record: &Vlr, extended: bool) -> (res: Result<Vec<u8>, las::Error>)
    ensures
        res is Ok <==> record@.fits(extended),
        res matches Ok(bytes) ==> bytes@ == record@.encoded(extended),
{
    let vlr = las::Vlr {
        user_id: record.user_id.clone(),
        record_id: record.record_id,
        description: record.description.clone(),
        data: record.data.clone(),
    };
    let mut bytes = Vec::new();
    vlr.into_raw(extended)?.write_to(&mut bytes)?;
    Ok(bytes)
}

/// The record as it is in the file.
pub fn record_bytes(record: &Vlr, extended: bool) -> (res: Result<Vec<u8>, CopcError>)
    ensures
        record@.fits(extended) ==> (res matches Ok(bytes) && bytes@ == record@.encoded(extended)),
        !record@.fits(extended) ==> res is Err && res->Err_0 is InvalidRecord,
{
    match raw_bytes(record, extended) {
        Ok(bytes) => Ok(bytes),
        Err(error) => Err(CopcError::InvalidRecord(error)),
    }
}

/// The records in the file, one after another.
pub open spec fn encoded_records(records: Seq<VlrView>, extended: bool) -> Seq<u8>
    decreases records.len(),
{
    if records.len() == 0 {
        Seq::empty()
    } else {
        encoded_records(records.drop_last(), extended) + records.last().encoded(extended)
    }
}

/// Appends the records as they are in the file, one after another. It is an
/// error if one of them does not fit its header.
pub fn write_records(out: &mut Vec<u8>, records: &Vec<Vlr>, extended: bool) -> (res: Result<
    (),
    CopcError,
>)
    ensures
        (forall|i: int| 0 <= i < records@.len() ==> (#[trigger] records@[i])@.fits(extended))
            ==> res is Ok && final(out)@ == old(out)@ + encoded_records(
            views(records@),
            extended,
        ),
        res is Ok ==> forall|i: int|
            0 <= i < records@.len() ==> (#[trigger] records@[i])@.fits(extended),
        res is Err ==> res->Err_0 is InvalidRecord && old(out)@.is_prefix_of(final(out)@),
{
    let ghost all = views(records@);
    let mut i: usize = 0;
    assert(out@ =~= old(out)@ + encoded_records(all.take(0), extended));
    while i < records.len()
        invariant
            0 <= i <= records@.len(),
            all == views(records@),
            forall|j: int| 0 <= j < i ==> (#[trigger] records@[j])@.fits(extended),
            out@ == old(out)@ + encoded_records(all.take(i as int), extended),
        decreases records@.len() - i,
    {
        match record_bytes(&records[i], extended) {
            Ok(bytes) => {
                let ghost before = out@;
                let mut more: Vec<u8> = bytes;
                out.append(&mut more);
                let ghost now = all.take(i + 1);
                assert(now.drop_last() =~= all.take(i as int));
                assert(now.last() == records@[i as int]@);
                assert(out@ =~= old(out)@ + encoded_records(now, extended));
            },
            Err(error) => {
                return Err(error);
            },
        }
        i = i + 1;
    }
    assert(all.take(records@.len() as int) =~= all);
    Ok(())
}

/// Which records are left out: the three of a coordinate reference system in GeoTIFF
/// form, the description and the hierarchy of another file, how its points are
/// compressed, and what describes waveforms. The coordinate reference system as text is
/// told from the others that are kept.
pub proof fn lemma_records_left_out(user: Seq<char>, record_id: u16)
    ensures
        user == "lasf_projection"@ ==> {
            &&& record_id == 34735 || record_id == 34736 || record_id == 34737 <==> role(
                user,
                record_id,
            ) == RecordRole::Dropped
            &&& record_id == 2112 <==> role(user, record_id) == RecordRole::WktCrs
        },
        user == "copc"@ ==> (role(user, record_id) == RecordRole::Dropped <==> record_id == 1
            || record_id == 1000),
        user == "laszip encoded"@ ==> (role(user, record_id) == RecordRole::Dropped <==> record_id
            == 22204),
        user == "lasf_spec"@ ==> (role(user, record_id) == RecordRole::Dropped <==> record_id
            == 65535 || 100 <= record_id <= 354),
        user != "lasf_projection"@ ==> role(user, record_id) != RecordRole::WktCrs,
        user != "lasf_projection"@ && user != "copc"@ && user != "laszip encoded"@ && user
            != "lasf_spec"@ ==> role(user, record_id) == RecordRole::Forwarded,
{
    reveal_strlit("lasf_projection");
    reveal_strlit("copc");
    reveal_strlit("laszip encoded");
    reveal_strlit("lasf_spec");
    assert("lasf_projection"@.len() == 15);
    assert("copc"@.len() == 4);
    assert("laszip encoded"@.len() == 14);
    assert("lasf_spec"@.len() == 9);
}

/// A record is kept exactly where it is not left out, and those that are kept stay in
/// order: adding a record at the end of a header adds it at the end of what is kept, or
/// changes nothing.
pub proof fn lemma_records_are_kept_in_order(records: Seq<VlrView>, record: VlrView)
    ensures
        forwarded(Seq::empty()) == Seq::<VlrView>::empty(),
        record.role() == RecordRole::Dropped ==> forwarded(records.push(record)) == forwarded(
            records,
        ),
        record.role() != RecordRole::Dropped ==> forwarded(records.push(record)) == forwarded(
            records,
        ) + seq![record],
{
    reveal(Seq::filter);
    assert(records.push(record).drop_last() =~= records);
    assert(forwarded(records).push(record) =~= forwarded(records) + seq![record]);
    assert(forwarded(Seq::empty()) =~= Seq::<VlrView>::empty());
}

/// A coordinate reference system is found where it is: in a record of
/// `LASF_Projection` with the number 2112, as text, or with the number 34735, in GeoTIFF
/// form.
pub proof fn lemma_reference_systems_are_found(records: Seq<VlrView>)
    ensures
        has_wkt(records) <==> exists|i: int|
            0 <= i < records.len() && (#[trigger] records[i]).record_id == 2112
                && crate::text::lower_case(records[i].user_id) == "lasf_projection"@,
        has_geotiff_directory(records) <==> exists|i: int|
            0 <= i < records.len() && (#[trigger] records[i]).record_id == 34735
                && crate::text::lower_case(records[i].user_id) == "lasf_projection"@,
        has_crs(records) <==> exists|i: int|
            0 <= i < records.len() && ((#[trigger] records[i]).record_id == 2112
                || records[i].record_id == 34735) && crate::text::lower_case(records[i].user_id)
                == "lasf_projection"@,
{
    assert forall|i: int| 0 <= i < records.len() implies ((#[trigger] records[i]).role()
        == RecordRole::WktCrs <==> records[i].record_id == 2112 && crate::text::lower_case(
        records[i].user_id,
    ) == "lasf_projection"@) by {
        lemma_records_left_out(
            crate::text::lower_case(records[i].user_id),
            records[i].record_id,
        );
    }
}

/// A record in the file: two zeros, the user in 16 bytes, the number of the record in
/// two, the length of the data in two, or eight where the record is extended, the
/// description in 32, and the data, up to the end.
pub proof fn lemma_record_layout(record: VlrView, extended: bool)
    requires
        record.fits(extended),
        record.data.len() <= u64::MAX,
    ensures
        ({
            let bytes = record.encoded(extended);
            let wide: int = if extended { 8 } else { 2 };
            &&& bytes.len() == 52 + wide + record.data.len()
            &&& bytes[0] == 0 && bytes[1] == 0
            &&& bytes.subrange(2, 18) == padded(vstd::utf8::encode_utf8(record.user_id), 16)
            &&& crate::bytes::number_of(bytes.subrange(18, 20)) == record.record_id
            &&& crate::bytes::number_of(bytes.subrange(20, 20 + wide)) == record.data.len()
            &&& bytes.subrange(20 + wide, 52 + wide) == padded(
                vstd::utf8::encode_utf8(record.description),
                32,
            )
            &&& bytes.skip(52 + wide) == record.data
        }),
{
    let bytes = record.encoded(extended);
    let wide: int = if extended { 8 } else { 2 };
    let length = record.data.len();
    crate::bytes::lemma_two_bytes(record.record_id);
    if extended {
        crate::bytes::lemma_eight_bytes(length as u64);
    } else {
        crate::bytes::lemma_two_bytes(length as u16);
    }
    assert(bytes.subrange(2, 18) =~= padded(vstd::utf8::encode_utf8(record.user_id), 16));
    assert(bytes.subrange(18, 20) =~= crate::bytes::little_endian(record.record_id as nat, 2));
    assert(bytes.subrange(20, 20 + wide) =~= crate::bytes::little_endian(length, wide as nat));
    assert(bytes.subrange(20 + wide, 52 + wide) =~= padded(
        vstd::utf8::encode_utf8(record.description),
        32,
    ));
    assert(bytes.skip(52 + wide) =~= record.data);
}

/// Padding keeps the bytes and adds zeros up to the width.
pub proof fn lemma_padding_is_zeros(bytes: Seq<u8>, width: nat, i: int)
    requires
        bytes.len() <= width,
    ensures
        padded(bytes, width).len() == width,
        0 <= i < bytes.len() ==> padded(bytes, width)[i] == bytes[i],
        bytes.len() <= i < width ==> padded(bytes, width)[i] == 0,
{
}

/// Records in the file are one after another, in order.
pub proof fn lemma_records_one_after_another(a: Seq<VlrView>, b: Seq<VlrView>, extended: bool)
    ensures
        encoded_records(a + b, extended) == encoded_records(a, extended) + encoded_records(
            b,
            extended,
        ),
        a.len() == 1 ==> encoded_records(a, extended) == a[0].encoded(extended),
        a.len() == 0 ==> encoded_records(a, extended).len() == 0,
    decreases b.len(),
{
    if a.len() == 1 {
        let none = Seq::<VlrView>::empty();
        assert(a.drop_last() =~= none);
        assert(encoded_records(none, extended) + a.last().encoded(extended) =~= a[0].encoded(
            extended,
        ));
    }
    if b.len() == 0 {
        assert(a + b =~= a);
        assert(encoded_records(a, extended) + encoded_records(b, extended) =~= encoded_records(
            a,
            extended,
        ));
    } else {
        assert((a + b).drop_last() =~= a + b.drop_last());
        lemma_records_one_after_another(a, b.drop_last(), extended);
        assert(encoded_records(a + b, extended) =~= encoded_records(a, extended) + encoded_records(
            b,
            extended,
        ));
    }
}

/// What a record holds is its four parts; what records hold is what each of them holds, in
/// order.
pub proof fn lemma_records_hold_their_parts(records: Seq<Vlr>, i: int)
    requires
        0 <= i < records.len(),
    ensures
        views(records).len() == records.len(),
        views(records)[i].user_id == records[i].user_id@,
        views(records)[i].record_id == records[i].record_id,
        views(records)[i].description == records[i].description@,
        views(records)[i].data == records[i].data@,
{
}

} // verus!
