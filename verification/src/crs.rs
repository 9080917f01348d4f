//! The coordinate reference system of a file.
//!
//! The points of a file need one, as text. Where the header that a file starts
//! from has it in GeoTIFF form only, its code is looked up and its definition
//! added.

use crate::error::CopcError;
use crate::record::{forward_records, Vlr};
use vstd::prelude::*;

verus! {

/// The horizontal coordinate reference system that `las_crs::parse_las_crs`
/// reads from a header with these records: its EPSG code, or `None` where there
/// is an error.
pub uninterp spec fn horizontal_crs(
    vlrs: Seq<crate::record::VlrView>,
    evlrs: Seq<crate::record::VlrView>,
) -> Option<u16>;

/// The text of the coordinate reference system with this EPSG code, as
/// `crs_definitions::from_code` has it.
pub uninterp spec fn wkt_definition(code: u16) -> Option<Seq<char>>;

/// `las_crs::parse_las_crs`, on a header with the records `vlrs` and `evlrs`:
/// the EPSG code of the horizontal coordinate reference system, which is a
/// function of the records, or an error. Without a reference system as text
/// among the records, and without a GeoTIFF key directory, it is an error. How
/// the keys are read, and which error comes when, is not stated. With a
/// reference system as text, which this crate never asks for, the call might
/// overflow.
#[verifier::external_body]
fn parse_crs(vlrs: &Vec<Vlr>, evlrs: &Vec<Vlr>) -> (res: Result<u16, las_crs::CrsError>)
    requires
        !crate::record::has_wkt(crate::record::views(vlrs@)),
        !crate::record::has_wkt(crate::record::views(evlrs@)),
    ensures
        horizontal_crs(crate::record::views(vlrs@), crate::record::views(evlrs@)) == res.ok(),
        !crate::record::has_geotiff_directory(crate::record::views(vlrs@))
            && !crate::record::has_geotiff_directory(crate::record::views(evlrs@)) ==> res is Err,
{
    let to_las = |record: &Vlr|
        las::Vlr {
            user_id: record.user_id.clone(),
            record_id: record.record_id,
            description: record.description.clone(),
            data: record.data.clone(),
        };
    let mut builder = las::Builder::from((1, 4));
    builder.vlrs = vlrs.iter().map(to_las).collect();
    builder.evlrs = evlrs.iter().map(to_las).collect();
    let header = builder.into_header().map_err(|_| las_crs::CrsError::NoCrs)?;
    las_crs::parse_las_crs(&header).map(|crs| crs.horizontal)
}

/// `crs_definitions::from_code`: the definition, as text, of the coordinate
/// reference system with this EPSG code, if the crate has one. Which codes have
/// which definitions is not stated.
#[verifier::external_body]
fn crs_wkt(code: u16) -> (res: Option<&'static str>)
    ensures
        res is Some <==> wkt_definition(code) is Some,
        res matches Some(wkt) ==> wkt_definition(code) == Some(wkt@),
{
    crs_definitions::from_code(code).map(|definition| definition.wkt)
}

/// The record of the coordinate reference system with the definition `wkt`.
pub open spec fn wkt_record(wkt: Seq<char>) -> crate::record::VlrView {
    crate::record::VlrView {
        user_id: "LASF_Projection"@,
        record_id: 2112,
        description: ""@,
        data: vstd::utf8::encode_utf8(wkt),
    }
}

/// The record of the coordinate reference system with the EPSG code `code` and
/// the given definition; without a definition the code is an error.
pub fn crs_record(code: u16, definition: Option<&str>) -> (res: Result<Vlr, CopcError>)
    ensures
        definition is None ==> res == Err::<Vlr, CopcError>(CopcError::InvalidEPSGCode(code)),
        definition matches Some(wkt) ==> (res matches Ok(record) && record@ == wkt_record(wkt@)),
{
    let wkt: &str = match definition {
        Some(wkt) => wkt,
        None => return Err(CopcError::InvalidEPSGCode(code)),
    };
    let mut data: Vec<u8> = Vec::new();
    data.extend_from_slice(wkt.as_bytes());
    assert(data@ =~= vstd::utf8::encode_utf8(wkt@));
    Ok(
        Vlr {
            user_id: String::from_str("LASF_Projection"),
            record_id: 2112,
            description: String::from_str(""),
            data,
        },
    )
}

/// What becomes of the records of a header.
#[verifier::ext_equal]
pub enum RecordPlan {
    /// These records are kept, or new.
    Kept { vlrs: Seq<crate::record::VlrView>, evlrs: Seq<crate::record::VlrView> },
    /// There is no coordinate reference system.
    NoCrs,
    /// There is no definition of the coordinate reference system.
    NoDefinition { code: u16 },
}

/// What becomes of the records `vlrs` and `evlrs`: those that are kept stay in
/// order, and the coordinate reference system is there as text. It is among the
/// records, or else a new last one, where `crs` is the code read from the records
/// and `definitions` has the definitions of codes.
pub open spec fn record_plan(
    vlrs: Seq<crate::record::VlrView>,
    evlrs: Seq<crate::record::VlrView>,
    crs: Option<u16>,
    definitions: spec_fn(u16) -> Option<Seq<char>>,
) -> RecordPlan {
    let kept = crate::record::forwarded(vlrs);
    let kept_extended = crate::record::forwarded(evlrs);
    if crate::record::has_wkt(vlrs) || crate::record::has_wkt(evlrs) {
        RecordPlan::Kept { vlrs: kept, evlrs: kept_extended }
    } else {
        match crs {
            None => RecordPlan::NoCrs,
            Some(code) => match definitions(code) {
                None => RecordPlan::NoDefinition { code },
                Some(wkt) => RecordPlan::Kept {
                    vlrs: kept.push(wkt_record(wkt)),
                    evlrs: kept_extended,
                },
            },
        }
    }
}

/// What becomes of the records `vlrs` and `evlrs` of a header, with the outside
/// crates' codes and definitions.
pub open spec fn planned(
    vlrs: Seq<crate::record::VlrView>,
    evlrs: Seq<crate::record::VlrView>,
) -> RecordPlan {
    record_plan(vlrs, evlrs, horizontal_crs(vlrs, evlrs), |code: u16| wkt_definition(code))
}

/// The records that are kept of the records `vlrs` and `evlrs` of a header, in
/// order, with the coordinate reference system as text: that of the records, or
/// else a new last one. Without a reference system in any form it is an error.
pub fn plan_records(vlrs: &Vec<Vlr>, evlrs: &Vec<Vlr>) -> (res: Result<
    (Vec<Vlr>, Vec<Vlr>),
    CopcError,
>)
    ensures
        match planned(crate::record::views(vlrs@), crate::record::views(evlrs@)) {
            RecordPlan::Kept { vlrs: kept, evlrs: kept_extended } => {
                &&& res is Ok
                &&& crate::record::views(res->Ok_0.0@) == kept
                &&& crate::record::views(res->Ok_0.1@) == kept_extended
            },
            RecordPlan::NoCrs => res is Err && res->Err_0 is InvalidCrs,
            RecordPlan::NoDefinition { code } => res is Err && res->Err_0
                == CopcError::InvalidEPSGCode(code),
        },
        !crate::record::has_crs(crate::record::views(vlrs@)) && !crate::record::has_crs(
            crate::record::views(evlrs@),
        ) ==> planned(crate::record::views(vlrs@), crate::record::views(evlrs@)) is NoCrs,
{
    let (mut kept, wkt) = forward_records(vlrs);
    let (kept_extended, wkt_extended) = forward_records(evlrs);
    if !wkt && !wkt_extended {
        let code: u16 = match parse_crs(vlrs, evlrs) {
            Ok(code) => code,
            Err(error) => return Err(CopcError::InvalidCrs(error)),
        };
        let ghost before = crate::record::views(kept@);
        match crs_record(code, crs_wkt(code)) {
            Ok(record) => {
                kept.push(record);
                assert(crate::record::views(kept@) =~= before.push(record@));
            },
            Err(error) => return Err(error),
        }
    }
    Ok((kept, kept_extended))
}

/// A planned file has its coordinate reference system as text: in a record that
/// is kept, or in the last one, which is new. And it has no record that is to be
/// left out.
pub proof fn lemma_planned_file_has_a_crs(
    vlrs: Seq<crate::record::VlrView>,
    evlrs: Seq<crate::record::VlrView>,
    crs: Option<u16>,
    definitions: spec_fn(u16) -> Option<Seq<char>>,
)
    ensures
        record_plan(vlrs, evlrs, crs, definitions) matches RecordPlan::Kept {
            vlrs: kept,
            evlrs: kept_extended,
        } ==> {
            let is_new = kept.len() > 0 && exists|wkt: Seq<char>| kept.last() == #[trigger] wkt_record(wkt);
            &&& crate::record::has_wkt(kept) || crate::record::has_wkt(kept_extended) || is_new
            &&& forall|i: int|
                0 <= i < kept.len() ==> (#[trigger] kept[i]).role()
                    != crate::record::RecordRole::Dropped || (is_new && i == kept.len() - 1)
            &&& forall|i: int|
                0 <= i < kept_extended.len() ==> (#[trigger] kept_extended[i]).role()
                    != crate::record::RecordRole::Dropped
        },
{
    lemma_forwarding(vlrs);
    lemma_forwarding(evlrs);
    if let RecordPlan::Kept { vlrs: kept, evlrs: kept_extended } = record_plan(
        vlrs,
        evlrs,
        crs,
        definitions,
    ) {
        if !(crate::record::has_wkt(vlrs) || crate::record::has_wkt(evlrs)) {
            let wkt = definitions(crs->0)->0;
            let fewer = crate::record::forwarded(vlrs);
            assert(kept == fewer.push(wkt_record(wkt)));
            assert(kept.last() == wkt_record(wkt));
            assert forall|i: int| 0 <= i < kept.len() - 1 implies (#[trigger] kept[i]).role()
                != crate::record::RecordRole::Dropped by {
                assert(kept[i] == fewer[i]);
            }
        }
    }
}

proof fn lemma_forwarding(records: Seq<crate::record::VlrView>)
    ensures
        crate::record::has_wkt(records) ==> crate::record::has_wkt(
            crate::record::forwarded(records),
        ),
        forall|i: int|
            0 <= i < crate::record::forwarded(records).len() ==> (
            #[trigger] crate::record::forwarded(records)[i]).role()
                != crate::record::RecordRole::Dropped,
{
    let keep = |record: crate::record::VlrView|
        record.role() != crate::record::RecordRole::Dropped;
    broadcast use vstd::seq_lib::group_filter_ensures;

    let kept = crate::record::forwarded(records);
    assert(kept == records.filter(keep));
    assert forall|i: int| 0 <= i < kept.len() implies (#[trigger] kept[i]).role()
        != crate::record::RecordRole::Dropped by {
        assert(keep(kept[i]));
    }
    if crate::record::has_wkt(records) {
        let i = choose|i: int|
            0 <= i < records.len() && (#[trigger] records[i]).role()
                == crate::record::RecordRole::WktCrs;
        assert(keep(records[i]));
        assert(records.contains(records[i]));
        assert(kept.contains(records[i]));
        let j = choose|j: int| 0 <= j < kept.len() && kept[j] == records[i];
        assert(kept[j].role() == crate::record::RecordRole::WktCrs);
    }
}

/// The record of a coordinate reference system as text is one that is found again: record
/// 2112 of `LASF_Projection`, whose data is the text.
pub proof fn lemma_text_record_is_found(wkt: Seq<char>)
    ensures
        wkt_record(wkt).record_id == 2112,
        wkt_record(wkt).user_id == "LASF_Projection"@,
        wkt_record(wkt).data == vstd::utf8::encode_utf8(wkt),
        wkt_record(wkt).description.len() == 0,
        wkt_record(wkt).fits(false) <==> vstd::utf8::encode_utf8(wkt).len() <= 65535,
{
    reveal_strlit("LASF_Projection");
    reveal_strlit("");
    vstd::utf8::is_ascii_chars_encode_utf8("LASF_Projection"@);
    vstd::utf8::is_ascii_chars_encode_utf8(""@);
}

/// A header that has its reference system as text keeps its records as they are, but for
/// those left out; one that has it in GeoTIFF form gains one record, at the end of those
/// of the header, and the extended ones stay. Without a code there is no reference system,
/// and without a definition the code is at fault.
pub proof fn lemma_plan_keeps_all_other_records(
    vlrs: Seq<crate::record::VlrView>,
    evlrs: Seq<crate::record::VlrView>,
    crs: Option<u16>,
    definitions: spec_fn(u16) -> Option<Seq<char>>,
)
    ensures
        ({
            let plan = record_plan(vlrs, evlrs, crs, definitions);
            let has_text = crate::record::has_wkt(vlrs) || crate::record::has_wkt(evlrs);
            &&& has_text ==> plan is Kept
            &&& !has_text && crs is None ==> plan is NoCrs
            &&& plan is NoCrs ==> !has_text && crs is None
            &&& plan matches RecordPlan::NoDefinition { code } ==> !has_text && crs == Some(code)
                && definitions(code) is None
            &&& plan matches RecordPlan::Kept { vlrs: kept, evlrs: kept_extended } ==> {
                &&& kept_extended == crate::record::forwarded(evlrs)
                &&& has_text ==> kept == crate::record::forwarded(vlrs)
                &&& !has_text ==> {
                    &&& crs is Some
                    &&& definitions(crs->0) is Some
                    &&& kept.len() == crate::record::forwarded(vlrs).len() + 1
                    &&& kept.take(kept.len() - 1) == crate::record::forwarded(vlrs)
                    &&& kept.last().record_id == 2112
                    &&& kept.last().data == vstd::utf8::encode_utf8(definitions(crs->0)->0)
                }
            }
        }),
{
    let before = crate::record::forwarded(vlrs);
    if let RecordPlan::Kept { vlrs: kept, evlrs: kept_extended } = record_plan(
        vlrs,
        evlrs,
        crs,
        definitions,
    ) {
        assert(kept.take(before.len() as int) =~= before);
    }
}

/// What becomes of the records is what the code read from them and its definition give.
pub proof fn lemma_plan_uses_code_and_definition(
    vlrs: Seq<crate::record::VlrView>,
    evlrs: Seq<crate::record::VlrView>,
)
    ensures
        ({
            let has_text = crate::record::has_wkt(vlrs) || crate::record::has_wkt(evlrs);
            let code = horizontal_crs(vlrs, evlrs);
            let plan = planned(vlrs, evlrs);
            &&& plan is NoCrs <==> !has_text && code is None
            &&& plan is NoDefinition <==> !has_text && code is Some && wkt_definition(code->0)
                is None
            &&& plan matches RecordPlan::Kept { vlrs: kept, evlrs: kept_extended } ==> {
                &&& kept_extended == crate::record::forwarded(evlrs)
                &&& !has_text ==> kept.last().data == vstd::utf8::encode_utf8(
                    wkt_definition(code->0)->0,
                )
            }
        }),
{
}

} // verus!
