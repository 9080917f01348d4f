//! The record that says how the points of a file are compressed.

use crate::point_format::PointFormat;
use crate::record::Vlr;
use laz::laszip::LazItemRecordBuilder;
use vstd::prelude::*;

verus! {

/// `laz::laszip::LazItemRecordBuilder`, the list of the items that a point is
/// compressed as.
#[verifier::external_type_specification]
#[verifier::external_body]
pub struct ExLazItemRecordBuilder(LazItemRecordBuilder);

/// A part of a point that is compressed by itself.
#[derive(Clone, Copy, Debug, PartialEq, Eq, Structural)]
pub enum PointItem {
    /// The attributes that all points have.
    Point14,
    /// The color.
    Rgb14,
    /// The color and the near infrared.
    RgbNir14,
    /// So many bytes of other attributes.
    Byte14(u16),
}

impl PointItem {
    /// The type of the item, as a number, and its size in bytes.
    pub open spec fn code(self) -> (u16, u16) {
        match self {
            PointItem::Point14 => (10, 30),
            PointItem::Rgb14 => (11, 6),
            PointItem::RgbNir14 => (12, 8),
            PointItem::Byte14(size) => (14, size),
        }
    }
}

/// The items in a list, in order: the type of each, as a number, and its size.
pub uninterp spec fn items_of(list: LazItemRecordBuilder) -> Seq<(u16, u16)>;

/// `laz::laszip::LazItemRecordBuilder::new`: a list without items.
#[verifier::external_body]
fn new_items() -> (res: LazItemRecordBuilder)
    ensures
        items_of(res) == Seq::<(u16, u16)>::empty(),
{
    LazItemRecordBuilder::new()
}

/// `laz::laszip::LazItemRecordBuilder::add_item`: appends an item.
#[verifier::external_body]
fn add_item(list: &mut LazItemRecordBuilder, item: PointItem)
    ensures
        items_of(*final(list)) == items_of(*old(list)).push(item.code()),
{
    list.add_item(
        match item {
            PointItem::Point14 => laz::LazItemType::Point14,
            PointItem::Rgb14 => laz::LazItemType::RGB14,
            PointItem::RgbNir14 => laz::LazItemType::RGBNIR14,
            PointItem::Byte14(size) => laz::LazItemType::Byte14(size),
        },
    );
}

/// An item as the record holds it: its type, its size, and the version of the
/// compression, which is 3.
pub open spec fn encoded_item(item: (u16, u16)) -> Seq<u8> {
    crate::bytes::little_endian(item.0 as nat, 2) + crate::bytes::little_endian(item.1 as nat, 2)
        + crate::bytes::little_endian(3, 2)
}

/// The items as the record holds them, one after another.
pub open spec fn encoded_items(items: Seq<(u16, u16)>) -> Seq<u8>
    decreases items.len(),
{
    if items.len() == 0 {
        Seq::empty()
    } else {
        encoded_items(items.drop_last()) + encoded_item(items.last())
    }
}

/// What the record holds for points of these `items`, in chunks of any size: the
/// layered compressor, the arithmetic coder, version 2.2.0, no options, no fixed
/// chunk size, no special records, and the items.
pub open spec fn encoded_compression(items: Seq<(u16, u16)>) -> Seq<u8> {
    crate::bytes::little_endian(3, 2) + crate::bytes::zeros(2) + seq![2u8, 2u8]
        + crate::bytes::zeros(2) + crate::bytes::zeros(4) + Seq::new(4, |i: int| 0xffu8) + Seq::new(
        16,
        |i: int| 0xffu8,
    ) + crate::bytes::little_endian(items.len(), 2) + encoded_items(items)
}

/// `laz::LazVlrBuilder` and `laz::LazVlr::write_to`: the data of the compression
/// record for the items of `list`, with chunks of variable size. The items of the
/// types 10 to 14 have version 3 of the compression, so that the compressor is
/// the layered one. The call would panic without items. Writing to memory does
/// not fail.
#[verifier::external_body]
fn compression_data(list: &LazItemRecordBuilder) -> (res: Vec<u8>)
    requires
        0 < items_of(*list).len() <= u16::MAX,
        forall|i: int|
            0 <= i < items_of(*list).len() ==> 10 <= (#[trigger] items_of(*list)[i]).0 <= 14,
    ensures
        res@ == encoded_compression(items_of(*list)),
{
    let vlr = laz::LazVlrBuilder::new(list.build()).with_variable_chunk_size().build();
    let mut data = std::io::Cursor::new(Vec::new());
    vlr.write_to(&mut data).map(|_| data.into_inner()).unwrap_or_default()
}

/// The items that a point of `format` is compressed as.
pub open spec fn point_items(format: PointFormat) -> Seq<PointItem> {
    let color = if !format.has_color {
        Seq::empty()
    } else if format.has_nir {
        seq![PointItem::RgbNir14]
    } else {
        seq![PointItem::Rgb14]
    };
    let extra = if format.extra_bytes > 0 {
        seq![PointItem::Byte14(format.extra_bytes)]
    } else {
        Seq::empty()
    };
    seq![PointItem::Point14] + color + extra
}

/// The record that says how points of `format` are compressed.
pub open spec fn compression_record(format: PointFormat) -> crate::record::VlrView {
    crate::record::VlrView {
        user_id: "laszip encoded"@,
        record_id: 22204,
        description: "https://laszip.org"@,
        data: encoded_compression(point_items(format).map_values(|item: PointItem| item.code())),
    }
}

/// The record that says how points of `format` are compressed.
pub fn laz_vlr(format: &PointFormat) -> (res: Vlr)
    ensures
        res@ == compression_record(*format),
{
    let mut items: LazItemRecordBuilder = new_items();
    add_item(&mut items, PointItem::Point14);
    if format.has_color {
        if format.has_nir {
            add_item(&mut items, PointItem::RgbNir14);
        } else {
            add_item(&mut items, PointItem::Rgb14);
        }
    }
    if format.extra_bytes > 0 {
        add_item(&mut items, PointItem::Byte14(format.extra_bytes));
    }
    assert(items_of(items) =~= point_items(*format).map_values(|item: PointItem| item.code()));
    let data: Vec<u8> = compression_data(&items);
    Vlr {
        user_id: String::from_str("laszip encoded"),
        record_id: 22204,
        description: String::from_str("https://laszip.org"),
        data,
    }
}

/// The sizes of items together.
pub open spec fn items_size(items: Seq<PointItem>) -> int
    decreases items.len(),
{
    if items.len() == 0 {
        0
    } else {
        items_size(items.drop_last()) + items.last().code().1
    }
}

/// The items cover a whole point: their sizes add up to the size of a point record,
/// which is 30 bytes, 6 more with a color, 2 more with near infrared, and the extra
/// bytes.
pub proof fn lemma_items_cover_a_point(format: PointFormat)
    requires
        format.has_nir ==> format.has_color,
    ensures
        items_size(point_items(format)) == 30 + (if format.has_color {
            6int
        } else {
            0
        }) + (if format.has_nir {
            2int
        } else {
            0
        }) + format.extra_bytes,
{
    reveal_with_fuel(items_size, 4);
    let items = point_items(format);
    let color = if !format.has_color {
        Seq::empty()
    } else if format.has_nir {
        seq![PointItem::RgbNir14]
    } else {
        seq![PointItem::Rgb14]
    };
    let first = seq![PointItem::Point14];
    let before = first + color;
    assert(first.drop_last() =~= Seq::<PointItem>::empty());
    if format.has_color {
        assert(before.drop_last() =~= first);
        assert(before.last() == color[0]);
    } else {
        assert(before =~= first);
    }
    if format.extra_bytes > 0 {
        assert(items.drop_last() =~= before);
        assert(items.last() == PointItem::Byte14(format.extra_bytes));
    } else {
        assert(items =~= before);
    }
}

/// The items are in the order of a point record: what all points have, the color or the
/// color with near infrared, the extra bytes; each is there once, and only where the
/// format has it.
pub proof fn lemma_items_are_those_of_the_format(format: PointFormat, i: int)
    requires
        0 <= i < point_items(format).len(),
    ensures
        ({
            let items = point_items(format);
            &&& items[0] == PointItem::Point14
            &&& items[i] == PointItem::Point14 ==> i == 0
            &&& items[i] == PointItem::Rgb14 ==> i == 1 && format.has_color && !format.has_nir
            &&& items[i] == PointItem::RgbNir14 ==> i == 1 && format.has_color && format.has_nir
            &&& items[i] matches PointItem::Byte14(size) ==> i == items.len() - 1 && size
                == format.extra_bytes && size > 0
            &&& format.has_color ==> items.len() >= 2 && (items[1] == PointItem::Rgb14 || items[1]
                == PointItem::RgbNir14)
            &&& format.extra_bytes > 0 ==> items.last() == PointItem::Byte14(format.extra_bytes)
        }),
{
}

/// The record is record 22204 of `laszip encoded`; it counts the items, and has six bytes
/// for each: its type, its size, and version 3.
pub proof fn lemma_compression_record_layout(format: PointFormat, i: int)
    requires
        0 <= i < point_items(format).len(),
    ensures
        ({
            let record = compression_record(format);
            let items = point_items(format);
            let at = 34 + 6 * i;
            &&& record.user_id == "laszip encoded"@
            &&& record.record_id == 22204
            &&& record.data.len() == 34 + 6 * items.len()
            &&& crate::bytes::number_of(record.data.subrange(32, 34)) == items.len()
            &&& crate::bytes::number_of(record.data.subrange(at, at + 2)) == items[i].code().0
            &&& crate::bytes::number_of(record.data.subrange(at + 2, at + 4)) == items[i].code().1
            &&& crate::bytes::number_of(record.data.subrange(at + 4, at + 6)) == 3
        }),
{
    let codes = point_items(format).map_values(|item: PointItem| item.code());
    let data = encoded_compression(codes);
    let count = codes.len() as u16;
    crate::bytes::lemma_two_bytes(3);
    crate::bytes::lemma_two_bytes(count);
    assert(count == codes.len());
    lemma_encoded_item(codes, i);
    let tail = encoded_items(codes);
    assert(data.subrange(32, 34) =~= crate::bytes::little_endian(codes.len(), 2));
    assert(data.skip(34) =~= tail);
    assert(data.subrange(34 + 6 * i, 34 + 6 * i + 2) =~= tail.subrange(6 * i, 6 * i + 2));
    assert(data.subrange(34 + 6 * i + 2, 34 + 6 * i + 4) =~= tail.subrange(6 * i + 2, 6 * i + 4));
    assert(data.subrange(34 + 6 * i + 4, 34 + 6 * i + 6) =~= tail.subrange(6 * i + 4, 6 * i + 6));
}

proof fn lemma_encoded_item(items: Seq<(u16, u16)>, i: int)
    requires
        0 <= i < items.len(),
    ensures
        encoded_items(items).len() == 6 * items.len(),
        ({
            let bytes = encoded_items(items);
            &&& crate::bytes::number_of(bytes.subrange(6 * i, 6 * i + 2)) == items[i].0
            &&& crate::bytes::number_of(bytes.subrange(6 * i + 2, 6 * i + 4)) == items[i].1
            &&& crate::bytes::number_of(bytes.subrange(6 * i + 4, 6 * i + 6)) == 3
        }),
    decreases items.len(),
{
    let fewer = items.drop_last();
    let bytes = encoded_items(items);
    let last = items.last();
    crate::bytes::lemma_two_bytes(last.0);
    crate::bytes::lemma_two_bytes(last.1);
    crate::bytes::lemma_two_bytes(3);
    if fewer.len() > 0 {
        lemma_encoded_item(fewer, if i < fewer.len() { i } else { 0 });
    }
    let before = encoded_items(fewer);
    if i < fewer.len() {
        assert(bytes.subrange(6 * i, 6 * i + 2) =~= before.subrange(6 * i, 6 * i + 2));
        assert(bytes.subrange(6 * i + 2, 6 * i + 4) =~= before.subrange(6 * i + 2, 6 * i + 4));
        assert(bytes.subrange(6 * i + 4, 6 * i + 6) =~= before.subrange(6 * i + 4, 6 * i + 6));
    } else {
        assert(bytes.subrange(6 * i, 6 * i + 2) =~= crate::bytes::little_endian(last.0 as nat, 2));
        assert(bytes.subrange(6 * i + 2, 6 * i + 4) =~= crate::bytes::little_endian(
            last.1 as nat,
            2,
        ));
        assert(bytes.subrange(6 * i + 4, 6 * i + 6) =~= crate::bytes::little_endian(3, 2));
    }
}

} // verus!
