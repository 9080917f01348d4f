//! Point data record formats (PDRF) and the header fields that depend on them.

use crate::bytes::push_zeros;
use crate::error::CopcError;
use vstd::prelude::*;

verus! {

/// `las::Error`, why the `las` crate refuses a value. It is carried and never
/// looked into.
#[verifier::external_type_specification]
#[verifier::external_body]
pub struct ExLasError(las::Error);

/// What the points of a file carry besides their coordinates.
#[derive(Clone, Copy, Debug, PartialEq, Eq, Structural)]
pub struct PointFormat {
    pub has_gps_time: bool,
    pub has_color: bool,
    pub is_extended: bool,
    pub has_waveform: bool,
    pub has_nir: bool,
    pub extra_bytes: u16,
    pub is_compressed: bool,
}

/// The format with the given number. The two highest bits of the number are
/// about compression.
pub open spec fn numbered_format(number: u8) -> PointFormat {
    let n = number % 64;
    PointFormat {
        has_gps_time: n == 1 || 3 <= n <= 10,
        has_color: n == 2 || n == 3 || n == 5 || n == 7 || n == 8 || n == 10,
        is_extended: n >= 6,
        has_waveform: n == 4 || n == 5 || n == 9 || n == 10,
        has_nir: n == 8 || n == 10,
        extra_bytes: 0,
        is_compressed: number >= 128,
    }
}

/// `las::point::Format::new`: the format with the given number, without extra
/// bytes. It is an error if and only if the number is above 10 and its highest
/// bit is not set.
#[verifier::external_body]
fn format_of(number: u8) -> (res: Result<PointFormat, las::Error>)
    ensures
        res is Ok <==> number <= 10 || number >= 128,
        res matches Ok(format) ==> format == numbered_format(number),
{
    las::point::Format::new(number).map(
        |format|
            PointFormat {
                has_gps_time: format.has_gps_time,
                has_color: format.has_color,
                is_extended: format.is_extended,
                has_waveform: format.has_waveform,
                has_nir: format.has_nir,
                extra_bytes: format.extra_bytes,
                is_compressed: format.is_compressed,
            },
    )
}

/// How a file's point format becomes one that this kind of file may have.
#[derive(Clone, Copy, Debug, PartialEq, Eq, Structural)]
pub enum UpgradePdrf {
    /// Format 1 becomes format 6.
    From1to6,
    /// Format 3 becomes format 7.
    From3to7,
    /// Formats 6, 7 and 8 stay as they are.
    NoUpgrade,
}

impl UpgradePdrf {
    /// The upgrade for the format `number`, where there is one.
    pub open spec fn of(number: u8) -> Option<UpgradePdrf> {
        let n = number % 64;
        if n == 1 {
            Some(UpgradePdrf::From1to6)
        } else if n == 3 {
            Some(UpgradePdrf::From3to7)
        } else if 6 <= n <= 8 {
            Some(UpgradePdrf::NoUpgrade)
        } else {
            None
        }
    }

    /// What the upgrade adds to the number of the format.
    pub open spec fn step(self) -> int {
        match self {
            UpgradePdrf::From1to6 => 5,
            UpgradePdrf::From3to7 => 4,
            UpgradePdrf::NoUpgrade => 0,
        }
    }

    /// What the upgrade adds to the size of a point.
    pub open spec fn growth(self) -> int {
        if self == UpgradePdrf::NoUpgrade {
            0
        } else {
            2
        }
    }

    /// What is done about the format, for a log.
    pub fn log_string(&self) -> (res: &str)
        ensures
            res@ == (match *self {
                UpgradePdrf::From1to6 => "Upgrading LAS PDRF from 1 to 6"@,
                UpgradePdrf::From3to7 => "Upgrading LAS PDRF from 3 to 7"@,
                UpgradePdrf::NoUpgrade => "COPC supports the given PDRF"@,
            }),
    {
        match self {
            UpgradePdrf::From1to6 => "Upgrading LAS PDRF from 1 to 6",
            UpgradePdrf::From3to7 => "Upgrading LAS PDRF from 3 to 7",
            UpgradePdrf::NoUpgrade => "COPC supports the given PDRF",
        }
    }
}

/// The error where the format `number` cannot be written: which format it is, or that
/// there is none with this number.
pub open spec fn refusal(number: u8) -> CopcError {
    if number <= 10 || number >= 128 {
        CopcError::InvalidPointFormat(numbered_format(number))
    } else {
        CopcError::InvalidPointFormatNumber(number)
    }
}

/// The upgrade for the format `number`. It is an error where there is none:
/// either the format cannot be written, or there is no such format.
pub fn upgrade_for(number: u8) -> (res: Result<UpgradePdrf, CopcError>)
    ensures
        res is Ok <==> UpgradePdrf::of(number) is Some,
        res matches Ok(upgrade) ==> UpgradePdrf::of(number) == Some(upgrade),
        res matches Err(error) ==> error == (if number <= 10 || number >= 128 {
            CopcError::InvalidPointFormat(numbered_format(number))
        } else {
            CopcError::InvalidPointFormatNumber(number)
        }),
        res matches Err(error) ==> error == refusal(number),
{
    let pdrf: u8 = number % 64;
    if pdrf == 1 {
        Ok(UpgradePdrf::From1to6)
    } else if pdrf == 3 {
        Ok(UpgradePdrf::From3to7)
    } else if 6 <= pdrf && pdrf <= 8 {
        Ok(UpgradePdrf::NoUpgrade)
    } else {
        match format_of(number) {
            Ok(format) => Err(CopcError::InvalidPointFormat(format)),
            Err(_) => Err(CopcError::InvalidPointFormatNumber(number)),
        }
    }
}

/// The bit of the global encoding that says that the coordinate reference system
/// is there as text.
pub const WKT_BIT: u16 = 0b10000;

/// The fields of a file's header that a new file takes over with changes.
#[derive(Clone, Copy, Debug, PartialEq, Eq, Structural)]
pub struct FormatFields {
    /// The number of the point format.
    pub format: u8,
    /// The size of a point.
    pub record_length: u16,
    pub global_encoding: u16,
}

impl FormatFields {
    /// The fields of the new file: the format is upgraded and marked as
    /// compressed, and the bit about the coordinate reference system is set.
    pub open spec fn upgraded(self, upgrade: UpgradePdrf) -> FormatFields {
        FormatFields {
            format: (192 + self.format % 64 + upgrade.step()) as u8,
            record_length: (self.record_length + upgrade.growth()) as u16,
            global_encoding: self.global_encoding | WKT_BIT,
        }
    }

    /// The fields of the new file.
    pub fn upgrade(&self, upgrade: UpgradePdrf) -> (res: FormatFields)
        requires
            UpgradePdrf::of(self.format) == Some(upgrade),
            self.record_length + upgrade.growth() <= u16::MAX,
        ensures
            res == self.upgraded(upgrade),
    {
        let step: u8 = match upgrade {
            UpgradePdrf::From1to6 => 5,
            UpgradePdrf::From3to7 => 4,
            UpgradePdrf::NoUpgrade => 0,
        };
        let growth: u16 = match upgrade {
            UpgradePdrf::NoUpgrade => 0,
            _ => 2,
        };
        FormatFields {
            format: 192 + self.format % 64 + step,
            record_length: self.record_length + growth,
            global_encoding: self.global_encoding | WKT_BIT,
        }
    }
}

/// An upgraded file has a format that needs no further upgrade, marked as
/// compressed.
pub proof fn lemma_upgrade_is_final(fields: FormatFields, upgrade: UpgradePdrf)
    requires
        UpgradePdrf::of(fields.format) == Some(upgrade),
    ensures
        UpgradePdrf::of(fields.upgraded(upgrade).format) == Some(UpgradePdrf::NoUpgrade),
        numbered_format(fields.upgraded(upgrade).format).is_compressed,
        numbered_format(fields.upgraded(upgrade).format).is_extended,
        numbered_format(fields.upgraded(upgrade).format).has_gps_time,
        !numbered_format(fields.upgraded(upgrade).format).has_waveform,
{
}

/// An upgrade keeps what points carry: the format has the same optional
/// attributes before and after.
pub proof fn lemma_upgrade_keeps_attributes(fields: FormatFields, upgrade: UpgradePdrf)
    requires
        UpgradePdrf::of(fields.format) == Some(upgrade),
    ensures
        ({
            let before = numbered_format(fields.format);
            let after = numbered_format(fields.upgraded(upgrade).format);
            &&& after.has_gps_time == before.has_gps_time
            &&& after.has_color == before.has_color
            &&& after.has_waveform == before.has_waveform
            &&& after.has_nir == before.has_nir
        }),
{
}

/// The size of a point of the format `number` without extra bytes, where a file of
/// that format can be upgraded.
pub open spec fn bare_length(number: u8) -> int {
    let n = number % 64;
    if n == 1 {
        28
    } else if n == 3 {
        34
    } else if n == 6 {
        30
    } else if n == 7 {
        36
    } else {
        38
    }
}

/// An upgrade keeps the extra bytes of points.
pub proof fn lemma_upgrade_keeps_extra_bytes(fields: FormatFields, upgrade: UpgradePdrf)
    requires
        UpgradePdrf::of(fields.format) == Some(upgrade),
        fields.record_length + upgrade.growth() <= u16::MAX,
    ensures
        ({
            let after = fields.upgraded(upgrade);
            after.record_length - bare_length(after.format) == fields.record_length - bare_length(
                fields.format,
            )
        }),
{
}

/// The name of the generating software in the given version.
pub open spec fn software_name(version: Seq<char>) -> Seq<u8> {
    vstd::utf8::encode_utf8("COPC-rs v"@) + vstd::utf8::encode_utf8(version)
}

/// The name of the generating software in the given version, in its field of the
/// header.
pub fn generating_software(version: &str) -> (res: Vec<u8>)
    requires
        software_name(version@).len() <= 32,
    ensures
        res@ == crate::record::padded(software_name(version@), 32),
        res@.len() == 32,
{
    let name: &str = "COPC-rs v";
    let mut field: Vec<u8> = Vec::new();
    field.extend_from_slice(name.as_bytes());
    field.extend_from_slice(version.as_bytes());
    assert(field@ =~= software_name(version@));
    let width: usize = 32 - field.len();
    push_zeros(&mut field, width);
    field
}

/// Which formats can be written: 6, 7 and 8 as they are, 1 as 6 and 3 as 7, whatever the
/// bits about compression say. The new number has both of those bits set.
pub proof fn lemma_formats_that_can_be_written(fields: FormatFields)
    ensures
        ({
            let n = fields.format as int % 64;
            let upgrade = UpgradePdrf::of(fields.format);
            let after = fields.upgraded(upgrade->0);
            &&& upgrade is Some <==> n == 1 || n == 3 || n == 6 || n == 7 || n == 8
            &&& n == 1 ==> after.format == 128 + 64 + 6
            &&& n == 3 ==> after.format == 128 + 64 + 7
            &&& n == 6 || n == 7 || n == 8 ==> after.format == 128 + 64 + n
        }),
{
}

/// A point of the new file is two bytes longer where its format was upgraded, and as
/// long as before where it was not.
pub proof fn lemma_upgraded_points_are_longer(fields: FormatFields, upgrade: UpgradePdrf)
    requires
        UpgradePdrf::of(fields.format) == Some(upgrade),
        fields.record_length + 2 <= u16::MAX,
    ensures
        ({
            let n = fields.format as int % 64;
            let after = fields.upgraded(upgrade);
            &&& n == 1 || n == 3 ==> after.record_length == fields.record_length + 2
            &&& n != 1 && n != 3 ==> after.record_length == fields.record_length
        }),
{
}

/// The new header says that the coordinate reference system is there as text, and keeps
/// the other bits of the global encoding.
pub proof fn lemma_global_encoding_gains_one_bit(fields: FormatFields, upgrade: UpgradePdrf)
    ensures
        ({
            let before = fields.global_encoding;
            let after = fields.upgraded(upgrade).global_encoding;
            &&& after / 16 % 2 == 1
            &&& after % 16 == before % 16
            &&& after / 32 == before / 32
        }),
{
    let before = fields.global_encoding;
    assert(((before | 0b10000u16) / 16) % 2 == 1) by (bit_vector);
    assert((before | 0b10000u16) % 16 == before % 16) by (bit_vector);
    assert((before | 0b10000u16) / 32 == before / 32) by (bit_vector);
}

/// The name of the software is its name and its version, one after the other.
pub proof fn lemma_software_name(version: Seq<char>)
    requires
        vstd::utf8::is_ascii_chars(version),
    ensures
        ({
            let name = software_name(version);
            let field = crate::record::padded(name, 32);
            &&& name.len() == 9 + version.len()
            &&& forall|i: int| 0 <= i < version.len() ==> #[trigger] name[9 + i] == version[i] as u8
            &&& name[0] == 67 && name[1] == 79 && name[2] == 80 && name[3] == 67
            &&& name[4] == 45 && name[5] == 114 && name[6] == 115 && name[7] == 32
            &&& name[8] == 118
            &&& name.len() <= 32 ==> field.len() == 32 && field.take(name.len() as int) == name
        }),
{
    let prefix = "COPC-rs v"@;
    reveal_strlit("COPC-rs v");
    vstd::utf8::is_ascii_chars_encode_utf8(prefix);
    vstd::utf8::is_ascii_chars_encode_utf8(version);
    let name = software_name(version);
    if name.len() <= 32 {
        assert(crate::record::padded(name, 32).take(name.len() as int) =~= name);
    }
}

/// A refusal names the format where the number stands for one, and else the number: the
/// numbers 0 to 10 do, and all with the highest bit set.
pub proof fn lemma_refusal_names_the_format(number: u8)
    ensures
        11 <= number <= 127 ==> refusal(number) == CopcError::InvalidPointFormatNumber(number),
        number <= 10 || number >= 128 ==> (refusal(number) matches CopcError::InvalidPointFormat(
            format,
        ) && {
            let n = number as int % 64;
            &&& format.has_gps_time <==> n == 1 || 3 <= n <= 10
            &&& format.has_color <==> n == 2 || n == 3 || n == 5 || n == 7 || n == 8 || n == 10
            &&& format.has_nir <==> n == 8 || n == 10
            &&& format.has_waveform <==> n == 4 || n == 5 || n == 9 || n == 10
            &&& format.is_extended <==> n >= 6
            &&& format.is_compressed <==> number >= 128
        }),
{
}

} // verus!
