//! The CRS a LAS file declares, from either of the two ways it can.
//!
//! LAS 1.4 requires OGC WKT in record 2112. Earlier versions use the GeoTIFF
//! key directory. Where a file has both, the WKT wins.

use super::{find_record, record_named, records, Record, Vlr};
use crate::bytes::{le16, slice_of, u16_at};
use crate::crs::{epsg_declares, text_of, wkt_declares, Crs, Declared};
use crate::text::{lossy, lossy_text, trim, trim_tail, trimmed, without_tail};
use vstd::prelude::*;

verus! {

/// OGC coordinate system WKT. LAS 1.4's required form.
pub const WKT_RECORD_ID: u16 = 2112;

/// GeoTIFF key directory: the key table itself.
pub const GEOKEY_DIRECTORY_RECORD_ID: u16 = 34735;

/// GeoTIFF double parameters, referenced by key.
pub const GEOKEY_DOUBLE_RECORD_ID: u16 = 34736;

/// GeoTIFF ASCII parameters, referenced by key.
pub const GEOKEY_ASCII_RECORD_ID: u16 = 34737;

pub const GT_MODEL_TYPE: u16 = 1024;

pub const GEOGRAPHIC_TYPE: u16 = 2048;

pub const PROJECTED_CS_TYPE: u16 = 3072;

pub const PROJECTED_CITATION: u16 = 3073;

pub const VERTICAL_CS_TYPE: u16 = 4096;

pub const MODEL_PROJECTED: u16 = 1;

pub const MODEL_GEOGRAPHIC: u16 = 2;

/// "User-defined" in the GeoTIFF key space: the code space cannot name it.
pub const USER_DEFINED: u16 = 32767;

/// "Undefined" in the GeoTIFF key space.
pub const UNDEFINED: u16 = 0;

/// User id of every projection VLR.
pub open spec fn projection_user_id() -> Seq<char> {
    "LASF_Projection"@
}

/// The text of a padded record.
pub open spec fn clean_text(bytes: Seq<u8>) -> Seq<char> {
    trimmed(without_tail(lossy_text(bytes), '\0', '\0'))
}

fn text(bytes: &[u8]) -> (out: String)
    ensures
        out@ == clean_text(bytes@),
{
    let raw = lossy(bytes);
    let cut = trim_tail(raw.as_str(), '\0', '\0');
    trim(cut.as_str())
}

/// One entry of the GeoTIFF key directory.
#[derive(Debug, Clone, Copy, PartialEq, Eq, Structural)]
pub struct GeoKey {
    pub location: u16,
    pub count: u16,
    pub value: u16,
}

/// How many entries of a directory are there to read.
pub open spec fn key_count(directory: Seq<u8>) -> int {
    let room = (directory.len() - 8) / 8;
    if le16(directory, 6) < room {
        le16(directory, 6)
    } else {
        room
    }
}

/// The last of the first `n` entries that has an id.
pub open spec fn geo_key(directory: Seq<u8>, n: int, id: u16) -> Option<GeoKey>
    decreases n,
{
    if n <= 0 {
        None
    } else {
        let at = 8 + 8 * (n - 1);
        if le16(directory, at) == id {
            Some(
                GeoKey {
                    location: le16(directory, at + 2) as u16,
                    count: le16(directory, at + 4) as u16,
                    value: le16(directory, at + 6) as u16,
                },
            )
        } else {
            geo_key(directory, n - 1, id)
        }
    }
}

/// The code that a key holds itself, unless it says that it has none.
pub open spec fn key_code(directory: Seq<u8>, id: u16) -> Option<u32> {
    match geo_key(directory, key_count(directory), id) {
        Some(k) => if k.location != 0 || k.value == USER_DEFINED || k.value == UNDEFINED {
            None
        } else {
            Some(k.value as u32)
        },
        None => None,
    }
}

/// The code of the system the coordinates are in: the geographic one where the
/// file declares itself geographic, else the projected one, else the
/// geographic one unless the file declares itself projected.
pub open spec fn horizontal_key(directory: Seq<u8>) -> Option<u32> {
    let model = geo_key(directory, key_count(directory), GT_MODEL_TYPE);
    let projected = key_code(directory, PROJECTED_CS_TYPE);
    let geographic = key_code(directory, GEOGRAPHIC_TYPE);
    if model is Some && model->0.value == MODEL_GEOGRAPHIC {
        geographic
    } else if projected is Some {
        projected
    } else if model is Some && model->0.value == MODEL_PROJECTED {
        None
    } else {
        geographic
    }
}

/// An ASCII-valued key, out of the record that holds those values.
pub open spec fn ascii_text(key: GeoKey, ascii: Seq<u8>) -> Option<Seq<char>> {
    let start = key.value as int;
    let end = if start + key.count < ascii.len() {
        start + key.count
    } else {
        ascii.len() as int
    };
    let value = trimmed(without_tail(lossy_text(ascii.subrange(start, end)), '|', '\0'));
    if key.location == GEOKEY_ASCII_RECORD_ID && start < end && value.len() > 0 {
        Some(value)
    } else {
        None
    }
}

/// What a key directory declares.
pub open spec fn keys_declare(directory: Seq<u8>, ascii: Option<Seq<u8>>) -> Option<Declared> {
    if directory.len() < 8 || horizontal_key(directory) is None {
        None
    } else {
        let citation = geo_key(directory, key_count(directory), PROJECTED_CITATION);
        Some(
            Declared {
                vertical_epsg: key_code(directory, VERTICAL_CS_TYPE),
                name: if citation is Some && ascii is Some {
                    ascii_text(citation->0, ascii->0)
                } else {
                    None
                },
                ..epsg_declares(horizontal_key(directory)->0)
            },
        )
    }
}

/// The data of the first projection record with an id.
pub open spec fn projection(all: Seq<Record>, record_id: u16) -> Option<Seq<u8>> {
    match record_named(all, projection_user_id(), record_id) {
        Some(r) => Some(r.data),
        None => None,
    }
}

/// What a file's projection records declare.
pub open spec fn records_declare(all: Seq<Record>) -> Option<Declared> {
    let wkt = projection(all, WKT_RECORD_ID);
    let directory = projection(all, GEOKEY_DIRECTORY_RECORD_ID);
    if wkt is Some && clean_text(wkt->0).len() > 0 {
        Some(wkt_declares(clean_text(wkt->0)))
    } else if directory is Some {
        keys_declare(directory->0, projection(all, GEOKEY_ASCII_RECORD_ID))
    } else {
        None
    }
}

fn find_key(directory: &[u8], n: usize, id: u16) -> (r: Option<GeoKey>)
    requires
        8 + 8 * n <= directory.len(),
    ensures
        r == geo_key(directory@, n as int, id),
{
    let mut i: usize = n;
    while i > 0
        invariant
            i <= n,
            8 + 8 * n <= directory.len(),
            geo_key(directory@, n as int, id) == geo_key(directory@, i as int, id),
        decreases i,
    {
        let at: usize = 8 + 8 * (i - 1);
        if u16_at(directory, at) == id {
            return Some(
                GeoKey {
                    location: u16_at(directory, at + 2),
                    count: u16_at(directory, at + 4),
                    value: u16_at(directory, at + 6),
                },
            );
        }
        i = i - 1;
    }
    None
}

fn code_of(directory: &[u8], n: usize, id: u16) -> (r: Option<u32>)
    requires
        8 + 8 * n <= directory.len(),
        n == key_count(directory@),
    ensures
        r == key_code(directory@, id),
{
    match find_key(directory, n, id) {
        Some(k) => if k.location != 0 || k.value == USER_DEFINED || k.value == UNDEFINED {
            None
        } else {
            Some(k.value as u32)
        },
        None => None,
    }
}

/// An ASCII-valued key, out of the record that holds those values.
fn ascii_value(key: GeoKey, ascii: &[u8]) -> (r: Option<String>)
    ensures
        text_of(r) == ascii_text(key, ascii@),
{
    if key.location != GEOKEY_ASCII_RECORD_ID {
        return None;
    }
    let start: usize = key.value as usize;
    let limit: u64 = key.value as u64 + key.count as u64;
    let end: usize = if limit < ascii.len() as u64 {
        limit as usize
    } else {
        ascii.len()
    };
    if start >= end {
        return None;
    }
    let part = slice_of(ascii, start, end);
    let raw = lossy(part.as_slice());
    let cut = trim_tail(raw.as_str(), '|', '\0');
    let value = trim(cut.as_str());
    if value.as_str().is_empty() {
        None
    } else {
        Some(value)
    }
}

/// Read the GeoTIFF key directory.
fn geo_key_crs(directory: &[u8], ascii: Option<&Vec<u8>>) -> (r: Option<Crs>)
    ensures
        ({
            let a = match ascii {
                Some(v) => Some(v@),
                None => None,
            };
            match r {
                Some(c) => keys_declare(directory@, a) == Some(c@),
                None => keys_declare(directory@, a) is None,
            }
        }),
{
    if directory.len() < 8 {
        return None;
    }
    let declared: usize = u16_at(directory, 6) as usize;
    let room: usize = (directory.len() - 8) / 8;
    let n: usize = if declared < room {
        declared
    } else {
        room
    };
    let model = find_key(directory, n, GT_MODEL_TYPE);
    let projected = code_of(directory, n, PROJECTED_CS_TYPE);
    let geographic = code_of(directory, n, GEOGRAPHIC_TYPE);
    let kind: u16 = match model {
        Some(k) => k.value,
        None => 0,
    };
    let epsg: Option<u32> = if kind == MODEL_GEOGRAPHIC {
        geographic
    } else if projected.is_some() {
        projected
    } else if kind == MODEL_PROJECTED {
        None
    } else {
        geographic
    };
    match epsg {
        None => None,
        Some(code) => {
            let mut crs = Crs::from_epsg(code);
            crs.vertical_epsg = code_of(directory, n, VERTICAL_CS_TYPE);
            crs.name = match find_key(directory, n, PROJECTED_CITATION) {
                Some(key) => match ascii {
                    Some(a) => ascii_value(key, a.as_slice()),
                    None => None,
                },
                None => None,
            };
            Some(crs)
        },
    }
}

/// Read the CRS out of a LAS file's projection VLRs.
///
/// Returns `None` when the file declares nothing this can resolve.
pub fn las_crs(vlrs: &Vec<Vlr>) -> (r: Option<Crs>)
    ensures
        match r {
            Some(c) => records_declare(records(vlrs@)) == Some(c@),
            None => records_declare(records(vlrs@)) is None,
        },
{
    if let Some(v) = find_record(vlrs, "LASF_Projection", WKT_RECORD_ID) {
        let wkt = text(v.data.as_slice());
        if !wkt.as_str().is_empty() {
            return Some(Crs::from_wkt(wkt.as_str()));
        }
    }
    match find_record(vlrs, "LASF_Projection", GEOKEY_DIRECTORY_RECORD_ID) {
        None => None,
        Some(directory) => {
            let ascii = match find_record(vlrs, "LASF_Projection", GEOKEY_ASCII_RECORD_ID) {
                Some(v) => Some(&v.data),
                None => None,
            };
            geo_key_crs(directory.data.as_slice(), ascii)
        },
    }
}

} // verus!
