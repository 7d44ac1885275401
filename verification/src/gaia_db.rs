//! The records of the star database: three headers of 256 bytes each, then
//! one record of 28 bytes for each star.

use byteorder::{ByteOrder, LittleEndian};
use vstd::prelude::*;
use vstd::slice::slice_subrange;

verus! {

/// Number of headers at the start of the database.
pub const HEADERS: usize = 3;

/// Bytes of a header: one for the length of its text, then 255 of which the
/// text takes the first.
pub const HEADER_SIZE: usize = 256;

/// Bytes of the record of one star.
pub const RECORD_SIZE: usize = 28;

/// The record of a star: its reference in the catalogue, and the patterns
/// of its right ascension and declination in degrees (double precision) and
/// of its magnitude (single precision).
#[derive(Clone, Copy, Debug, PartialEq, Eq)]
pub struct DbStar {
    pub id: u64,
    pub ra: u64,
    pub dec: u64,
    pub magnitude: u32,
}

/// The number that the bytes hold, the lowest byte first.
pub open spec fn le_value(bytes: Seq<u8>) -> nat
    decreases bytes.len(),
{
    if bytes.len() == 0 {
        0
    } else {
        bytes[0] as nat + 256 * le_value(bytes.drop_first())
    }
}

/// `LittleEndian::read_u64` of byteorder: the number held by the first
/// eight bytes of `buf`, the lowest byte first.
#[verifier::external_body]
fn read_u64(buf: &[u8]) -> (value: u64)
    requires
        buf@.len() >= 8,
    ensures
        value == le_value(buf@.take(8)),
{
    LittleEndian::read_u64(buf)
}

/// `LittleEndian::read_u32` of byteorder: the number held by the first four
/// bytes of `buf`, the lowest byte first.
#[verifier::external_body]
fn read_u32(buf: &[u8]) -> (value: u32)
    requires
        buf@.len() >= 4,
    ensures
        value == le_value(buf@.take(4)),
{
    LittleEndian::read_u32(buf)
}

/// The record that starts at byte `at`.
pub open spec fn record_at(data: Seq<u8>, at: int) -> DbStar {
    DbStar {
        id: le_value(data.subrange(at, at + 8)) as u64,
        ra: le_value(data.subrange(at + 8, at + 16)) as u64,
        dec: le_value(data.subrange(at + 16, at + 24)) as u64,
        magnitude: le_value(data.subrange(at + 24, at + 28)) as u32,
    }
}

/// Reads the record that starts at byte `at`.
pub fn read_star(data: &[u8], at: usize) -> (star: DbStar)
    requires
        at + RECORD_SIZE <= data@.len(),
    ensures
        star == record_at(data@, at as int),
{
    let size: usize = data.len();
    let star_bin = slice_subrange(data, at, at + RECORD_SIZE);
    let id = read_u64(slice_subrange(star_bin, 0, 8));
    let ra = read_u64(slice_subrange(star_bin, 8, 16));
    let dec = read_u64(slice_subrange(star_bin, 16, 24));
    let magnitude = read_u32(slice_subrange(star_bin, 24, 28));
    proof {
        let at = at as int;
        assert(star_bin@.subrange(0, 8).take(8) =~= data@.subrange(at, at + 8));
        assert(star_bin@.subrange(8, 16).take(8) =~= data@.subrange(at + 8, at + 16));
        assert(star_bin@.subrange(16, 24).take(8) =~= data@.subrange(at + 16, at + 24));
        assert(star_bin@.subrange(24, 28).take(4) =~= data@.subrange(at + 24, at + 28));
    }
    DbStar { id, ra, dec, magnitude }
}

/// The text of header `h`: as many bytes as its first byte says, after it.
pub open spec fn header_at(data: Seq<u8>, h: int) -> Seq<u8> {
    data.subrange(h * HEADER_SIZE + 1, h * HEADER_SIZE + 1 + data[h * HEADER_SIZE])
}

/// The number of whole records after the headers.
pub open spec fn record_count(data: Seq<u8>) -> int {
    (data.len() - HEADERS * HEADER_SIZE) / (RECORD_SIZE as int)
}

/// Reads the texts of the headers. There are none where the data ends
/// before the headers do.
pub fn read_headers(data: &[u8]) -> (headers: Option<Vec<Vec<u8>>>)
    ensures
        data@.len() < HEADERS * HEADER_SIZE <==> headers is None,
        headers is Some ==> headers->0.len() == HEADERS && forall|h: int|
            0 <= h < HEADERS ==> (#[trigger] headers->0[h])@ == header_at(data@, h),
{
    if data.len() < HEADERS * HEADER_SIZE {
        return None;
    }
    let mut headers: Vec<Vec<u8>> = Vec::new();
    let mut h: usize = 0;
    while h < HEADERS
        invariant
            h <= HEADERS,
            data@.len() >= HEADERS * HEADER_SIZE,
            headers.len() == h,
            forall|g: int| 0 <= g < h ==> (#[trigger] headers[g])@ == header_at(data@, g),
        decreases HEADERS - h,
    {
        let start: usize = h * HEADER_SIZE;
        let length: usize = data[start] as usize;
        let text = slice_subrange(data, start + 1, start + 1 + length);
        let mut string: Vec<u8> = Vec::new();
        let mut i: usize = 0;
        while i < text.len()
            invariant
                i <= text@.len(),
                string@ == text@.take(i as int),
            decreases text@.len() - i,
        {
            string.push(text[i]);
            i += 1;
            assert(text@.take(i as int) =~= text@.take(i - 1).push(text@[i - 1]));
        }
        assert(text@.take(i as int) =~= text@);
        headers.push(string);
        h += 1;
    }
    Some(headers)
}

/// Reads the records of all stars, in the order of the database. Bytes
/// after the last whole record are left out, and there are no records
/// where the data ends before the headers do.
pub fn read_stars(data: &[u8]) -> (stars: Vec<DbStar>)
    ensures
        data@.len() < HEADERS * HEADER_SIZE ==> stars.len() == 0,
        data@.len() >= HEADERS * HEADER_SIZE ==> stars.len() == record_count(data@),
        forall|n: int|
            0 <= n < stars.len() ==> #[trigger] stars[n] == record_at(
                data@,
                HEADERS * HEADER_SIZE + n * RECORD_SIZE,
            ),
{
    let mut stars: Vec<DbStar> = Vec::new();
    if data.len() < HEADERS * HEADER_SIZE {
        return stars;
    }
    let mut at: usize = HEADERS * HEADER_SIZE;
    while data.len() - at >= RECORD_SIZE
        invariant
            HEADERS * HEADER_SIZE <= at <= data@.len(),
            at == HEADERS * HEADER_SIZE + stars.len() * RECORD_SIZE,
            forall|n: int|
                0 <= n < stars.len() ==> #[trigger] stars[n] == record_at(
                    data@,
                    HEADERS * HEADER_SIZE + n * RECORD_SIZE,
                ),
        decreases data@.len() - at,
    {
        let star = read_star(data, at);
        stars.push(star);
        at += RECORD_SIZE;
    }
    stars
}

} // verus!
