use crate::types::Endian;
use binrw::BinRead;
use binrw::BinWrite;
use std::io::Cursor;
use vstd::prelude::*;

verus! {

/// The 16-bit integer that the first two bytes of `b` hold in byte order `e`.
pub open spec fn u16_from(b: Seq<u8>, e: Endian) -> u16 {
    match e {
        Endian::Little => (b[0] as int + 256 * b[1] as int) as u16,
        Endian::Big => (b[1] as int + 256 * b[0] as int) as u16,
    }
}

/// The 32-bit integer that the first four bytes of `b` hold in byte order `e`.
pub open spec fn u32_from(b: Seq<u8>, e: Endian) -> u32 {
    match e {
        Endian::Little => (b[0] as int + 256 * b[1] as int + 65536 * b[2] as int + 16777216
            * b[3] as int) as u32,
        Endian::Big => (b[3] as int + 256 * b[2] as int + 65536 * b[1] as int + 16777216
            * b[0] as int) as u32,
    }
}

/// The two bytes of `x` in byte order `e`.
pub open spec fn u16_bytes(x: u16, e: Endian) -> Seq<u8> {
    match e {
        Endian::Little => seq![(x % 256) as u8, (x / 256) as u8],
        Endian::Big => seq![(x / 256) as u8, (x % 256) as u8],
    }
}

/// The four bytes of `x` in byte order `e`.
pub open spec fn u32_bytes(x: u32, e: Endian) -> Seq<u8> {
    match e {
        Endian::Little => seq![
            (x % 256) as u8,
            (x / 256 % 256) as u8,
            (x / 65536 % 256) as u8,
            (x / 16777216) as u8,
        ],
        Endian::Big => seq![
            (x / 16777216) as u8,
            (x / 65536 % 256) as u8,
            (x / 256 % 256) as u8,
            (x % 256) as u8,
        ],
    }
}

/// Decoding the bytes of a 16-bit integer gives the integer back.
pub proof fn lemma_u16_round_trip(x: u16, e: Endian)
    ensures
        u16_bytes(x, e).len() == 2,
        u16_from(u16_bytes(x, e), e) == x,
{
}

/// Decoding the bytes of a 32-bit integer gives the integer back.
pub proof fn lemma_u32_round_trip(x: u32, e: Endian)
    ensures
        u32_bytes(x, e).len() == 4,
        u32_from(u32_bytes(x, e), e) == x,
{
}

/// Encoding the integer that two bytes hold gives the two bytes back.
pub proof fn lemma_u16_bytes_of_from(b: Seq<u8>, e: Endian)
    requires
        b.len() == 2,
    ensures
        u16_bytes(u16_from(b, e), e) =~= b,
{
}

/// Encoding the integer that four bytes hold gives the four bytes back.
pub proof fn lemma_u32_bytes_of_from(b: Seq<u8>, e: Endian)
    requires
        b.len() == 4,
    ensures
        u32_bytes(u32_from(b, e), e) =~= b,
{
    let (b0, b1, b2, b3) = match e {
        Endian::Little => (b[0] as int, b[1] as int, b[2] as int, b[3] as int),
        Endian::Big => (b[3] as int, b[2] as int, b[1] as int, b[0] as int),
    };
    lemma_radix_digits(b0, b1, b2, b3);
}

/// The base-256 digits of a four-digit number are found by division and
/// remainder.
proof fn lemma_radix_digits(b0: int, b1: int, b2: int, b3: int)
    requires
        0 <= b0 < 256,
        0 <= b1 < 256,
        0 <= b2 < 256,
        0 <= b3 < 256,
    ensures
        ({
            let x = b0 + 256 * b1 + 65536 * b2 + 16777216 * b3;
            &&& 0 <= x < 0x1_0000_0000
            &&& x % 256 == b0
            &&& x / 256 % 256 == b1
            &&& x / 65536 % 256 == b2
            &&& x / 16777216 == b3
        }),
{
    let x = b0 + 256 * b1 + 65536 * b2 + 16777216 * b3;
    let y = b1 + 256 * b2 + 65536 * b3;
    let z = b2 + 256 * b3;
    assert(x == 256 * y + b0);
    assert(x / 256 == y);
    assert(y == 256 * z + b1);
    assert(y / 256 == z);
    assert(x / 65536 == z);
    assert(z / 256 == b3);
    assert(x / 16777216 == b3);
}

/// Reads a 16-bit integer with binrw's `BinRead::read_options` for `u16`
/// from a cursor over `bytes`. binrw takes exactly two bytes and hands them
/// to `u16::from_be_bytes` or `u16::from_le_bytes`; with fewer than two
/// bytes left the read fails.
#[verifier::external_body]
pub(crate) fn read_u16(bytes: &[u8], endian: Endian) -> (r: Option<u16>)
    ensures
        bytes@.len() >= 2 ==> r == Some(u16_from(bytes@, endian)),
        bytes@.len() < 2 ==> r is None,
{
    let order = match endian {
        Endian::Big => binrw::Endian::Big,
        Endian::Little => binrw::Endian::Little,
    };
    u16::read_options(&mut Cursor::new(bytes), order, ()).ok()
}

/// Reads a 32-bit integer with binrw's `BinRead::read_options` for `u32`
/// from a cursor over `bytes`. binrw takes exactly four bytes and hands them
/// to `u32::from_be_bytes` or `u32::from_le_bytes`; with fewer than four
/// bytes left the read fails.
#[verifier::external_body]
pub(crate) fn read_u32(bytes: &[u8], endian: Endian) -> (r: Option<u32>)
    ensures
        bytes@.len() >= 4 ==> r == Some(u32_from(bytes@, endian)),
        bytes@.len() < 4 ==> r is None,
{
    let order = match endian {
        Endian::Big => binrw::Endian::Big,
        Endian::Little => binrw::Endian::Little,
    };
    u32::read_options(&mut Cursor::new(bytes), order, ()).ok()
}

/// Writes a 16-bit integer with binrw's `BinWrite::write_options` for `u16`
/// into a cursor over an empty vector. binrw writes the two bytes of
/// `u16::to_be_bytes` or `u16::to_le_bytes`, and the cursor grows the
/// vector by what is written.
#[verifier::external_body]
pub(crate) fn write_u16(x: u16, endian: Endian) -> (r: Vec<u8>)
    ensures
        r@ == u16_bytes(x, endian),
{
    let order = match endian {
        Endian::Big => binrw::Endian::Big,
        Endian::Little => binrw::Endian::Little,
    };
    let mut cursor = Cursor::new(Vec::new());
    x.write_options(&mut cursor, order, ()).ok();
    cursor.into_inner()
}

/// Writes a 32-bit integer with binrw's `BinWrite::write_options` for `u32`
/// into a cursor over an empty vector. binrw writes the four bytes of
/// `u32::to_be_bytes` or `u32::to_le_bytes`, and the cursor grows the
/// vector by what is written.
#[verifier::external_body]
pub(crate) fn write_u32(x: u32, endian: Endian) -> (r: Vec<u8>)
    ensures
        r@ == u32_bytes(x, endian),
{
    let order = match endian {
        Endian::Big => binrw::Endian::Big,
        Endian::Little => binrw::Endian::Little,
    };
    let mut cursor = Cursor::new(Vec::new());
    x.write_options(&mut cursor, order, ()).ok();
    cursor.into_inner()
}

} // verus!
