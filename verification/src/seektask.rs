use crate::codec::Value;
use crate::codec::ValueView;
use crate::pool::run_at;
use crate::pool::text_of;
use crate::reader::cell_position;
use crate::reader::get_u32;
use crate::reader::pool_start;
use crate::reader::stored_at;
use crate::reader::u32_at;
use crate::table::BCSV;
use crate::types::BcsvError;
use crate::types::DataType;
use crate::types::Endian;
use vstd::prelude::*;
use vstd::slice::slice_subrange;

verus! {

/// A cursor over bytes in memory. The position may lie behind the last
/// byte; nothing is left to read there.
pub struct Stream {
    pub data: Vec<u8>,
    pub position: usize,
}

impl Stream {
    /// A cursor at the first of the bytes.
    pub fn new(data: Vec<u8>) -> (stream: Stream)
        ensures
            stream.data == data,
            stream.position == 0,
    {
        Stream { data, position: 0 }
    }

    /// The bytes from the position on.
    pub open spec fn spec_remaining(&self) -> Seq<u8> {
        if self.position <= self.data@.len() {
            self.data@.subrange(self.position as int, self.data@.len() as int)
        } else {
            Seq::empty()
        }
    }

    /// The bytes from the position on.
    pub fn remaining(&self) -> (bytes: &[u8])
        ensures
            bytes@ == self.spec_remaining(),
    {
        if self.position <= self.data.len() {
            slice_subrange(self.data.as_slice(), self.position, self.data.len())
        } else {
            slice_subrange(self.data.as_slice(), 0, 0)
        }
    }

    /// The same bytes with the cursor at `pos`.
    pub open spec fn moved_to(&self, pos: usize) -> Stream {
        Stream { data: self.data, position: pos }
    }
}

/// A scoped seek: a task runs with the cursor at a position of its own, and
/// the cursor is back where it was when the task has run.
pub trait SeekTask: Sized {
    /// `self` with the cursor at `pos`.
    spec fn seeked(&self, pos: usize) -> Self;

    /// Runs `func` with the cursor at `pos` and puts the cursor back.
    fn seektask<R, F: FnOnce(&Self) -> R>(&mut self, pos: usize, func: F) -> (r: R)
        requires
            call_requires(func, (&old(self).seeked(pos),)),
        ensures
            call_ensures(func, (&old(self).seeked(pos),), r),
            *final(self) == *old(self),
    ;
}

impl SeekTask for Stream {
    open spec fn seeked(&self, pos: usize) -> Stream {
        self.moved_to(pos)
    }

    fn seektask<R, F: FnOnce(&Stream) -> R>(&mut self, pos: usize, func: F) -> (r: R) {
        let saved = self.position;
        self.position = pos;
        let result = func(&*self);
        self.position = saved;
        result
    }
}

/// What the bytes from `at` on hold at their beginning is what the bytes
/// hold at `at`.
pub proof fn lemma_stored_at_shift(bytes: Seq<u8>, e: Endian, dt: DataType, at: int)
    requires
        0 <= at,
        at + dt.spec_size() <= bytes.len(),
    ensures
        stored_at(bytes.subrange(at, bytes.len() as int), e, dt, 0) == stored_at(bytes, e, dt, at),
{
    let rest = bytes.subrange(at, bytes.len() as int);
    if dt.spec_size() >= 4 {
        assert(rest.subrange(0, 4) =~= bytes.subrange(at, at + 4));
    }
    if dt.spec_size() >= 2 {
        assert(rest.subrange(0, 2) =~= bytes.subrange(at, at + 2));
    }
    if dt.spec_size() >= 32 {
        assert(rest.subrange(0, 32) =~= bytes.subrange(at, at + 32));
    }
    assert(rest[0] == bytes[at]);
}

/// Reads what record `row` holds of the field of column `column`, at the
/// field's place in the stream, and leaves the cursor where it was.
///
/// Fails with `MalformedHeader` where the table has no such column, and
/// with `TruncatedInput` where the value would pass the end of the stream.
pub fn read_field(bcsv: &BCSV, column: usize, row: u32, stream: &mut Stream, endian: Endian) -> (r:
    Result<Value, BcsvError>)
    ensures
        *final(stream) == *old(stream),
        column >= bcsv.fields@.len() ==> r == Err::<Value, BcsvError>(BcsvError::MalformedHeader),
        column < bcsv.fields@.len() ==> {
            let field = bcsv.fields@[column as int];
            let at = cell_position(bcsv.header, field, row as int);
            if at + field.datatype.spec_size() <= old(stream).data@.len() {
                r is Ok && r.unwrap()@ == stored_at(old(stream).data@, endian, field.datatype, at)
            } else {
                r == Err::<Value, BcsvError>(BcsvError::TruncatedInput)
            }
        },
{
    if column >= bcsv.fields.len() {
        return Err(BcsvError::MalformedHeader);
    }
    let field = &bcsv.fields[column];
    assert(row as u64 * bcsv.header.entrysize as u64 <= 0xFFFF_FFFF * 0xFFFF_FFFF)
        by (nonlinear_arith);
    let at: u64 = bcsv.header.entrydataoff as u64 + row as u64 * bcsv.header.entrysize as u64
        + field.dataoff as u64;
    if at > stream.data.len() as u64 {
        return Err(BcsvError::TruncatedInput);
    }
    let ghost bytes = stream.data@;
    let task = |s: &Stream| -> (r: Result<Value, BcsvError>)
        ensures
            field.datatype.spec_size() <= s.spec_remaining().len() ==> r is Ok && r.unwrap()@
                == stored_at(s.spec_remaining(), endian, field.datatype, 0),
            field.datatype.spec_size() > s.spec_remaining().len() ==> r == Err::<Value, BcsvError>(
                BcsvError::TruncatedInput,
            ),
        { Value::read_options(s.remaining(), endian, field, 0) };
    let result = stream.seektask(at as usize, task);
    proof {
        if at + field.datatype.spec_size() <= bytes.len() {
            lemma_stored_at_shift(bytes, endian, field.datatype, at as int);
        }
    }
    result
}

/// Reads the string that record `row` points at in column `column`: the
/// 32-bit pool offset at the field's place, and then the zero-terminated
/// run at that offset behind the records, decoded lossily. Leaves the
/// cursor where it was.
///
/// Fails with `MalformedHeader` where the table has no such column, and
/// with `TruncatedInput` where the offset or the string passes the end of
/// the stream.
pub fn read_stringoff(bcsv: &BCSV, column: usize, row: u32, stream: &mut Stream, endian: Endian)
    -> (r: Result<String, BcsvError>)
    ensures
        *final(stream) == *old(stream),
        column >= bcsv.fields@.len() ==> r == Err::<String, BcsvError>(BcsvError::MalformedHeader),
        column < bcsv.fields@.len() ==> {
            let at = cell_position(bcsv.header, bcsv.fields@[column as int], row as int);
            let bytes = old(stream).data@;
            if at + 4 <= bytes.len() {
                match run_at(bytes, pool_start(bcsv.header) + u32_at(bytes, endian, at)) {
                    Some(run) => r is Ok && r.unwrap()@ == text_of(run),
                    None => r == Err::<String, BcsvError>(BcsvError::TruncatedInput),
                }
            } else {
                r == Err::<String, BcsvError>(BcsvError::TruncatedInput)
            }
        },
{
    if column >= bcsv.fields.len() {
        return Err(BcsvError::MalformedHeader);
    }
    let field = &bcsv.fields[column];
    assert(row as u64 * bcsv.header.entrysize as u64 <= 0xFFFF_FFFF * 0xFFFF_FFFF)
        by (nonlinear_arith);
    let at: u64 = bcsv.header.entrydataoff as u64 + row as u64 * bcsv.header.entrysize as u64
        + field.dataoff as u64;
    if at > stream.data.len() as u64 {
        return Err(BcsvError::TruncatedInput);
    }
    let ghost bytes = stream.data@;
    let word = |s: &Stream| -> (r: Option<u32>)
        ensures
            4 <= s.spec_remaining().len() ==> r == Some(u32_at(s.spec_remaining(), endian, 0)),
            4 > s.spec_remaining().len() ==> r is None,
        { get_u32(s.remaining(), endian, 0) };
    let off = match stream.seektask(at as usize, word) {
        Some(off) => off,
        None => {
            return Err(BcsvError::TruncatedInput);
        },
    };
    proof {
        let rest = bytes.subrange(at as int, bytes.len() as int);
        assert(rest.subrange(0, 4) =~= bytes.subrange(at as int, at + 4));
    }
    assert(bcsv.header.entrycount as u64 * bcsv.header.entrysize as u64 <= 0xFFFF_FFFF
        * 0xFFFF_FFFF) by (nonlinear_arith);
    let pool: u64 = bcsv.header.entrydataoff as u64 + bcsv.header.entrycount as u64
        * bcsv.header.entrysize as u64;
    if pool > stream.data.len() as u64 {
        proof {
            crate::text::lemma_index_from_bounds(bytes, 0u8, pool + off);
        }
        return Err(BcsvError::TruncatedInput);
    }
    let text = |s: &Stream| -> (r: Result<Value, BcsvError>)
        ensures
            match run_at(s.data@, pool + off) {
                Some(run) => r is Ok && r.unwrap()@ == ValueView::StringOff(text_of(run)),
                None => r == Err::<Value, BcsvError>(BcsvError::TruncatedInput),
            },
        { Value::read_string_off(s.data.as_slice(), pool as usize, off) };
    match stream.seektask(pool as usize, text) {
        Ok(Value::STRINGOFF(text)) => Ok(text),
        Ok(_) => Err(BcsvError::TruncatedInput),
        Err(err) => Err(err),
    }
}

} // verus!
