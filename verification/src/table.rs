use crate::bytes::u16_bytes;
use crate::bytes::u32_bytes;
use crate::bytes::write_u16;
use crate::bytes::write_u32;
use crate::codec::Value;
use crate::codec::ValueView;
use crate::layout::lemma_width_upto_monotone;
use crate::layout::record_size;
use crate::layout::width_upto;
use crate::types::BcsvError;
use crate::types::Endian;
use crate::types::Field;
use crate::types::Header;
use vstd::prelude::*;

verus! {

/// A whole table: header, fields in declaration order, and the values row
/// by row.
#[derive(Debug, Clone, PartialEq, Eq)]
pub struct BCSV {
    pub header: Header,
    pub fields: Vec<Field>,
    pub values: Vec<Value>,
}

/// The mathematical content of a [`BCSV`].
pub struct TableView {
    pub header: Header,
    pub fields: Seq<Field>,
    pub values: Seq<ValueView>,
}

impl View for BCSV {
    type V = TableView;

    open spec fn view(&self) -> TableView {
        TableView {
            header: self.header,
            fields: self.fields@,
            values: self.values@.map_values(|v: Value| v@),
        }
    }
}

/// Appends `bytes` to `out`.
pub fn append_bytes(out: &mut Vec<u8>, bytes: &[u8])
    ensures
        final(out)@ == old(out)@ + bytes@,
{
    let mut i: usize = 0;
    while i < bytes.len()
        invariant
            i <= bytes.len(),
            out@ == old(out)@ + bytes@.take(i as int),
        decreases bytes.len() - i,
    {
        out.push(bytes[i]);
        assert(bytes@.take(i + 1) =~= bytes@.take(i as int).push(bytes@[i as int]));
        i += 1;
    }
    assert(bytes@.take(i as int) =~= bytes@);
}

/// The sixteen bytes of a header.
pub open spec fn header_bytes(h: Header, e: Endian) -> Seq<u8> {
    u32_bytes(h.entrycount, e) + u32_bytes(h.fieldcount, e) + u32_bytes(h.entrydataoff, e)
        + u32_bytes(h.entrysize, e)
}

/// The twelve bytes of a field descriptor.
pub open spec fn field_bytes(f: Field, e: Endian) -> Seq<u8> {
    u32_bytes(f.hash, e) + u32_bytes(f.mask, e) + u16_bytes(f.dataoff, e) + seq![
        f.shift,
        f.datatype.spec_tag(),
    ]
}

/// The descriptors of the first `n` fields, one after the other.
pub open spec fn fields_bytes(fields: Seq<Field>, e: Endian, n: int) -> Seq<u8>
    decreases n,
{
    if n <= 0 {
        Seq::empty()
    } else {
        fields_bytes(fields, e, n - 1) + field_bytes(fields[n - 1], e)
    }
}

/// `base` with `patch` written over it from position `at` on.
pub open spec fn overlay(base: Seq<u8>, at: int, patch: Seq<u8>) -> Seq<u8> {
    Seq::new(
        base.len(),
        |i: int|
            if at <= i < at + patch.len() {
                patch[i - at]
            } else {
                base[i]
            },
    )
}

/// Record `row` after the values of its first `n` fields were written, in
/// declaration order, over a record of zero bytes.
pub open spec fn row_bytes(t: TableView, e: Endian, row: int, n: int) -> Seq<u8>
    decreases n,
{
    if n <= 0 {
        Seq::new(t.header.entrysize as nat, |i: int| 0u8)
    } else {
        overlay(
            row_bytes(t, e, row, n - 1),
            t.fields[n - 1].dataoff as int,
            t.values[row * t.fields.len() + n - 1].bytes(e),
        )
    }
}

/// The first `rows` records, one after the other.
pub open spec fn records_bytes(t: TableView, e: Endian, rows: int) -> Seq<u8>
    decreases rows,
{
    if rows <= 0 {
        Seq::empty()
    } else {
        records_bytes(t, e, rows - 1) + row_bytes(t, e, rows - 1, t.fields.len() as int)
    }
}

/// Header, field descriptors and records of a table.
pub open spec fn table_bytes(t: TableView, e: Endian) -> Seq<u8> {
    header_bytes(t.header, e) + fields_bytes(t.fields, e, t.fields.len() as int) + records_bytes(
        t,
        e,
        t.header.entrycount as int,
    )
}

/// Counts, offsets and values of the table agree with each other: the header
/// counts the fields and rows that are there, the records begin right after
/// the descriptors, a record is as large as its fields together, and each
/// value can stand in its column.
pub open spec fn consistent(t: TableView) -> bool {
    &&& t.fields.len() == t.header.fieldcount
    &&& t.values.len() == t.header.fieldcount * t.header.entrycount
    &&& t.header.entrydataoff == 16 + 12 * t.header.fieldcount
    &&& t.header.entrysize == record_size(t.fields)
    &&& forall|v: int|
        0 <= v < t.values.len() ==> (#[trigger] t.values[v]).stored_as(
            t.fields[v % (t.fields.len() as int)].datatype,
        )
}

/// The offset of the first field from `k` on whose storage passes the end of
/// a record of `size` bytes.
pub open spec fn crossing(fields: Seq<Field>, size: int, k: int) -> Option<u16>
    decreases fields.len() - k,
{
    if k < 0 || k >= fields.len() {
        None
    } else if fields[k].dataoff + fields[k].datatype.spec_size() > size {
        Some(fields[k].dataoff)
    } else {
        crossing(fields, size, k + 1)
    }
}

/// Why a table cannot be written, if it cannot.
pub open spec fn write_error(t: TableView) -> Option<BcsvError> {
    if !consistent(t) {
        Some(BcsvError::MalformedHeader)
    } else {
        match crossing(t.fields, t.header.entrysize as int, 0) {
            Some(offset) => Some(BcsvError::FieldDecode { offset }),
            None => None,
        }
    }
}

/// Where no field from `k` on passes the end of the record, field `i` does
/// not.
pub proof fn lemma_crossing_none(fields: Seq<Field>, size: int, k: int, i: int)
    requires
        0 <= k <= i < fields.len(),
        crossing(fields, size, k) is None,
    ensures
        fields[i].dataoff + fields[i].datatype.spec_size() <= size,
    decreases i - k,
{
    if k < i {
        lemma_crossing_none(fields, size, k + 1, i);
    }
}

/// The byte size of one record, or `None` where it does not fit in 32 bits.
pub fn sum_widths(fields: &Vec<Field>) -> (r: Option<u32>)
    ensures
        match r {
            Some(total) => total == record_size(fields@),
            None => record_size(fields@) > u32::MAX,
        },
{
    let n = fields.len();
    let mut total: u32 = 0;
    let mut k: usize = 0;
    while k < n
        invariant
            k <= n,
            n == fields.len(),
            total == width_upto(fields@, k as int),
        decreases n - k,
    {
        let size = fields[k].datatype.getdtsize() as u32;
        if total > u32::MAX - size {
            proof {
                lemma_width_upto_monotone(fields@, k as int + 1, n as int);
            }
            return None;
        }
        total = total + size;
        k += 1;
    }
    Some(total)
}

/// The offset of the first field whose storage passes the end of a record
/// of `size` bytes.
pub fn find_crossing(fields: &Vec<Field>, size: u32) -> (r: Option<u16>)
    ensures
        r == crossing(fields@, size as int, 0),
{
    let n = fields.len();
    let mut k: usize = 0;
    while k < n
        invariant
            k <= n,
            n == fields.len(),
            crossing(fields@, size as int, 0) == crossing(fields@, size as int, k as int),
        decreases n - k,
    {
        if fields[k].dataoff as u32 + fields[k].datatype.getdtsize() as u32 > size {
            return Some(fields[k].dataoff);
        }
        k += 1;
    }
    None
}

impl BCSV {
    /// An empty table.
    pub fn new() -> (t: BCSV)
        ensures
            t@.header == (Header { entrycount: 0, fieldcount: 0, entrydataoff: 0, entrysize: 0 }),
            t@.fields.len() == 0,
            t@.values.len() == 0,
    {
        BCSV {
            header: Header { entrycount: 0, fieldcount: 0, entrydataoff: 0, entrysize: 0 },
            fields: Vec::new(),
            values: Vec::new(),
        }
    }

    /// Checks counts, offsets and values against each other.
    fn check_consistent(&self) -> (b: bool)
        ensures
            b == consistent(self@),
    {
        let nf = self.fields.len();
        if nf > u32::MAX as usize || nf as u32 != self.header.fieldcount {
            return false;
        }
        let fc = self.header.fieldcount;
        let ec = self.header.entrycount;
        assert(fc * ec <= 0xFFFF_FFFF * 0xFFFF_FFFF) by (nonlinear_arith)
            requires
                0 <= fc <= 0xFFFF_FFFF,
                0 <= ec <= 0xFFFF_FFFF,
        ;
        let expected: u64 = fc as u64 * ec as u64;
        if self.values.len() as u64 != expected {
            return false;
        }
        assert(self.values.len() > 0 ==> nf > 0) by (nonlinear_arith)
            requires
                self.values.len() == fc * ec,
                nf == fc,
        ;
        if self.header.entrydataoff as u64 != 16 + 12 * self.header.fieldcount as u64 {
            return false;
        }
        match sum_widths(&self.fields) {
            Some(total) => {
                if total != self.header.entrysize {
                    return false;
                }
            },
            None => {
                return false;
            },
        }
        let nv = self.values.len();
        let mut v: usize = 0;
        while v < nv
            invariant
                v <= nv,
                nv == self.values.len(),
                nf == self.fields.len(),
                nv > 0 ==> nf > 0,
                forall|w: int|
                    0 <= w < v ==> (#[trigger] self@.values[w]).stored_as(
                        self@.fields[w % (nf as int)].datatype,
                    ),
            decreases nv - v,
        {
            if !self.values[v].stored_as(self.fields[v % nf].datatype) {
                assert(!self@.values[v as int].stored_as(
                    self@.fields[v as int % (nf as int)].datatype,
                ));
                return false;
            }
            v += 1;
        }
        true
    }

    /// Serialises the header, the field descriptors in declaration order and
    /// the records. Within a record each value is written at its field's
    /// offset, in declaration order, over zero bytes. Every value is written
    /// at its full width: masks and shifts play no part in writing, and
    /// where two fields share bytes of the record, the later field in
    /// declaration order overwrites the earlier.
    ///
    /// String columns must hold their pool offsets as `LONG` values. Fails
    /// with `MalformedHeader` when the table is not consistent, and with
    /// `FieldDecode` when a field's storage passes the end of the record.
    pub fn write_options(&self, endian: Endian) -> (r: Result<Vec<u8>, BcsvError>)
        ensures
            match r {
                Ok(out) => write_error(self@) is None && out@ == table_bytes(self@, endian),
                Err(err) => write_error(self@) == Some(err),
            },
    {
        if !self.check_consistent() {
            return Err(BcsvError::MalformedHeader);
        }
        match find_crossing(&self.fields, self.header.entrysize) {
            Some(offset) => {
                return Err(BcsvError::FieldDecode { offset });
            },
            None => {},
        }
        let mut out: Vec<u8> = Vec::new();
        append_bytes(&mut out, write_u32(self.header.entrycount, endian).as_slice());
        append_bytes(&mut out, write_u32(self.header.fieldcount, endian).as_slice());
        append_bytes(&mut out, write_u32(self.header.entrydataoff, endian).as_slice());
        append_bytes(&mut out, write_u32(self.header.entrysize, endian).as_slice());
        assert(out@ =~= header_bytes(self@.header, endian));
        let nf = self.fields.len();
        let mut k: usize = 0;
        while k < nf
            invariant
                k <= nf,
                nf == self.fields.len(),
                out@ == header_bytes(self@.header, endian) + fields_bytes(
                    self@.fields,
                    endian,
                    k as int,
                ),
            decreases nf - k,
        {
            let f = &self.fields[k];
            let ghost before = out@;
            append_bytes(&mut out, write_u32(f.hash, endian).as_slice());
            append_bytes(&mut out, write_u32(f.mask, endian).as_slice());
            append_bytes(&mut out, write_u16(f.dataoff, endian).as_slice());
            out.push(f.shift);
            out.push(f.datatype.tag());
            assert(out@ =~= before + field_bytes(*f, endian));
            assert(out@ =~= header_bytes(self@.header, endian) + fields_bytes(
                self@.fields,
                endian,
                k as int + 1,
            ));
            k += 1;
        }
        let rows = self.header.entrycount as usize;
        let size = self.header.entrysize as usize;
        let ghost head = out@;
        let mut row: usize = 0;
        while row < rows
            invariant
                row <= rows,
                rows == self.header.entrycount,
                size == self.header.entrysize,
                nf == self.fields.len(),
                consistent(self@),
                crossing(self@.fields, size as int, 0) is None,
                out@ == head + records_bytes(self@, endian, row as int),
            decreases rows - row,
        {
            let mut record: Vec<u8> = Vec::new();
            let mut z: usize = 0;
            while z < size
                invariant
                    z <= size,
                    record@ == Seq::new(z as nat, |i: int| 0u8),
                decreases size - z,
            {
                record.push(0u8);
                assert(record@ =~= Seq::new((z + 1) as nat, |i: int| 0u8));
                z += 1;
            }
            let mut c: usize = 0;
            while c < nf
                invariant
                    c <= nf,
                    row < rows,
                    rows == self.header.entrycount,
                    size == self.header.entrysize,
                    nf == self.fields.len(),
                    consistent(self@),
                    crossing(self@.fields, size as int, 0) is None,
                    record@ == row_bytes(self@, endian, row as int, c as int),
                    record@.len() == size,
                decreases nf - c,
            {
                proof {
                    lemma_crossing_none(self@.fields, size as int, 0, c as int);
                    assert(0 <= row * nf && row * nf + c < nf * rows) by (nonlinear_arith)
                        requires
                            0 <= row < rows,
                            0 <= c < nf,
                    ;
                    assert(self@.values.len() == self.values.len());
                }
                let at = self.fields[c].dataoff as usize;
                let patch = self.values[row * nf + c].write_value(endian);
                proof {
                    let v = self@.values[row * nf + c];
                    assert(v == self.values[row * nf + c]@);
                    assert(v.stored_as(self@.fields[(row * nf + c) % (nf as int)].datatype));
                    assert((row * nf + c) % (nf as int) == c) by (nonlinear_arith)
                        requires
                            0 <= c < nf,
                            0 <= row,
                    ;
                    assert(patch@.len() == self@.fields[c as int].datatype.spec_size());
                }
                let ghost prior = record@;
                let mut i: usize = 0;
                while i < patch.len()
                    invariant
                        i <= patch.len(),
                        at + patch.len() <= size,
                        record@.len() == size,
                        record@ == overlay(prior, at as int, patch@.take(i as int)),
                    decreases patch.len() - i,
                {
                    record.set(at + i, patch[i]);
                    assert(record@ =~= overlay(prior, at as int, patch@.take(i + 1)));
                    i += 1;
                }
                assert(patch@.take(i as int) =~= patch@);
                c += 1;
            }
            append_bytes(&mut out, record.as_slice());
            assert(out@ =~= head + records_bytes(self@, endian, row as int + 1));
            row += 1;
        }
        Ok(out)
    }
}

} // verus!
