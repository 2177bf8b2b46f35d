use crate::bytes::read_u16;
use crate::bytes::read_u32;
use crate::bytes::u16_from;
use crate::bytes::u32_from;
use crate::codec::Value;
use crate::codec::ValueView;
use crate::layout::record_size;
use crate::pool::lossy_string;
use crate::pool::read_run;
use crate::pool::run_at;
use crate::pool::text_of;
use crate::table::crossing;
use crate::table::find_crossing;
use crate::table::lemma_crossing_none;
use crate::table::sum_widths;
use crate::table::TableView;
use crate::table::BCSV;
use crate::types::BcsvError;
use crate::types::DataType;
use crate::types::Endian;
use crate::types::Field;
use crate::types::Header;
use vstd::prelude::*;
use vstd::slice::slice_subrange;

verus! {

/// The 16-bit integer held at position `at`.
pub open spec fn u16_at(bytes: Seq<u8>, e: Endian, at: int) -> u16 {
    u16_from(bytes.subrange(at, at + 2), e)
}

/// The 32-bit integer held at position `at`.
pub open spec fn u32_at(bytes: Seq<u8>, e: Endian, at: int) -> u32 {
    u32_from(bytes.subrange(at, at + 4), e)
}

/// The header that the first sixteen bytes hold.
pub open spec fn header_at(bytes: Seq<u8>, e: Endian) -> Header {
    Header {
        entrycount: u32_at(bytes, e, 0),
        fieldcount: u32_at(bytes, e, 4),
        entrydataoff: u32_at(bytes, e, 8),
        entrysize: u32_at(bytes, e, 12),
    }
}

/// The datatype tag of field descriptor `k`.
pub open spec fn tag_at(bytes: Seq<u8>, k: int) -> u8 {
    bytes[16 + 12 * k + 11]
}

/// The field that descriptor `k` holds; a tag outside the known set reads
/// as `LONG`.
pub open spec fn field_at(bytes: Seq<u8>, e: Endian, k: int) -> Field {
    Field {
        hash: u32_at(bytes, e, 16 + 12 * k),
        mask: u32_at(bytes, e, 16 + 12 * k + 4),
        dataoff: u16_at(bytes, e, 16 + 12 * k + 8),
        shift: bytes[16 + 12 * k + 10],
        datatype: match DataType::spec_from_tag(tag_at(bytes, k)) {
            Some(dt) => dt,
            None => DataType::LONG,
        },
    }
}

/// The fields that the first `n` descriptors hold.
pub open spec fn fields_at(bytes: Seq<u8>, e: Endian, n: int) -> Seq<Field> {
    Seq::new(n as nat, |k: int| field_at(bytes, e, k))
}

/// One of the first `n` descriptors carries a tag outside the known set.
pub open spec fn bad_tag(bytes: Seq<u8>, n: int) -> bool {
    exists|k: int| 0 <= k < n && DataType::spec_from_tag(#[trigger] tag_at(bytes, k)) is None
}

/// What a record holds of a value of datatype `dt` at position `at`: the
/// stored word of a number, the raw bytes of a fixed string, the pool offset
/// of a string.
pub open spec fn stored_at(bytes: Seq<u8>, e: Endian, dt: DataType, at: int) -> ValueView {
    match dt {
        DataType::LONG | DataType::LONG2 | DataType::STRINGOFF => ValueView::Long(
            u32_at(bytes, e, at),
        ),
        DataType::STRING => ValueView::Text(bytes.subrange(at, at + 32)),
        DataType::FLOAT => ValueView::Float(u32_at(bytes, e, at)),
        DataType::SHORT => ValueView::Short(u16_at(bytes, e, at)),
        DataType::CHAR => ValueView::Char(bytes[at]),
    }
}

/// The position of field `f` in record `row`.
pub open spec fn cell_position(h: Header, f: Field, row: int) -> int {
    h.entrydataoff + row * h.entrysize + f.dataoff
}

/// The position at which the string pool begins.
pub open spec fn pool_start(h: Header) -> int {
    h.entrydataoff + h.entrycount * h.entrysize
}

/// What the record block holds of value `v`, counted row by row.
pub open spec fn stored_value(bytes: Seq<u8>, e: Endian, h: Header, fields: Seq<Field>, v: int)
    -> ValueView {
    let f = fields[v % (fields.len() as int)];
    stored_at(bytes, e, f.datatype, cell_position(h, f, v / (fields.len() as int)))
}

/// The value of a column of datatype `dt` once its string is resolved: the
/// text of the zero-terminated run at the stored offset within the pool for
/// a string column, the stored value itself for any other. `None` where the
/// run has no end.
pub open spec fn resolved(bytes: Seq<u8>, pool: int, dt: DataType, stored: ValueView) -> Option<
    ValueView,
> {
    match stored {
        ValueView::Long(off) => if dt == DataType::STRINGOFF {
            match run_at(bytes, pool + off) {
                Some(run) => Some(ValueView::StringOff(text_of(run))),
                None => None,
            }
        } else {
            Some(stored)
        },
        _ => Some(stored),
    }
}

/// Value `v` of the table that the bytes hold.
pub open spec fn value_at(bytes: Seq<u8>, e: Endian, h: Header, fields: Seq<Field>, v: int)
    -> Option<ValueView> {
    resolved(
        bytes,
        pool_start(h),
        fields[v % (fields.len() as int)].datatype,
        stored_value(bytes, e, h, fields, v),
    )
}

/// One of the first `n` values is a string whose run has no end.
pub open spec fn unresolved(bytes: Seq<u8>, e: Endian, h: Header, fields: Seq<Field>, n: int)
    -> bool {
    exists|v: int| 0 <= v < n && (#[trigger] value_at(bytes, e, h, fields, v)) is None
}

/// The table that the bytes hold.
pub open spec fn decoded(bytes: Seq<u8>, e: Endian) -> TableView {
    let h = header_at(bytes, e);
    let fields = fields_at(bytes, e, h.fieldcount as int);
    TableView {
        header: h,
        fields: fields,
        values: Seq::new(
            (h.entrycount * h.fieldcount) as nat,
            |v: int| value_at(bytes, e, h, fields, v).unwrap(),
        ),
    }
}

/// Why the bytes hold no table, if they do not. The checks come in the order
/// in which a table is read: header, field descriptors, records, strings.
pub open spec fn decode_error(bytes: Seq<u8>, e: Endian) -> Option<BcsvError> {
    let h = header_at(bytes, e);
    let fields = fields_at(bytes, e, h.fieldcount as int);
    if bytes.len() < 16 {
        Some(BcsvError::TruncatedInput)
    } else if h.entrydataoff != 16 + 12 * h.fieldcount {
        Some(BcsvError::MalformedHeader)
    } else if bytes.len() < h.entrydataoff {
        Some(BcsvError::TruncatedInput)
    } else if bad_tag(bytes, h.fieldcount as int) {
        Some(BcsvError::InvalidDatatype)
    } else if h.entrysize != record_size(fields) {
        Some(BcsvError::MalformedHeader)
    } else if crossing(fields, h.entrysize as int, 0) is Some {
        Some(BcsvError::FieldDecode { offset: crossing(fields, h.entrysize as int, 0).unwrap() })
    } else if bytes.len() < pool_start(h) {
        Some(BcsvError::TruncatedInput)
    } else if unresolved(bytes, e, h, fields, h.entrycount * h.fieldcount) {
        Some(BcsvError::TruncatedInput)
    } else {
        None
    }
}

/// Reads the 16-bit integer at position `at`, if the bytes reach that far.
pub fn get_u16(bytes: &[u8], endian: Endian, at: usize) -> (r: Option<u16>)
    ensures
        at + 2 <= bytes@.len() ==> r == Some(u16_at(bytes@, endian, at as int)),
        at + 2 > bytes@.len() ==> r is None,
{
    if at > bytes.len() || bytes.len() - at < 2 {
        None
    } else {
        read_u16(slice_subrange(bytes, at, at + 2), endian)
    }
}

/// Reads the 32-bit integer at position `at`, if the bytes reach that far.
pub fn get_u32(bytes: &[u8], endian: Endian, at: usize) -> (r: Option<u32>)
    ensures
        at + 4 <= bytes@.len() ==> r == Some(u32_at(bytes@, endian, at as int)),
        at + 4 > bytes@.len() ==> r is None,
{
    if at > bytes.len() || bytes.len() - at < 4 {
        None
    } else {
        read_u32(slice_subrange(bytes, at, at + 4), endian)
    }
}

impl Value {
    /// Reads what a record holds of a value of `field`'s datatype at
    /// position `at`. Fails with `TruncatedInput` where the value would pass
    /// the end of the bytes.
    pub fn read_options(bytes: &[u8], endian: Endian, field: &Field, at: usize) -> (r: Result<
        Value,
        BcsvError,
    >)
        ensures
            at + field.datatype.spec_size() <= bytes@.len() ==> r is Ok && r.unwrap()@
                == stored_at(bytes@, endian, field.datatype, at as int),
            at + field.datatype.spec_size() > bytes@.len() ==> r == Err::<Value, BcsvError>(
                BcsvError::TruncatedInput,
            ),
    {
        match field.datatype {
            DataType::LONG | DataType::LONG2 | DataType::STRINGOFF => match get_u32(
                bytes,
                endian,
                at,
            ) {
                Some(x) => Ok(Value::LONG(x)),
                None => Err(BcsvError::TruncatedInput),
            },
            DataType::FLOAT => match get_u32(bytes, endian, at) {
                Some(x) => Ok(Value::FLOAT(x)),
                None => Err(BcsvError::TruncatedInput),
            },
            DataType::SHORT => match get_u16(bytes, endian, at) {
                Some(x) => Ok(Value::SHORT(x)),
                None => Err(BcsvError::TruncatedInput),
            },
            DataType::CHAR => {
                if at < bytes.len() {
                    Ok(Value::CHAR(bytes[at]))
                } else {
                    Err(BcsvError::TruncatedInput)
                }
            },
            DataType::STRING => {
                if at > bytes.len() || bytes.len() - at < 32 {
                    return Err(BcsvError::TruncatedInput);
                }
                let mut text = [0u8; 32];
                let mut i: usize = 0;
                while i < 32
                    invariant
                        i <= 32,
                        at + 32 <= bytes.len(),
                        forall|j: int| 0 <= j < i ==> text@[j] == bytes@[at + j],
                    decreases 32 - i,
                {
                    text[i] = bytes[at + i];
                    i += 1;
                }
                assert(text@ =~= bytes@.subrange(at as int, at + 32));
                Ok(Value::STRING(text))
            },
        }
    }

    /// Reads the zero-terminated string that begins `off` bytes into the
    /// pool at position `pool`, and decodes it lossily. Fails with
    /// `TruncatedInput` where the string has no end within the bytes.
    pub fn read_string_off(bytes: &[u8], pool: usize, off: u32) -> (r: Result<Value, BcsvError>)
        ensures
            match run_at(bytes@, pool + off) {
                Some(run) => r is Ok && r.unwrap()@ == ValueView::StringOff(text_of(run)),
                None => r == Err::<Value, BcsvError>(BcsvError::TruncatedInput),
            },
    {
        if off as usize > bytes.len() || pool > bytes.len() - off as usize {
            return Err(BcsvError::TruncatedInput);
        }
        match read_run(bytes, pool + off as usize) {
            Some(run) => Ok(Value::STRINGOFF(lossy_string(run))),
            None => Err(BcsvError::TruncatedInput),
        }
    }
}

/// Reads the header, if the bytes hold one.
pub fn read_header(bytes: &[u8], endian: Endian) -> (r: Option<Header>)
    ensures
        bytes@.len() >= 16 ==> r == Some(header_at(bytes@, endian)),
        bytes@.len() < 16 ==> r is None,
{
    if bytes.len() < 16 {
        return None;
    }
    match (
        get_u32(bytes, endian, 0),
        get_u32(bytes, endian, 4),
        get_u32(bytes, endian, 8),
        get_u32(bytes, endian, 12),
    ) {
        (Some(entrycount), Some(fieldcount), Some(entrydataoff), Some(entrysize)) => Some(
            Header { entrycount, fieldcount, entrydataoff, entrysize },
        ),
        _ => None,
    }
}

/// Reads `count` field descriptors. Fails with `InvalidDatatype` where one
/// of them carries a tag outside the known set.
fn read_fields(bytes: &[u8], endian: Endian, count: u32) -> (r: Result<Vec<Field>, BcsvError>)
    requires
        16 + 12 * count <= bytes@.len(),
    ensures
        match r {
            Ok(fields) => !bad_tag(bytes@, count as int) && fields@ == fields_at(
                bytes@,
                endian,
                count as int,
            ),
            Err(err) => bad_tag(bytes@, count as int) && err == BcsvError::InvalidDatatype,
        },
{
    let mut fields: Vec<Field> = Vec::new();
    let mut k: usize = 0;
    while k < count as usize
        invariant
            k <= count,
            16 + 12 * count <= bytes.len(),
            !bad_tag(bytes@, k as int),
            fields@ == fields_at(bytes@, endian, k as int),
        decreases count - k,
    {
        let at: usize = 16 + 12 * k;
        let datatype = match DataType::from_tag(bytes[at + 11]) {
            Ok(dt) => dt,
            Err(err) => {
                assert(DataType::spec_from_tag(tag_at(bytes@, k as int)) is None);
                return Err(err);
            },
        };
        match (get_u32(bytes, endian, at), get_u32(bytes, endian, at + 4), get_u16(
            bytes,
            endian,
            at + 8,
        )) {
            (Some(hash), Some(mask), Some(dataoff)) => {
                fields.push(Field { hash, mask, dataoff, shift: bytes[at + 10], datatype });
            },
            _ => {
                assert(false);
            },
        }
        assert(fields@ =~= fields_at(bytes@, endian, k as int + 1));
        assert(!bad_tag(bytes@, k as int + 1)) by {
            assert forall|j: int| 0 <= j < k + 1 implies !(DataType::spec_from_tag(
                #[trigger] tag_at(bytes@, j),
            ) is None) by {
                if j < k {
                    assert(!bad_tag(bytes@, k as int));
                }
            }
        }
        k += 1;
    }
    Ok(fields)
}

/// Position arithmetic within the record block: cell `c` of record `row`
/// is value `row * nf + c`, and the record ends before the pool begins.
pub proof fn lemma_cell_index(row: int, c: int, nf: int, rows: int, size: int)
    requires
        0 <= row < rows,
        0 <= c < nf,
        0 <= size,
    ensures
        0 <= row * nf + c < rows * nf,
        (row * nf + c) % nf == c,
        (row * nf + c) / nf == row,
        0 <= row * size,
        row * size + size <= rows * size,
{
    assert(0 <= row * nf + c < rows * nf) by (nonlinear_arith)
        requires
            0 <= row < rows,
            0 <= c < nf,
    ;
    vstd::arithmetic::div_mod::lemma_fundamental_div_mod_converse(row * nf + c, nf, row, c);
    assert(0 <= row * size && row * size + size <= rows * size) by (nonlinear_arith)
        requires
            0 <= row < rows,
            0 <= size,
    ;
}

/// Reads what the record block holds of every value, row by row.
fn read_records(bytes: &[u8], endian: Endian, header: &Header, fields: &Vec<Field>) -> (r:
    Result<Vec<Value>, BcsvError>)
    requires
        fields@.len() == header.fieldcount,
        crossing(fields@, header.entrysize as int, 0) is None,
        pool_start(*header) <= bytes@.len(),
    ensures
        r is Ok,
        r.unwrap()@.map_values(|v: Value| v@) == Seq::new(
            (header.entrycount * header.fieldcount) as nat,
            |v: int| stored_value(bytes@, endian, *header, fields@, v),
        ),
{
    let nf = fields.len();
    let rows = header.entrycount as usize;
    let size = header.entrysize as usize;
    let base = header.entrydataoff as usize;
    let mut values: Vec<Value> = Vec::new();
    if nf == 0 {
        assert(header.entrycount * header.fieldcount == 0) by (nonlinear_arith)
            requires
                header.fieldcount == 0,
        ;
        assert(values@.map_values(|v: Value| v@) =~= Seq::new(
            0nat,
            |v: int| stored_value(bytes@, endian, *header, fields@, v),
        ));
        return Ok(values);
    }
    let mut row: usize = 0;
    while row < rows
        invariant
            row <= rows,
            rows == header.entrycount,
            size == header.entrysize,
            base == header.entrydataoff,
            0 < nf == fields@.len(),
            nf == header.fieldcount,
            crossing(fields@, size as int, 0) is None,
            pool_start(*header) <= bytes.len(),
            values@.len() == row * nf,
            forall|w: int|
                0 <= w < values@.len() ==> (#[trigger] values@[w])@ == stored_value(
                    bytes@,
                    endian,
                    *header,
                    fields@,
                    w,
                ),
        decreases rows - row,
    {
        let mut c: usize = 0;
        while c < nf
            invariant
                c <= nf,
                row < rows,
                rows == header.entrycount,
                size == header.entrysize,
                base == header.entrydataoff,
                0 < nf == fields@.len(),
                nf == header.fieldcount,
                crossing(fields@, size as int, 0) is None,
                pool_start(*header) <= bytes.len(),
                values@.len() == row * nf + c,
                forall|w: int|
                    0 <= w < values@.len() ==> (#[trigger] values@[w])@ == stored_value(
                        bytes@,
                        endian,
                        *header,
                        fields@,
                        w,
                    ),
            decreases nf - c,
        {
            proof {
                lemma_cell_index(row as int, c as int, nf as int, rows as int, size as int);
                lemma_crossing_none(fields@, size as int, 0, c as int);
            }
            let field = &fields[c];
            let at: usize = base + row * size + field.dataoff as usize;
            match Value::read_options(bytes, endian, field, at) {
                Ok(value) => {
                    values.push(value);
                },
                Err(err) => {
                    return Err(err);
                },
            }
            c += 1;
        }
        assert((row + 1) * nf == row * nf + nf) by (nonlinear_arith);
        row += 1;
    }
    assert(values@.len() == header.entrycount * header.fieldcount) by (nonlinear_arith)
        requires
            values@.len() == rows * nf,
            rows == header.entrycount,
            nf == header.fieldcount,
    ;
    assert(values@.map_values(|v: Value| v@) =~= Seq::new(
        (header.entrycount * header.fieldcount) as nat,
        |v: int| stored_value(bytes@, endian, *header, fields@, v),
    ));
    Ok(values)
}

/// Replaces the stored offset of every string value by the text it points
/// at in the pool. Fails with `TruncatedInput` where a string has no end.
fn resolve_strings(
    bytes: &[u8],
    endian: Endian,
    header: &Header,
    fields: &Vec<Field>,
    pool: usize,
    values: &mut Vec<Value>,
) -> (r: Result<(), BcsvError>)
    requires
        fields@.len() == header.fieldcount,
        pool == pool_start(*header),
        pool <= bytes@.len(),
        old(values)@.map_values(|v: Value| v@) == Seq::new(
            (header.entrycount * header.fieldcount) as nat,
            |v: int| stored_value(bytes@, endian, *header, fields@, v),
        ),
    ensures
        match r {
            Ok(_) => !unresolved(
                bytes@,
                endian,
                *header,
                fields@,
                header.entrycount * header.fieldcount,
            ) && final(values)@.map_values(|v: Value| v@) == Seq::new(
                (header.entrycount * header.fieldcount) as nat,
                |v: int| value_at(bytes@, endian, *header, fields@, v).unwrap(),
            ),
            Err(err) => err == BcsvError::TruncatedInput && unresolved(
                bytes@,
                endian,
                *header,
                fields@,
                header.entrycount * header.fieldcount,
            ),
        },
{
    let nf = fields.len();
    let total = values.len();
    let ghost n = header.entrycount * header.fieldcount;
    let ghost stored = Seq::new(
        n as nat,
        |v: int| stored_value(bytes@, endian, *header, fields@, v),
    );
    assert(total == n) by {
        assert(values@.map_values(|v: Value| v@).len() == stored.len());
    }
    assert forall|u: int| 0 <= u < total implies (#[trigger] values@[u])@ == stored[u] by {
        assert(values@.map_values(|v: Value| v@)[u] == stored[u]);
    }
    let mut w: usize = 0;
    while w < total
        invariant
            w <= total,
            total == values@.len(),
            total == n,
            n == header.entrycount * header.fieldcount,
            nf == fields@.len(),
            nf == header.fieldcount,
            pool == pool_start(*header),
            pool <= bytes.len(),
            stored == Seq::new(
                n as nat,
                |v: int| stored_value(bytes@, endian, *header, fields@, v),
            ),
            forall|u: int|
                0 <= u < w ==> value_at(bytes@, endian, *header, fields@, u) == Some(
                    (#[trigger] values@[u])@,
                ),
            forall|u: int| w <= u < total ==> (#[trigger] values@[u])@ == stored[u],
        decreases total - w,
    {
        assert(nf > 0) by (nonlinear_arith)
            requires
                0 < n == header.entrycount * header.fieldcount,
                nf == header.fieldcount,
        ;
        let c = w % nf;
        let offset = match &values[w] {
            Value::LONG(off) => Some(*off),
            _ => None,
        };
        assert(values@[w as int]@ == stored[w as int]);
        match offset {
            Some(off) => {
                if fields[c].is_stringoff() {
                    match Value::read_string_off(bytes, pool, off) {
                        Ok(text) => {
                            values.set(w, text);
                        },
                        Err(err) => {
                            assert(value_at(bytes@, endian, *header, fields@, w as int) is None);
                            return Err(err);
                        },
                    }
                }
            },
            None => {},
        }
        w += 1;
    }
    assert(!unresolved(bytes@, endian, *header, fields@, n)) by {
        assert forall|v: int| 0 <= v < n implies !((#[trigger] value_at(
            bytes@,
            endian,
            *header,
            fields@,
            v,
        )) is None) by {
            assert(value_at(bytes@, endian, *header, fields@, v) == Some(values@[v]@));
        }
    }
    assert(values@.map_values(|v: Value| v@) =~= Seq::new(
        n as nat,
        |v: int| value_at(bytes@, endian, *header, fields@, v).unwrap(),
    )) by {
        assert forall|v: int| 0 <= v < n implies values@.map_values(|v: Value| v@)[v] == value_at(
            bytes@,
            endian,
            *header,
            fields@,
            v,
        ).unwrap() by {
            assert(value_at(bytes@, endian, *header, fields@, v) == Some(values@[v]@));
        }
    }
    Ok(())
}

impl BCSV {
    /// Reads a whole table: the header, the field descriptors, the records,
    /// and then the text of every string value from the pool behind the
    /// records. An integer value is the word as it is stored; the field's
    /// mask and shift apply when its logical value is asked for, as
    /// [`unpack_long`](crate::codec::unpack_long) and its like do.
    ///
    /// Fails with `TruncatedInput` where the bytes end before the header, the
    /// descriptors, the records or a string do; with `MalformedHeader` where
    /// the records do not begin right after the descriptors or a record is
    /// not as large as its fields together; with `InvalidDatatype` on an
    /// unknown datatype tag; and with `FieldDecode` where a field's storage
    /// passes the end of the record.
    pub fn read_options(bytes: &[u8], endian: Endian) -> (r: Result<BCSV, BcsvError>)
        ensures
            match r {
                Ok(table) => decode_error(bytes@, endian) is None && table@ == decoded(
                    bytes@,
                    endian,
                ),
                Err(err) => decode_error(bytes@, endian) == Some(err),
            },
    {
        let header = match read_header(bytes, endian) {
            Some(header) => header,
            None => {
                return Err(BcsvError::TruncatedInput);
            },
        };
        if header.entrydataoff as u64 != 16 + 12 * (header.fieldcount as u64) {
            return Err(BcsvError::MalformedHeader);
        }
        if bytes.len() < header.entrydataoff as usize {
            return Err(BcsvError::TruncatedInput);
        }
        let fields = match read_fields(bytes, endian, header.fieldcount) {
            Ok(fields) => fields,
            Err(err) => {
                return Err(err);
            },
        };
        match sum_widths(&fields) {
            Some(total) => {
                if total != header.entrysize {
                    return Err(BcsvError::MalformedHeader);
                }
            },
            None => {
                return Err(BcsvError::MalformedHeader);
            },
        }
        match find_crossing(&fields, header.entrysize) {
            Some(offset) => {
                return Err(BcsvError::FieldDecode { offset });
            },
            None => {},
        }
        assert(header.entrycount as u64 * header.entrysize as u64 <= 0xFFFF_FFFF * 0xFFFF_FFFF)
            by (nonlinear_arith);
        let pool: u64 = header.entrydataoff as u64 + header.entrycount as u64
            * header.entrysize as u64;
        if (bytes.len() as u64) < pool {
            return Err(BcsvError::TruncatedInput);
        }
        let mut values = match read_records(bytes, endian, &header, &fields) {
            Ok(values) => values,
            Err(err) => {
                return Err(err);
            },
        };
        match resolve_strings(bytes, endian, &header, &fields, pool as usize, &mut values) {
            Ok(_) => {},
            Err(err) => {
                return Err(err);
            },
        }
        Ok(BCSV { header, fields, values })
    }
}

/// Reads a whole table from `buffer`; see [`BCSV::read_options`].
pub fn parsebcsv(buffer: &[u8], endian: Endian) -> (r: Result<BCSV, BcsvError>)
    ensures
        match r {
            Ok(table) => decode_error(buffer@, endian) is None && table@ == decoded(
                buffer@,
                endian,
            ),
            Err(err) => decode_error(buffer@, endian) == Some(err),
        },
{
    BCSV::read_options(buffer, endian)
}

} // verus!
