use crate::bytes::lemma_u16_round_trip;
use crate::bytes::lemma_u32_round_trip;
use crate::bytes::u16_bytes;
use crate::bytes::u32_bytes;
use crate::codec::ValueView;
use crate::writer::encode_error;
use crate::writer::encoded;
use crate::writer::held_as;
use crate::writer::stored_form;
use crate::writer::table_entries;
use crate::writer::table_pool;
use crate::writer::table_strings;
use crate::writer::padding;
use crate::layout::laid_before;
use crate::layout::layout_offset;
use crate::layout::record_size;
use crate::layout::width_before;
use crate::pool::lemma_distinct;
use crate::pool::lemma_entry_resolves;
use crate::pool::offset_in;
use crate::pool::run_at;
use crate::pool::text_of;
use crate::reader::bad_tag;
use crate::reader::cell_position;
use crate::reader::decode_error;
use crate::reader::decoded;
use crate::reader::field_at;
use crate::reader::fields_at;
use crate::reader::header_at;
use crate::reader::pool_start;
use crate::reader::resolved;
use crate::reader::stored_at;
use crate::reader::stored_value;
use crate::reader::tag_at;
use crate::reader::unresolved;
use crate::reader::value_at;
use crate::table::consistent;
use crate::table::field_bytes;
use crate::table::fields_bytes;
use crate::table::header_bytes;
use crate::table::lemma_crossing_none;
use crate::table::overlay;
use crate::table::records_bytes;
use crate::table::row_bytes;
use crate::table::table_bytes;
use crate::table::write_error;
use crate::table::TableView;
use crate::text::index_from;
use crate::text::lemma_index_from_bounds;
use crate::text::lemma_index_from_is;
use crate::types::DataType;
use crate::types::Endian;
use crate::types::Field;
use crate::types::Header;
use vstd::prelude::*;
use vstd::utf8::encode_utf8;

verus! {

/// A field descriptor takes twelve bytes.
pub proof fn lemma_fields_len(fields: Seq<Field>, e: Endian, n: int)
    requires
        0 <= n,
    ensures
        fields_bytes(fields, e, n).len() == 12 * n,
    decreases n,
{
    if n > 0 {
        lemma_fields_len(fields, e, n - 1);
    }
}

/// A record is as long as the header says.
pub proof fn lemma_row_len(t: TableView, e: Endian, row: int, n: int)
    ensures
        row_bytes(t, e, row, n).len() == t.header.entrysize,
    decreases n,
{
    if n > 0 {
        lemma_row_len(t, e, row, n - 1);
    }
}

/// The records take as many bytes as there are rows times the record size.
pub proof fn lemma_records_len(t: TableView, e: Endian, rows: int)
    requires
        0 <= rows,
    ensures
        records_bytes(t, e, rows).len() == rows * t.header.entrysize,
    decreases rows,
{
    let size = t.header.entrysize as int;
    if rows > 0 {
        lemma_records_len(t, e, rows - 1);
        lemma_row_len(t, e, rows - 1, t.fields.len() as int);
        assert(rows * size == (rows - 1) * size + size) by (nonlinear_arith);
        assert(records_bytes(t, e, rows).len() == records_bytes(t, e, rows - 1).len() + size);
    } else {
        assert(rows * size == 0) by (nonlinear_arith)
            requires
                rows == 0,
        ;
    }
}

/// Header, descriptors and records of a table that can be written end where
/// its header says the string pool begins.
pub proof fn lemma_table_len(t: TableView, e: Endian)
    requires
        write_error(t) is None,
    ensures
        table_bytes(t, e).len() == pool_start(t.header),
        header_bytes(t.header, e).len() == 16,
        fields_bytes(t.fields, e, t.fields.len() as int).len() == 12 * t.fields.len(),
{
    lemma_fields_len(t.fields, e, t.fields.len() as int);
    lemma_records_len(t, e, t.header.entrycount as int);
    assert(t.header.entrycount * t.header.entrysize == t.header.entrycount as int
        * t.header.entrysize) by (nonlinear_arith);
}

/// The fill bytes bring any length to a multiple of 32.
proof fn lemma_fill(len: nat)
    ensures
        padding(len).len() == (32 - len % 32) % 32,
        (len + padding(len).len()) % 32 == 0,
        forall|i: int| 0 <= i < padding(len).len() ==> padding(len)[i] == 0x40,
{
}

/// The length of every file is a multiple of 32, and every byte behind the
/// records and the string pool is `0x40`.
pub proof fn lemma_padding(t: TableView, pool: Seq<u8>, e: Endian)
    requires
        write_error(t) is None,
    ensures
        encoded(t, pool, e).len() % 32 == 0,
        encoded(t, pool, e).len() >= pool_start(t.header) + pool.len(),
        forall|i: int|
            pool_start(t.header) + pool.len() <= i < encoded(t, pool, e).len() ==> encoded(
                t,
                pool,
                e,
            )[i] == 0x40,
{
    lemma_table_len(t, e);
    let body = table_bytes(t, e) + pool;
    lemma_fill(body.len());
    let file = encoded(t, pool, e);
    assert(file == body + padding(body.len()));
    assert forall|i: int| pool_start(t.header) + pool.len() <= i < file.len() implies file[i]
        == 0x40 by {
        assert(file[i] == padding(body.len())[i - body.len()]);
    }
}

/// The fields carry the offsets that the layout engine gives them, and a
/// record is no larger than a 16-bit offset can address.
pub open spec fn engine_layout(fields: Seq<Field>) -> bool {
    &&& record_size(fields) <= 0xFFFF
    &&& forall|i: int|
        0 <= i < fields.len() ==> (#[trigger] fields[i]).dataoff == layout_offset(fields, i)
}

/// No two fields share a byte of the record.
pub open spec fn disjoint_fields(fields: Seq<Field>) -> bool {
    forall|i: int, j: int|
        #![trigger fields[i], fields[j]]
        0 <= i < fields.len() && 0 <= j < fields.len() && i != j ==> {
            ||| fields[i].dataoff + fields[i].datatype.spec_size() <= fields[j].dataoff
            ||| fields[j].dataoff + fields[j].datatype.spec_size() <= fields[i].dataoff
        }
}

/// A field that is laid out before another ends before the other begins.
proof fn lemma_before_adds(fields: Seq<Field>, j: int, i: int, n: int)
    requires
        0 <= i < fields.len(),
        0 <= j < fields.len(),
        0 <= n <= fields.len(),
        laid_before(fields, j, i),
    ensures
        width_before(fields, j, n) + (if j < n {
            fields[j].datatype.spec_size() as int
        } else {
            0
        }) <= width_before(fields, i, n),
    decreases n,
{
    if n > 0 {
        lemma_before_adds(fields, j, i, n - 1);
    }
}

/// The layout engine gives no two fields a byte in common.
pub proof fn lemma_engine_layout_disjoint(fields: Seq<Field>)
    requires
        engine_layout(fields),
    ensures
        disjoint_fields(fields),
{
    assert forall|i: int, j: int|
        #![trigger fields[i], fields[j]]
        0 <= i < fields.len() && 0 <= j < fields.len() && i != j implies {
        ||| fields[i].dataoff + fields[i].datatype.spec_size() <= fields[j].dataoff
        ||| fields[j].dataoff + fields[j].datatype.spec_size() <= fields[i].dataoff
    } by {
        if laid_before(fields, j, i) {
            lemma_before_adds(fields, j, i, fields.len() as int);
        } else {
            assert(laid_before(fields, i, j));
            lemma_before_adds(fields, i, j, fields.len() as int);
        }
    }
}

/// A value that can stand in a column takes as many bytes as the column is
/// wide, and reads back from its bytes.
pub proof fn lemma_stored_value_reads_back(
    value: ValueView,
    dt: DataType,
    e: Endian,
    bytes: Seq<u8>,
    at: int,
)
    requires
        value.stored_as(dt),
        0 <= at,
        at + dt.spec_size() <= bytes.len(),
        bytes.subrange(at, at + dt.spec_size()) == value.bytes(e),
    ensures
        value.bytes(e).len() == dt.spec_size(),
        stored_at(bytes, e, dt, at) == value,
{
    match value {
        ValueView::Long(x) => {
            lemma_u32_round_trip(x, e);
        },
        ValueView::Float(x) => {
            lemma_u32_round_trip(x, e);
        },
        ValueView::Short(x) => {
            lemma_u16_round_trip(x, e);
        },
        ValueView::Char(x) => {
            assert(bytes.subrange(at, at + 1)[0] == bytes[at]);
        },
        ValueView::Text(a) => {},
        ValueView::StringOff(_) => {},
    }
}

/// A value that can stand in a column takes as many bytes as the column is
/// wide.
pub proof fn lemma_stored_value_len(value: ValueView, dt: DataType, e: Endian)
    requires
        value.stored_as(dt),
    ensures
        value.bytes(e).len() == dt.spec_size(),
{
}

/// Within a record, the bytes at a field's offset are those of the field's
/// value, where no two fields share a byte.
proof fn lemma_row_cell(t: TableView, e: Endian, row: int, n: int, c: int)
    requires
        write_error(t) is None,
        disjoint_fields(t.fields),
        0 <= row < t.header.entrycount,
        0 <= c < n <= t.fields.len(),
    ensures
        row_bytes(t, e, row, n).subrange(
            t.fields[c].dataoff as int,
            t.fields[c].dataoff + t.fields[c].datatype.spec_size(),
        ) == t.values[row * t.fields.len() + c].bytes(e),
    decreases n,
{
    let nf = t.fields.len() as int;
    let size = t.header.entrysize as int;
    let last = n - 1;
    let earlier = row_bytes(t, e, row, last);
    let patch = t.values[row * nf + last].bytes(e);
    let at = t.fields[last].dataoff as int;
    lemma_row_len(t, e, row, last);
    lemma_crossing_none(t.fields, size, 0, last);
    lemma_crossing_none(t.fields, size, 0, c);
    lemma_cell_in_column(t, row, last);
    lemma_stored_value_len(t.values[row * nf + last], t.fields[last].datatype, e);
    let lo = t.fields[c].dataoff as int;
    let hi = lo + t.fields[c].datatype.spec_size();
    if c == last {
        assert(overlay(earlier, at, patch).subrange(lo, hi) =~= patch);
    } else {
        lemma_row_cell(t, e, row, last, c);
        assert(t.fields[c].dataoff + t.fields[c].datatype.spec_size() <= t.fields[last].dataoff
            || t.fields[last].dataoff + t.fields[last].datatype.spec_size()
            <= t.fields[c].dataoff);
        assert(overlay(earlier, at, patch).subrange(lo, hi) =~= earlier.subrange(lo, hi));
    }
}

/// Value `row * nf + c` of a consistent table can stand in column `c`.
proof fn lemma_cell_in_column(t: TableView, row: int, c: int)
    requires
        consistent(t),
        0 <= row < t.header.entrycount,
        0 <= c < t.fields.len(),
    ensures
        0 <= row * t.fields.len() + c < t.values.len(),
        (row * t.fields.len() + c) % (t.fields.len() as int) == c,
        (row * t.fields.len() + c) / (t.fields.len() as int) == row,
        t.values[row * t.fields.len() + c].stored_as(t.fields[c].datatype),
{
    let nf = t.fields.len() as int;
    crate::reader::lemma_cell_index(row, c, nf, t.header.entrycount as int, 0);
    assert(t.header.entrycount * nf == nf * t.header.entrycount) by (nonlinear_arith);
    let v = row * nf + c;
    assert(t.values[v].stored_as(t.fields[v % nf].datatype));
}

/// The bytes of record `r` within the record block.
proof fn lemma_records_row(t: TableView, e: Endian, rows: int, r: int)
    requires
        0 <= r < rows,
    ensures
        0 <= r * t.header.entrysize,
        r * t.header.entrysize + t.header.entrysize <= records_bytes(t, e, rows).len(),
        records_bytes(t, e, rows).subrange(
            r * t.header.entrysize,
            r * t.header.entrysize + t.header.entrysize,
        ) == row_bytes(t, e, r, t.fields.len() as int),
    decreases rows,
{
    let size = t.header.entrysize as int;
    lemma_records_len(t, e, rows);
    lemma_records_len(t, e, rows - 1);
    lemma_row_len(t, e, rows - 1, t.fields.len() as int);
    assert(0 <= r * size && r * size + size <= rows * size) by (nonlinear_arith)
        requires
            0 <= r < rows,
            0 <= size,
    ;
    let all = records_bytes(t, e, rows);
    let earlier = records_bytes(t, e, rows - 1);
    let last = row_bytes(t, e, rows - 1, t.fields.len() as int);
    assert(all == earlier + last);
    if r == rows - 1 {
        assert(all.subrange(r * size, r * size + size) =~= last);
    } else {
        lemma_records_row(t, e, rows - 1, r);
        assert(all.subrange(r * size, r * size + size) =~= earlier.subrange(
            r * size,
            r * size + size,
        ));
    }
}

/// The bytes of descriptor `k` within the descriptors.
proof fn lemma_fields_field(fields: Seq<Field>, e: Endian, n: int, k: int)
    requires
        0 <= k < n,
    ensures
        fields_bytes(fields, e, n).len() == 12 * n,
        fields_bytes(fields, e, n).subrange(12 * k, 12 * k + 12) == field_bytes(fields[k], e),
    decreases n,
{
    lemma_fields_len(fields, e, n);
    lemma_fields_len(fields, e, n - 1);
    let all = fields_bytes(fields, e, n);
    let earlier = fields_bytes(fields, e, n - 1);
    let last = field_bytes(fields[n - 1], e);
    lemma_u32_round_trip(fields[n - 1].hash, e);
    lemma_u32_round_trip(fields[n - 1].mask, e);
    lemma_u16_round_trip(fields[n - 1].dataoff, e);
    assert(last.len() == 12);
    if k == n - 1 {
        assert(all.subrange(12 * k, 12 * k + 12) =~= last);
    } else {
        lemma_fields_field(fields, e, n - 1, k);
        assert(all.subrange(12 * k, 12 * k + 12) =~= earlier.subrange(12 * k, 12 * k + 12));
    }
}

/// A header reads back from its bytes.
proof fn lemma_header_reads_back(bytes: Seq<u8>, h: Header, e: Endian)
    requires
        bytes.len() >= 16,
        bytes.subrange(0, 16) == header_bytes(h, e),
    ensures
        header_at(bytes, e) == h,
{
    lemma_u32_round_trip(h.entrycount, e);
    lemma_u32_round_trip(h.fieldcount, e);
    lemma_u32_round_trip(h.entrydataoff, e);
    lemma_u32_round_trip(h.entrysize, e);
    let hb = header_bytes(h, e);
    assert(bytes.subrange(0, 4) =~= hb.subrange(0, 4));
    assert(bytes.subrange(4, 8) =~= hb.subrange(4, 8));
    assert(bytes.subrange(8, 12) =~= hb.subrange(8, 12));
    assert(bytes.subrange(12, 16) =~= hb.subrange(12, 16));
    assert(hb.subrange(0, 4) =~= u32_bytes(h.entrycount, e));
    assert(hb.subrange(4, 8) =~= u32_bytes(h.fieldcount, e));
    assert(hb.subrange(8, 12) =~= u32_bytes(h.entrydataoff, e));
    assert(hb.subrange(12, 16) =~= u32_bytes(h.entrysize, e));
}

/// A field reads back from the bytes of its descriptor.
proof fn lemma_field_reads_back(bytes: Seq<u8>, f: Field, e: Endian, k: int)
    requires
        0 <= k,
        16 + 12 * k + 12 <= bytes.len(),
        bytes.subrange(16 + 12 * k, 16 + 12 * k + 12) == field_bytes(f, e),
    ensures
        field_at(bytes, e, k) == f,
        DataType::spec_from_tag(tag_at(bytes, k)) == Some(f.datatype),
{
    lemma_u32_round_trip(f.hash, e);
    lemma_u32_round_trip(f.mask, e);
    lemma_u16_round_trip(f.dataoff, e);
    let at = 16 + 12 * k;
    let fb = field_bytes(f, e);
    let own = bytes.subrange(at, at + 12);
    assert(bytes.subrange(at, at + 4) =~= own.subrange(0, 4));
    assert(bytes.subrange(at + 4, at + 8) =~= own.subrange(4, 8));
    assert(bytes.subrange(at + 8, at + 10) =~= own.subrange(8, 10));
    assert(fb.subrange(0, 4) =~= u32_bytes(f.hash, e));
    assert(fb.subrange(4, 8) =~= u32_bytes(f.mask, e));
    assert(fb.subrange(8, 10) =~= u16_bytes(f.dataoff, e));
    assert(bytes[at + 10] == own[10]);
    assert(bytes[at + 11] == own[11]);
    assert(fb[10] == f.shift);
    assert(fb[11] == f.datatype.spec_tag());
}

/// A zero-terminated run of the pool is found at its place in any bytes
/// that hold the pool.
proof fn lemma_run_in_file(before: Seq<u8>, pool: Seq<u8>, after: Seq<u8>, off: int)
    requires
        run_at(pool, off) is Some,
    ensures
        run_at(before + pool + after, before.len() + off) == run_at(pool, off),
{
    let file = before + pool + after;
    lemma_index_from_bounds(pool, 0u8, off);
    let end = index_from(pool, 0u8, off);
    let start = before.len() + off;
    assert(file[before.len() + end] == pool[end]);
    assert forall|i: int| start <= i < before.len() + end implies file[i] != 0 by {
        assert(file[i] == pool[i - before.len()]);
    }
    lemma_index_from_is(file, 0u8, start, before.len() + end);
    assert(file.subrange(start, before.len() + end) =~= pool.subrange(off, end));
}

/// The table that reading gives back: every value of a string column is
/// the text of the zero-terminated run at its offset in the pool, and every
/// other value is as it was written.
pub open spec fn materialized(t: TableView, pool: Seq<u8>) -> TableView {
    TableView {
        header: t.header,
        fields: t.fields,
        values: Seq::new(
            t.values.len(),
            |v: int|
                resolved(pool, 0, t.fields[v % (t.fields.len() as int)].datatype, t.values[v]).unwrap(),
        ),
    }
}

/// Every offset of a string column points at a zero-terminated run of the
/// pool.
pub open spec fn resolvable(t: TableView, pool: Seq<u8>) -> bool {
    forall|v: int|
        0 <= v < t.values.len() ==> resolved(
            pool,
            0,
            t.fields[v % (t.fields.len() as int)].datatype,
            #[trigger] t.values[v],
        ) is Some
}

/// Value `v` reads back from the file.
proof fn lemma_value_reads_back(t: TableView, pool: Seq<u8>, e: Endian, v: int)
    requires
        write_error(t) is None,
        disjoint_fields(t.fields),
        resolvable(t, pool),
        0 <= v < t.values.len(),
    ensures
        value_at(encoded(t, pool, e), e, t.header, t.fields, v) == resolved(
            pool,
            0,
            t.fields[v % (t.fields.len() as int)].datatype,
            t.values[v],
        ),
{
    let file = encoded(t, pool, e);
    let nf = t.fields.len() as int;
    let rows = t.header.entrycount as int;
    let size = t.header.entrysize as int;
    assert(nf > 0 && rows > 0) by (nonlinear_arith)
        requires
            0 <= v < t.header.fieldcount * t.header.entrycount,
            nf == t.header.fieldcount,
            rows == t.header.entrycount,
    ;
    let row = v / nf;
    let c = v % nf;
    vstd::arithmetic::div_mod::lemma_fundamental_div_mod(v, nf);
    assert(0 <= row < rows) by (nonlinear_arith)
        requires
            0 <= v < nf * rows,
            v == nf * row + c,
            0 <= c < nf,
    ;
    assert(v == row * nf + c) by (nonlinear_arith)
        requires
            v == nf * row + c,
    ;
    lemma_cell_in_column(t, row, c);
    lemma_table_len(t, e);
    lemma_records_row(t, e, rows, row);
    lemma_row_cell(t, e, row, nf, c);
    lemma_crossing_none(t.fields, size, 0, c);
    let f = t.fields[c];
    let width = f.datatype.spec_size() as int;
    let head = header_bytes(t.header, e) + fields_bytes(t.fields, e, nf);
    let records = records_bytes(t, e, rows);
    let tail = pool + padding(table_bytes(t, e).len() + pool.len());
    assert(file =~= head + records + tail);
    assert(head.len() == t.header.entrydataoff);
    let p = cell_position(t.header, f, row);
    assert(p == head.len() + row * size + f.dataoff);
    assert(file.subrange(p, p + width) =~= records.subrange(row * size, row * size + size).subrange(
        f.dataoff as int,
        f.dataoff + width,
    ));
    lemma_stored_value_reads_back(t.values[v], f.datatype, e, file, p);
    assert(stored_value(file, e, t.header, t.fields, v) == t.values[v]);
    match t.values[v] {
        ValueView::Long(off) => {
            if f.datatype == DataType::STRINGOFF {
                assert(resolved(pool, 0, f.datatype, t.values[v]) is Some);
                lemma_run_in_file(
                    table_bytes(t, e),
                    pool,
                    padding(table_bytes(t, e).len() + pool.len()),
                    off as int,
                );
            }
        },
        _ => {},
    }
}

/// A file begins with the header and the descriptors of its table.
proof fn lemma_file_head(t: TableView, pool: Seq<u8>, e: Endian)
    requires
        write_error(t) is None,
    ensures
        encoded(t, pool, e).len() >= pool_start(t.header) + pool.len(),
        pool_start(t.header) >= 16 + 12 * t.fields.len(),
        encoded(t, pool, e).subrange(0, 16) == header_bytes(t.header, e),
        encoded(t, pool, e).subrange(16, 16 + 12 * (t.fields.len() as int)) == fields_bytes(
            t.fields,
            e,
            t.fields.len() as int,
        ),
{
    let file = encoded(t, pool, e);
    let nf = t.fields.len() as int;
    lemma_table_len(t, e);
    lemma_records_len(t, e, t.header.entrycount as int);
    let hb = header_bytes(t.header, e);
    let fb = fields_bytes(t.fields, e, nf);
    let rest = records_bytes(t, e, t.header.entrycount as int) + pool + padding(
        table_bytes(t, e).len() + pool.len(),
    );
    assert(file =~= hb + fb + rest);
    assert(file.subrange(0, 16) =~= hb);
    assert(file.subrange(16, 16 + 12 * nf) =~= fb);
}

/// Field `k` reads back from the file.
proof fn lemma_file_field(t: TableView, pool: Seq<u8>, e: Endian, k: int)
    requires
        write_error(t) is None,
        0 <= k < t.fields.len(),
    ensures
        field_at(encoded(t, pool, e), e, k) == t.fields[k],
        DataType::spec_from_tag(tag_at(encoded(t, pool, e), k)) == Some(t.fields[k].datatype),
{
    let file = encoded(t, pool, e);
    let nf = t.fields.len() as int;
    lemma_file_head(t, pool, e);
    lemma_fields_field(t.fields, e, nf, k);
    let fb = file.subrange(16, 16 + 12 * nf);
    assert(file.subrange(16 + 12 * k, 16 + 12 * k + 12) =~= fb.subrange(12 * k, 12 * k + 12));
    lemma_field_reads_back(file, t.fields[k], e, k);
}

/// Header and fields read back from the file.
proof fn lemma_schema_reads_back(t: TableView, pool: Seq<u8>, e: Endian)
    requires
        write_error(t) is None,
    ensures
        encoded(t, pool, e).len() >= pool_start(t.header) + pool.len(),
        header_at(encoded(t, pool, e), e) == t.header,
        fields_at(encoded(t, pool, e), e, t.fields.len() as int) == t.fields,
        !bad_tag(encoded(t, pool, e), t.fields.len() as int),
{
    let file = encoded(t, pool, e);
    let nf = t.fields.len() as int;
    lemma_file_head(t, pool, e);
    lemma_header_reads_back(file, t.header, e);
    assert forall|k: int| 0 <= k < nf implies field_at(file, e, k) == t.fields[k]
        && DataType::spec_from_tag(#[trigger] tag_at(file, k)) == Some(t.fields[k].datatype) by {
        lemma_file_field(t, pool, e, k);
    }
    assert(fields_at(file, e, nf) =~= t.fields);
}

/// Every value reads back from the file.
proof fn lemma_values_read_back(t: TableView, pool: Seq<u8>, e: Endian)
    requires
        write_error(t) is None,
        disjoint_fields(t.fields),
        resolvable(t, pool),
    ensures
        t.values.len() == t.header.entrycount * t.header.fieldcount,
        !unresolved(
            encoded(t, pool, e),
            e,
            t.header,
            t.fields,
            t.header.entrycount * t.header.fieldcount,
        ),
        Seq::new(
            (t.header.entrycount * t.header.fieldcount) as nat,
            |v: int| value_at(encoded(t, pool, e), e, t.header, t.fields, v).unwrap(),
        ) == materialized(t, pool).values,
{
    let file = encoded(t, pool, e);
    let nf = t.fields.len() as int;
    let h = t.header;
    let n = h.entrycount * h.fieldcount;
    assert(n == t.values.len()) by (nonlinear_arith)
        requires
            n == h.entrycount * h.fieldcount,
            t.values.len() == h.fieldcount * h.entrycount,
    ;
    assert forall|v: int| 0 <= v < n implies (#[trigger] value_at(file, e, h, t.fields, v))
        == resolved(pool, 0, t.fields[v % nf].datatype, t.values[v]) && value_at(
        file,
        e,
        h,
        t.fields,
        v,
    ) is Some by {
        lemma_value_reads_back(t, pool, e, v);
        assert(resolved(pool, 0, t.fields[v % nf].datatype, t.values[v]) is Some);
    }
    assert(Seq::new(n as nat, |v: int| value_at(file, e, h, t.fields, v).unwrap())
        =~= materialized(t, pool).values);
}

/// Reading a written file gives the table back: where no two fields share a
/// byte of the record and every string offset points at a zero-terminated
/// run of the pool, the file of a table that can be written holds that
/// table, with every string resolved.
pub proof fn lemma_read_of_written(t: TableView, pool: Seq<u8>, e: Endian)
    requires
        write_error(t) is None,
        disjoint_fields(t.fields),
        resolvable(t, pool),
    ensures
        decode_error(encoded(t, pool, e), e) is None,
        decoded(encoded(t, pool, e), e) == materialized(t, pool),
{
    lemma_schema_reads_back(t, pool, e);
    lemma_values_read_back(t, pool, e);
}

/// Reading a written file gives the table back, for every table whose
/// fields the layout engine laid out; see [`lemma_read_of_written`].
pub proof fn lemma_round_trip(t: TableView, pool: Seq<u8>, e: Endian)
    requires
        write_error(t) is None,
        engine_layout(t.fields),
        resolvable(t, pool),
    ensures
        decode_error(encoded(t, pool, e), e) is None,
        decoded(encoded(t, pool, e), e) == materialized(t, pool),
{
    lemma_engine_layout_disjoint(t.fields);
    lemma_read_of_written(t, pool, e);
}

/// Every text among the first `n` values is among the table's strings.
proof fn lemma_table_string_listed(t: TableView, n: int, v: int)
    requires
        0 <= v < n <= t.values.len(),
        t.values[v] is StringOff,
    ensures
        table_strings(t, n).contains(encode_utf8(t.values[v]->StringOff_0)),
    decreases n,
{
    let strings = table_strings(t, n);
    let bytes = encode_utf8(t.values[v]->StringOff_0);
    if v == n - 1 {
        assert(strings[strings.len() - 1] == bytes);
    } else {
        lemma_table_string_listed(t, n - 1, v);
        let earlier = table_strings(t, n - 1);
        let j = choose|j: int| 0 <= j < earlier.len() && earlier[j] == bytes;
        assert(strings[j] == bytes);
    }
}

/// Every text of a table is an entry of its pool.
pub proof fn lemma_table_string_pooled(t: TableView, v: int)
    requires
        0 <= v < t.values.len(),
        t.values[v] is StringOff,
    ensures
        table_entries(t).contains(encode_utf8(t.values[v]->StringOff_0)),
{
    let strings = table_strings(t, t.values.len() as int);
    let bytes = encode_utf8(t.values[v]->StringOff_0);
    lemma_table_string_listed(t, t.values.len() as int, v);
    let i = choose|i: int| 0 <= i < strings.len() && strings[i] == bytes;
    lemma_distinct(strings, 0, strings.len() as int);
    assert(table_entries(t).contains(strings[i]));
}

/// No text of the table holds the character of code zero, whose UTF-8 form
/// is the zero byte that ends a string in the pool.
pub open spec fn zero_free(t: TableView) -> bool {
    forall|v: int|
        0 <= v < t.values.len() ==> (#[trigger] t.values[v] matches ValueView::StringOff(s)
            ==> !encode_utf8(s).contains(0u8))
}

/// Value `v` of an encoded table resolves to what it was.
proof fn lemma_stored_value_resolves(t: TableView, v: int)
    requires
        encode_error(t) is None,
        zero_free(t),
        0 <= v < t.values.len(),
    ensures
        resolved(
            table_pool(t),
            0,
            t.fields[v % (t.fields.len() as int)].datatype,
            stored_form(t).values[v],
        ) == Some(t.values[v]),
{
    broadcast use vstd::utf8::encode_utf8_decode_utf8;
    broadcast use vstd::utf8::encode_utf8_valid_utf8;

    let dt = t.fields[v % (t.fields.len() as int)].datatype;
    assert(held_as(t.values[v], dt));
    match t.values[v] {
        ValueView::StringOff(s) => {
            let bytes = encode_utf8(s);
            lemma_table_string_pooled(t, v);
            lemma_entry_resolves(table_entries(t), bytes);
            assert(offset_in(table_entries(t), bytes) <= 0xFFFF_FFFF);
            assert(run_at(table_pool(t), 0 + offset_in(table_entries(t), bytes)) == Some(bytes));
            assert(text_of(bytes) == s);
        },
        _ => {},
    }
}

/// Decoding an encoded table gives the table back: for every table whose
/// fields the layout engine laid out and whose texts hold no character of
/// code zero, the file that the table is encoded as holds that very table.
pub proof fn lemma_table_round_trip(t: TableView, e: Endian)
    requires
        encode_error(t) is None,
        engine_layout(t.fields),
        zero_free(t),
    ensures
        decode_error(encoded(stored_form(t), table_pool(t), e), e) is None,
        decoded(encoded(stored_form(t), table_pool(t), e), e) == t,
{
    let stored = stored_form(t);
    let pool = table_pool(t);
    assert forall|v: int| 0 <= v < stored.values.len() implies resolved(
        pool,
        0,
        stored.fields[v % (stored.fields.len() as int)].datatype,
        #[trigger] stored.values[v],
    ) == Some(t.values[v]) by {
        lemma_stored_value_resolves(t, v);
    }
    lemma_round_trip(stored, pool, e);
    assert(materialized(stored, pool).values =~= t.values);
}

} // verus!
