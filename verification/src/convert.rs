use crate::codec::unpack_char;
use crate::codec::unpack_long;
use crate::codec::unpack_short;
use crate::codec::unpacked_char;
use crate::codec::unpacked_long;
use crate::codec::unpacked_short;
use crate::codec::Value;
use crate::codec::ValueView;
use crate::csv::bad_cell;
use crate::csv::cell_values;
use crate::csv::interned;
use crate::csv::pool_entries;
use crate::csv::CsvView;
use crate::csv::CSV;
use crate::pool::joined;
use crate::pool::lossy_string;
use crate::pool::text_of;
use crate::table::append_bytes;
use crate::table::table_bytes;
use crate::table::write_error;
use crate::writer::createbuffer;
use crate::writer::encoded;
use crate::table::TableView;
use crate::table::BCSV;
use crate::text::decimal;
use crate::text::format_hex;
use crate::text::format_u64;
use crate::text::hexadecimal;
use crate::types::BcsvError;
use crate::types::Endian;
use crate::types::Field;
use std::collections::HashMap;
use vstd::prelude::*;
use vstd::slice::slice_subrange;
use vstd::utf8::encode_utf8;

verus! {

broadcast use vstd::std_specs::hash::group_hash_axioms;

/// The fields with `mask` as the mask of each.
pub open spec fn with_mask(fields: Seq<Field>, mask: u32) -> Seq<Field> {
    Seq::new(
        fields.len(),
        |k: int|
            Field {
                hash: fields[k].hash,
                mask: mask,
                dataoff: fields[k].dataoff,
                shift: fields[k].shift,
                datatype: fields[k].datatype,
            },
    )
}

/// The binary table that a text table becomes: its strings interned, its
/// cells read as values, and `mask` as the mask of every field.
pub open spec fn text_table(csv: CsvView, mask: u32, floats: Seq<Option<u32>>) -> TableView {
    TableView {
        header: csv.header,
        fields: with_mask(csv.fields, mask),
        values: cell_values(interned(csv).cells, csv.fields, floats),
    }
}

/// Why a text table becomes no binary table, if it does not.
pub open spec fn convert_error(csv: CsvView, mask: u32, floats: Seq<Option<u32>>) -> Option<
    BcsvError,
> {
    if bad_cell(interned(csv).cells, csv.fields, floats, csv.cells.len() as int) {
        Some(BcsvError::NumericParse)
    } else {
        write_error(text_table(csv, mask, floats))
    }
}

/// Encodes a text table as a whole file in byte order `endian`, with `mask`
/// as the mask of every field. `floats` holds, at the index of each
/// floating-point cell, the bit pattern that the caller read from it.
///
/// Fails with `NumericParse` where a cell is no value of its column's
/// datatype, and as [`BCSV::write_options`] does where the table cannot be
/// written.
pub fn convert_to_bcsv(csv: CSV, endian: Endian, mask: u32, floats: &Vec<Option<u32>>) -> (r:
    Result<Vec<u8>, BcsvError>)
    ensures
        match r {
            Ok(out) => convert_error(csv@, mask, floats@) is None && out@ == encoded(
                text_table(csv@, mask, floats@),
                joined(pool_entries(csv@), pool_entries(csv@).len() as int),
                endian,
            ) && out@.len() % 32 == 0,
            Err(err) => convert_error(csv@, mask, floats@) == Some(err),
        },
{
    let mut csv = csv;
    let ghost before = csv@;
    let mut bcsv = csv.generate_bcsv();
    let table = csv.create_stringtable();
    match csv.create_values(&mut bcsv, floats) {
        Ok(_) => {},
        Err(err) => {
            return Err(err);
        },
    }
    let ghost unmasked = bcsv.fields@;
    let mut k: usize = 0;
    while k < bcsv.fields.len()
        invariant
            k <= bcsv.fields@.len(),
            bcsv.fields@.len() == unmasked.len(),
            bcsv.header == before.header,
            bcsv@.values == cell_values(interned(before).cells, before.fields, floats@),
            forall|j: int| 0 <= j < k ==> #[trigger] bcsv.fields@[j] == with_mask(unmasked, mask)[j],
            forall|j: int| k <= j < unmasked.len() ==> #[trigger] bcsv.fields@[j] == unmasked[j],
        decreases bcsv.fields@.len() - k,
    {
        let mut field = bcsv.fields[k];
        field.mask = mask;
        bcsv.fields[k] = field;
        k += 1;
    }
    assert(bcsv.fields@ =~= with_mask(before.fields, mask));
    assert(bcsv@ == text_table(before, mask, floats@));
    let records = match bcsv.write_options(endian) {
        Ok(records) => records,
        Err(err) => {
            return Err(err);
        },
    };
    Ok(createbuffer(records, table.as_slice()))
}

/// The label of a column: its name from the lookup table where the table
/// knows its hash, and `0x` with the hash in lower-case hexadecimal where
/// it does not.
pub open spec fn column_name(names: Map<u32, String>, hash: u32) -> Seq<u8> {
    if names.contains_key(hash) {
        encode_utf8(names[hash]@)
    } else {
        seq![48u8, 120u8] + hexadecimal(hash as nat)
    }
}

/// A column's entry in the header line: its name, a colon, and its datatype
/// tag in decimal.
pub open spec fn column_label(names: Map<u32, String>, f: Field) -> Seq<u8> {
    column_name(names, f.hash) + seq![58u8] + decimal(f.datatype.spec_tag() as nat)
}

/// The bytes without the zero bytes at their end.
pub open spec fn trimmed(s: Seq<u8>) -> Seq<u8>
    decreases s.len(),
{
    if s.len() > 0 && s.last() == 0 {
        trimmed(s.drop_last())
    } else {
        s
    }
}

/// The text that the caller wrote of the floating-point value `v`; empty
/// where it wrote none.
pub open spec fn float_text(floats: Seq<String>, v: int) -> Seq<u8> {
    if 0 <= v < floats.len() {
        encode_utf8(floats[v]@)
    } else {
        Seq::empty()
    }
}

/// The text of one value in a column with field `f`: an integer as the
/// unsigned decimal numeral of its logical value under the field's mask and
/// shift, a fixed string as the lossy decoding of its bytes without the
/// zero bytes at their end, a string as it is, and a floating-point number
/// as the text `float`.
pub open spec fn rendered(value: ValueView, f: Field, float: Seq<u8>) -> Seq<u8> {
    match value {
        ValueView::Long(l) => decimal(unpacked_long(f, l) as nat),
        ValueView::Text(s) => encode_utf8(text_of(trimmed(s))),
        ValueView::Float(_) => float,
        ValueView::Short(x) => decimal(unpacked_short(f, x) as nat),
        ValueView::Char(c) => decimal(unpacked_char(f, c) as nat),
        ValueView::StringOff(st) => encode_utf8(st),
    }
}

/// What follows entry `v` of a line of `columns` entries: a line feed
/// behind the last entry of a line, a comma behind any other.
pub open spec fn terminator(columns: int, v: int) -> u8 {
    if v % columns == columns - 1 {
        10u8
    } else {
        44u8
    }
}

/// The header line down to its `n`th label.
pub open spec fn labels_text(names: Map<u32, String>, fields: Seq<Field>, n: int) -> Seq<u8>
    decreases n,
{
    if n <= 0 {
        Seq::empty()
    } else {
        labels_text(names, fields, n - 1) + column_label(names, fields[n - 1]) + seq![
            terminator(fields.len() as int, n - 1),
        ]
    }
}

/// The data lines down to value `n`, counted row by row.
pub open spec fn values_text(t: TableView, floats: Seq<String>, n: int) -> Seq<u8>
    decreases n,
{
    if n <= 0 {
        Seq::empty()
    } else {
        values_text(t, floats, n - 1) + rendered(
            t.values[n - 1],
            t.fields[(n - 1) % (t.fields.len() as int)],
            float_text(floats, n - 1),
        ) + seq![terminator(t.fields.len() as int, n - 1)]
    }
}

/// The text of a table: the header line and one line for every row.
pub open spec fn csv_text(t: TableView, names: Map<u32, String>, floats: Seq<String>) -> Seq<u8> {
    labels_text(names, t.fields, t.fields.len() as int) + values_text(
        t,
        floats,
        t.values.len() as int,
    )
}

/// The values of the table do not fill whole rows.
pub open spec fn broken_rows(t: TableView) -> bool {
    if t.fields.len() == 0 {
        t.values.len() > 0
    } else {
        t.values.len() % t.fields.len() != 0
    }
}

/// The zero bytes at the end of `s` begin at the position returned.
fn trimmed_len(s: &[u8; 32]) -> (n: usize)
    ensures
        n <= 32,
        trimmed(s@) == s@.take(n as int),
{
    let mut n: usize = 32;
    assert(s@.take(32) =~= s@);
    while n > 0 && s[n - 1] == 0
        invariant
            n <= 32,
            trimmed(s@) == trimmed(s@.take(n as int)),
        decreases n,
    {
        assert(s@.take(n as int).drop_last() =~= s@.take(n - 1));
        n -= 1;
    }
    n
}

/// Writes one value as text.
pub fn render(value: &Value, field: &Field, float: &[u8]) -> (out: Vec<u8>)
    ensures
        out@ == rendered(value@, *field, float@),
{
    match value {
        Value::LONG(l) => format_u64(unpack_long(field, *l) as u64),
        Value::STRING(s) => {
            let n = trimmed_len(s);
            let text = lossy_string(slice_subrange(s.as_slice(), 0, n));
            let mut out: Vec<u8> = Vec::new();
            append_bytes(&mut out, text.as_str().as_bytes());
            assert(out@ =~= encode_utf8(text@));
            out
        },
        Value::FLOAT(_) => {
            let mut out: Vec<u8> = Vec::new();
            append_bytes(&mut out, float);
            assert(out@ =~= float@);
            out
        },
        Value::SHORT(x) => format_u64(unpack_short(field, *x) as u64),
        Value::CHAR(c) => format_u64(unpack_char(field, *c) as u64),
        Value::STRINGOFF(st) => {
            let mut out: Vec<u8> = Vec::new();
            append_bytes(&mut out, st.as_str().as_bytes());
            assert(out@ =~= encode_utf8(st@));
            out
        },
    }
}

/// Writes a table as text: a header line with one label for every field,
/// and one line for every row. `hashes` names the fields whose hash it
/// knows. `floats` holds, at the index of each floating-point value, the
/// text that the caller wrote of it.
///
/// Fails with `MalformedHeader` where the values do not fill whole rows.
pub fn convert_to_csv(bcsv: &BCSV, hashes: &HashMap<u32, String>, floats: &Vec<String>) -> (r:
    Result<Vec<u8>, BcsvError>)
    ensures
        match r {
            Ok(text) => !broken_rows(bcsv@) && text@ == csv_text(bcsv@, hashes@, floats@),
            Err(err) => broken_rows(bcsv@) && err == BcsvError::MalformedHeader,
        },
{
    let columns = bcsv.fields.len();
    let total = bcsv.values.len();
    if columns == 0 {
        if total > 0 {
            return Err(BcsvError::MalformedHeader);
        }
        let text: Vec<u8> = Vec::new();
        assert(text@ =~= csv_text(bcsv@, hashes@, floats@));
        return Ok(text);
    }
    if total % columns != 0 {
        return Err(BcsvError::MalformedHeader);
    }
    let mut text: Vec<u8> = Vec::new();
    let mut k: usize = 0;
    while k < columns
        invariant
            k <= columns,
            columns == bcsv.fields@.len(),
            text@ == labels_text(hashes@, bcsv@.fields, k as int),
        decreases columns - k,
    {
        let field = &bcsv.fields[k];
        let ghost before = text@;
        match hashes.get(&field.hash) {
            Some(name) => {
                append_bytes(&mut text, name.as_str().as_bytes());
            },
            None => {
                text.push(48);
                text.push(120);
                append_bytes(&mut text, format_hex(field.hash).as_slice());
            },
        }
        assert(text@ =~= before + column_name(hashes@, field.hash));
        text.push(58);
        append_bytes(&mut text, format_u64(field.datatype.tag() as u64).as_slice());
        text.push(if k == columns - 1 {
            10
        } else {
            44
        });
        proof {
            vstd::arithmetic::div_mod::lemma_small_mod(k as nat, columns as nat);
        }
        assert(text@ =~= before + column_label(hashes@, *field) + seq![
            terminator(columns as int, k as int),
        ]);
        k += 1;
    }
    let ghost head = text@;
    let empty: Vec<u8> = Vec::new();
    let mut v: usize = 0;
    while v < total
        invariant
            v <= total,
            0 < columns == bcsv.fields@.len(),
            total == bcsv.values@.len(),
            empty@.len() == 0,
            text@ == head + values_text(bcsv@, floats@, v as int),
        decreases total - v,
    {
        let field = &bcsv.fields[v % columns];
        let ghost before = text@;
        let float: &[u8] = if v < floats.len() {
            floats[v].as_str().as_bytes()
        } else {
            empty.as_slice()
        };
        assert(float@ =~= float_text(floats@, v as int));
        assert(bcsv@.values[v as int] == bcsv.values@[v as int]@);
        let cell = render(&bcsv.values[v], field, float);
        append_bytes(&mut text, cell.as_slice());
        text.push(if v % columns == columns - 1 {
            10
        } else {
            44
        });
        assert(text@ =~= before + rendered(
            bcsv@.values[v as int],
            bcsv@.fields[v as int % (columns as int)],
            float_text(floats@, v as int),
        ) + seq![terminator(columns as int, v as int)]);
        v += 1;
    }
    Ok(text)
}

} // verus!
