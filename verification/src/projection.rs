use crate::codec::lemma_full_mask_is_identity;
use crate::codec::ValueView;
use crate::convert::column_label;
use crate::convert::convert_error;
use crate::convert::csv_text;
use crate::writer::encoded;
use crate::convert::float_text;
use crate::convert::labels_text;
use crate::convert::rendered;
use crate::convert::terminator;
use crate::convert::text_table;
use crate::convert::trimmed;
use crate::convert::values_text;
use crate::convert::with_mask;
use crate::csv::bad_cell;
use crate::csv::cell_value;
use crate::csv::csv_error;
use crate::csv::csv_of;
use crate::csv::data_lines;
use crate::csv::declared_field;
use crate::csv::declared_fields;
use crate::csv::float_at;
use crate::csv::grid_cells;
use crate::csv::header_line;
use crate::csv::interned;
use crate::csv::is_string_cell;
use crate::csv::padded;
use crate::csv::pool_entries;
use crate::csv::ragged;
use crate::csv::string_cells;
use crate::csv::value_of_cell;
use crate::csv::CsvView;
use crate::laws::engine_layout;
use crate::laws::lemma_round_trip;
use crate::laws::materialized;
use crate::laws::resolvable;
use crate::layout::laid_out;
use crate::layout::layout_offset;
use crate::layout::record_size;
use crate::layout::width_before;
use crate::layout::width_upto;
use crate::pool::joined;
use crate::pool::lemma_distinct;
use crate::pool::lemma_entry_resolves;
use crate::pool::offset_in;
use crate::pool::run_at;
use crate::reader::decode_error;
use crate::reader::decoded;
use crate::reader::resolved;
use crate::table::crossing;
use crate::table::TableView;
use crate::types::BcsvError;
use crate::text::decimal;
use crate::text::index_from;
use crate::text::lemma_decimal_parses;
use crate::text::lemma_join_split;
use crate::text::lemma_line_text_joins;
use crate::text::lemma_lines_of_split;
use crate::text::lemma_lines_text_prefix;
use crate::text::lemma_lines_text_prepend;
use crate::text::lemma_without_cr_keeps;
use crate::text::line_text;
use crate::text::lines_text;
use crate::text::parsed;
use crate::text::split;
use crate::text::with_final_line_feed;
use crate::text::without_cr;
use crate::types::DataType;
use crate::types::Endian;
use crate::types::Field;
use vstd::prelude::*;
use vstd::utf8::valid_utf8;

verus! {

/// The first `n` cells of a grid of `columns` columns, each followed by a
/// comma, but the last cell of every row by a line feed.
pub open spec fn grid_text(cells: Seq<Seq<u8>>, columns: int, n: int) -> Seq<u8>
    decreases n,
{
    if n <= 0 {
        Seq::empty()
    } else {
        grid_text(cells, columns, n - 1) + cells[n - 1] + seq![terminator(columns, n - 1)]
    }
}

/// A grid written cell by cell is its lines, each followed by a line feed.
pub proof fn lemma_grid_text_is_lines(lines: Seq<Seq<u8>>, columns: int, r: int, c: int)
    requires
        columns >= 1,
        0 <= r <= lines.len(),
        0 <= c <= columns,
        r == lines.len() ==> c == 0,
        !ragged(lines, columns, lines.len() as int),
    ensures
        grid_text(grid_cells(lines, columns), columns, r * columns + c) == lines_text(lines, r)
            + line_text(if r < lines.len() {
            split(lines[r], 44u8)
        } else {
            Seq::empty()
        }, c),
    decreases r, c,
{
    let cells = grid_cells(lines, columns);
    if c > 0 {
        let row = split(lines[r], 44u8);
        assert(row.len() == columns);
        lemma_grid_text_is_lines(lines, columns, r, c - 1);
        let v = r * columns + c - 1;
        vstd::arithmetic::div_mod::lemma_fundamental_div_mod_converse(v, columns, r, c - 1);
        assert(0 <= v < lines.len() * columns) by (nonlinear_arith)
            requires
                0 <= r < lines.len(),
                0 <= c - 1 < columns,
                v == r * columns + c - 1,
        ;
        assert(cells[v] == row[c - 1]);
        assert(grid_text(cells, columns, v + 1) == grid_text(cells, columns, v) + cells[v] + seq![
            terminator(columns, v),
        ]);
        assert(grid_text(cells, columns, r * columns + c) =~= lines_text(lines, r) + line_text(
            row,
            c,
        ));
    } else if r > 0 {
        let above = split(lines[r - 1], 44u8);
        assert(above.len() == columns);
        lemma_grid_text_is_lines(lines, columns, r - 1, columns);
        lemma_line_text_joins(above, columns);
        lemma_join_split(lines[r - 1], 44u8, 0);
        assert(above.take(columns) =~= above);
        assert(lines[r - 1].subrange(0, lines[r - 1].len() as int) =~= lines[r - 1]);
        assert((r - 1) * columns + columns == r * columns) by (nonlinear_arith);
        assert(line_text(if r < lines.len() {
            split(lines[r], 44u8)
        } else {
            Seq::empty()
        }, 0) =~= Seq::<u8>::empty());
        assert(grid_text(cells, columns, r * columns) =~= lines_text(lines, r));
    } else {
        assert(r * columns + c == 0) by (nonlinear_arith)
            requires
                r == 0,
                c == 0,
        ;
        assert(line_text(if r < lines.len() {
            split(lines[r], 44u8)
        } else {
            Seq::empty()
        }, 0) =~= Seq::<u8>::empty());
        assert(grid_text(cells, columns, 0) =~= lines_text(lines, 0) + Seq::<u8>::empty());
    }
}

/// A text is its header line and its data lines, each followed by a line
/// feed, up to a line feed at the end of the text.
pub proof fn lemma_text_is_its_lines(text: Seq<u8>)
    ensures
        header_line(text) + seq![10u8] + lines_text(data_lines(text), data_lines(text).len() as int)
            == with_final_line_feed(text),
{
    let parts = split(text, 10u8);
    let head = header_line(text);
    let rest = parts.skip(1);
    lemma_lines_of_split(text, 0);
    lemma_join_split(text, 10u8, 0);
    assert(text.subrange(0, text.len() as int) =~= text);
    assert(parts =~= seq![head] + rest);
    lemma_lines_text_prepend(head, rest, rest.len() as int);
    let whole = lines_text(parts, parts.len() as int);
    assert(whole == head + seq![10u8] + lines_text(rest, rest.len() as int));
    assert(whole == text + seq![10u8]);
    if rest.len() > 0 && rest.last().len() == 0 {
        let lines = rest.drop_last();
        lemma_lines_text_prefix(rest, lines, lines.len() as int);
        assert(parts.last() == rest.last());
        assert(lines_text(rest, rest.len() as int) =~= lines_text(lines, lines.len() as int)
            + seq![10u8]);
        let left = head + seq![10u8] + lines_text(lines, lines.len() as int);
        assert(left + seq![10u8] =~= whole);
        assert(left =~= text) by {
            assert(left.len() == text.len());
            assert forall|i: int| 0 <= i < left.len() implies left[i] == text[i] by {
                assert((left + seq![10u8])[i] == (text + seq![10u8])[i]);
            }
        }
        if text.len() == 0 {
            assert(index_from(text, 10u8, 0) == 0);
            assert(parts.len() == 1);
        }
    } else {
        if text.len() > 0 && text.last() == 10 {
            assert(parts.last().len() == 0);
            if rest.len() > 0 {
                assert(parts.last() == rest.last());
            } else {
                assert(parts.len() == 1);
                assert(parts.last() == head);
                assert(lines_text(rest, 0) =~= Seq::<u8>::empty());
                assert(whole.len() == 1);
            }
        }
        assert(text.push(10u8) =~= text + seq![10u8]);
    }
}

/// The bytes of a short text filled up with zero bytes, without the zero
/// bytes at their end, are the text, where the text does not end in a zero
/// byte itself.
pub proof fn lemma_trimmed_padded(cell: Seq<u8>)
    requires
        cell.len() <= 32,
        cell.len() > 0 ==> cell.last() != 0,
    ensures
        trimmed(padded(cell)) == cell,
{
    lemma_trimmed_zeros(cell, (32 - cell.len()) as nat);
    assert(padded(cell) =~= cell + Seq::new((32 - cell.len()) as nat, |i: int| 0u8));
}

/// Zero bytes behind a text that does not end in one are all that is
/// trimmed.
proof fn lemma_trimmed_zeros(cell: Seq<u8>, k: nat)
    requires
        cell.len() > 0 ==> cell.last() != 0,
    ensures
        trimmed(cell + Seq::new(k, |i: int| 0u8)) == cell,
    decreases k,
{
    let all = cell + Seq::new(k, |i: int| 0u8);
    if k == 0 {
        assert(all =~= cell);
    } else {
        lemma_trimmed_zeros(cell, (k - 1) as nat);
        assert(all.last() == 0);
        assert(all.drop_last() =~= cell + Seq::new((k - 1) as nat, |i: int| 0u8));
    }
}

/// The cell is the text that its own value is written as: a numeral without
/// sign or leading zeros for an integer column; valid UTF-8 of at most 32
/// bytes that does not end in a zero byte for a fixed string; valid UTF-8
/// without a zero byte for a string.
pub open spec fn canonical_cell(cell: Seq<u8>, dt: DataType) -> bool {
    match dt {
        DataType::LONG | DataType::LONG2 => parsed(cell, 0xFFFF_FFFF) is Some && decimal(
            parsed(cell, 0xFFFF_FFFF).unwrap(),
        ) == cell,
        DataType::SHORT => parsed(cell, 0xFFFF) is Some && decimal(parsed(cell, 0xFFFF).unwrap())
            == cell,
        DataType::CHAR => parsed(cell, 0xFF) is Some && decimal(parsed(cell, 0xFF).unwrap())
            == cell,
        DataType::STRING => cell.len() <= 32 && valid_utf8(cell) && (cell.len() > 0
            ==> cell.last() != 0),
        DataType::STRINGOFF => valid_utf8(cell) && !cell.contains(0u8),
        DataType::FLOAT => true,
    }
}

/// Every cell of a string column among the first `n` cells is among the
/// string cells.
proof fn lemma_string_cell_listed(csv: CsvView, n: int, v: int)
    requires
        0 <= v < n <= csv.cells.len(),
        is_string_cell(csv.fields, v),
    ensures
        string_cells(csv, n).contains(csv.cells[v]),
    decreases n,
{
    let strings = string_cells(csv, n);
    if v == n - 1 {
        assert(strings[strings.len() - 1] == csv.cells[v]);
    } else {
        lemma_string_cell_listed(csv, n - 1, v);
        let earlier = string_cells(csv, n - 1);
        let j = choose|j: int| 0 <= j < earlier.len() && earlier[j] == csv.cells[v];
        assert(strings[j] == csv.cells[v]);
    }
}

/// Every cell of a string column is an entry of the pool.
pub proof fn lemma_string_cell_pooled(csv: CsvView, v: int)
    requires
        0 <= v < csv.cells.len(),
        is_string_cell(csv.fields, v),
    ensures
        pool_entries(csv).contains(csv.cells[v]),
{
    let strings = string_cells(csv, csv.cells.len() as int);
    lemma_string_cell_listed(csv, csv.cells.len() as int, v);
    let i = choose|i: int| 0 <= i < strings.len() && strings[i] == csv.cells[v];
    lemma_distinct(strings, 0, strings.len() as int);
    assert(pool_entries(csv).contains(strings[i]));
}

/// A value of a text table is found again as the text of its cell: once
/// its string is resolved from the pool, it is written as the cell it was
/// read from, where the cell is canonical.
proof fn lemma_cell_reads_back(
    csv: CsvView,
    floats_in: Seq<Option<u32>>,
    floats_out: Seq<String>,
    v: int,
)
    requires
        0 <= v < csv.cells.len(),
        csv.fields.len() > 0,
        forall|k: int| 0 <= k < csv.fields.len() ==> (#[trigger] csv.fields[k]).shift == 0,
        !bad_cell(interned(csv).cells, csv.fields, floats_in, csv.cells.len() as int),
        canonical_cell(csv.cells[v], csv.fields[v % (csv.fields.len() as int)].datatype),
        csv.fields[v % (csv.fields.len() as int)].datatype == DataType::FLOAT ==> float_text(
            floats_out,
            v,
        ) == csv.cells[v],
    ensures
        ({
            let t = text_table(csv, 0xFFFF_FFFF, floats_in);
            let pool = joined(pool_entries(csv), pool_entries(csv).len() as int);
            let c = v % (csv.fields.len() as int);
            let found = resolved(pool, 0, t.fields[c].datatype, t.values[v]);
            &&& found is Some
            &&& rendered(found.unwrap(), t.fields[c], float_text(floats_out, v)) == csv.cells[v]
        }),
{
    broadcast use vstd::utf8::decode_utf8_encode_utf8;

    let t = text_table(csv, 0xFFFF_FFFF, floats_in);
    let entries = pool_entries(csv);
    let pool = joined(entries, entries.len() as int);
    let nf = csv.fields.len() as int;
    let c = v % nf;
    let f = t.fields[c];
    let dt = csv.fields[c].datatype;
    let cell = csv.cells[v];
    let held = interned(csv).cells[v];
    assert(f.mask == 0xFFFF_FFFF && f.shift == 0 && f.datatype == dt);
    assert(value_of_cell(interned(csv).cells, csv.fields, floats_in, v) is Some);
    assert(t.values[v] == cell_value(held, dt, float_at(floats_in, v)).unwrap());
    lemma_full_mask_is_identity(f, 0, 0, 0);
    match dt {
        DataType::STRINGOFF => {
            let off = offset_in(entries, cell);
            lemma_string_cell_pooled(csv, v);
            lemma_entry_resolves(entries, cell);
            lemma_decimal_parses(off as nat);
            assert(held == decimal(off as nat));
            assert(t.values[v] == ValueView::Long(off as u32));
            assert(run_at(pool, 0 + off) == Some(cell));
        },
        DataType::STRING => {
            lemma_trimmed_padded(cell);
        },
        DataType::LONG | DataType::LONG2 => {
            let n = parsed(cell, 0xFFFF_FFFF).unwrap();
            lemma_full_mask_is_identity(f, n as u32, 0, 0);
        },
        DataType::SHORT => {
            let n = parsed(cell, 0xFFFF).unwrap();
            lemma_full_mask_is_identity(f, 0, n as u16, 0);
        },
        DataType::CHAR => {
            let n = parsed(cell, 0xFF).unwrap();
            lemma_full_mask_is_identity(f, 0, 0, n as u8);
        },
        DataType::FLOAT => {},
    }
}

/// The data lines of a table are the grid of the texts of its values.
proof fn lemma_values_text_is_grid(
    t: TableView,
    floats: Seq<String>,
    cells: Seq<Seq<u8>>,
    n: int,
)
    requires
        0 <= n <= t.values.len(),
        n <= cells.len(),
        forall|v: int|
            0 <= v < n ==> rendered(
                t.values[v],
                t.fields[v % (t.fields.len() as int)],
                float_text(floats, v),
            ) == #[trigger] cells[v],
    ensures
        values_text(t, floats, n) == grid_text(cells, t.fields.len() as int, n),
    decreases n,
{
    if n > 0 {
        lemma_values_text_is_grid(t, floats, cells, n - 1);
        assert(rendered(
            t.values[n - 1],
            t.fields[(n - 1) % (t.fields.len() as int)],
            float_text(floats, n - 1),
        ) == cells[n - 1]);
    }
}

/// The header line of a table is the line of the labels of its fields.
proof fn lemma_labels_text_is_line(
    names: Map<u32, String>,
    fields: Seq<Field>,
    labels: Seq<Seq<u8>>,
    n: int,
)
    requires
        0 <= n <= fields.len(),
        labels.len() == fields.len(),
        forall|k: int| 0 <= k < n ==> column_label(names, fields[k]) == #[trigger] labels[k],
    ensures
        labels_text(names, fields, n) == line_text(labels, n),
    decreases n,
{
    if n > 0 {
        lemma_labels_text_is_line(names, fields, labels, n - 1);
        vstd::arithmetic::div_mod::lemma_small_mod((n - 1) as nat, fields.len());
        assert(column_label(names, fields[n - 1]) == labels[n - 1]);
    }
}

/// Offsets and record size follow from hashes and datatypes alone.
proof fn lemma_layout_by_declaration(a: Seq<Field>, b: Seq<Field>, i: int, n: int)
    requires
        a.len() == b.len(),
        0 <= i < a.len(),
        0 <= n <= a.len(),
        forall|k: int|
            0 <= k < a.len() ==> (#[trigger] a[k]).hash == b[k].hash && a[k].datatype
                == b[k].datatype,
    ensures
        width_before(a, i, n) == width_before(b, i, n),
        width_upto(a, n) == width_upto(b, n),
    decreases n,
{
    if n > 0 {
        lemma_layout_by_declaration(a, b, i, n - 1);
        assert(a[n - 1].hash == b[n - 1].hash);
        assert(a[i].hash == b[i].hash);
    }
}

/// What the layout engine lays out carries the engine's layout, whatever
/// the mask.
pub proof fn lemma_laid_out_is_engine_layout(declared: Seq<Field>, mask: u32)
    requires
        record_size(declared) <= 0xFFFF,
    ensures
        engine_layout(with_mask(laid_out(declared), mask)),
        record_size(with_mask(laid_out(declared), mask)) == record_size(declared),
{
    let fields = with_mask(laid_out(declared), mask);
    assert forall|i: int| 0 <= i < fields.len() implies (#[trigger] fields[i]).dataoff
        == layout_offset(fields, i) by {
        lemma_layout_by_declaration(fields, declared, i, declared.len() as int);
        crate::layout::lemma_offset_within_record(declared, i);
    }
    if declared.len() > 0 {
        lemma_layout_by_declaration(fields, declared, 0, declared.len() as int);
    }
}

/// The label is the text that its own field is written as.
pub open spec fn canonical_label(label: Seq<u8>, names: Map<u32, String>) -> bool {
    declared_field(label) is Some && column_label(names, declared_field(label).unwrap()) == label
}

/// The text is the one that its own table is written as: no carriage
/// returns, every label and every cell canonical, and for every
/// floating-point cell the bit pattern and the text from the caller.
pub open spec fn canonical_text(
    text: Seq<u8>,
    names: Map<u32, String>,
    floats_in: Seq<Option<u32>>,
    floats_out: Seq<String>,
) -> bool {
    let labels = split(header_line(text), 44u8);
    let csv = csv_of(text);
    &&& !text.contains(13u8)
    &&& forall|k: int| 0 <= k < labels.len() ==> canonical_label(#[trigger] labels[k], names)
    &&& forall|v: int|
        0 <= v < csv.cells.len() ==> canonical_cell(
            #[trigger] csv.cells[v],
            csv.fields[v % (csv.fields.len() as int)].datatype,
        )
    &&& forall|v: int|
        0 <= v < csv.cells.len() && csv.fields[v % (csv.fields.len() as int)].datatype
            == DataType::FLOAT ==> float_at(floats_in, v) is Some && float_text(floats_out, v)
            == #[trigger] csv.cells[v]
}

/// Writing the table of a text gives the text back: a canonical text that
/// becomes a binary file is, up to a line feed at its end, the text that
/// the table read from that file is written as.
pub proof fn lemma_text_round_trip(
    text: Seq<u8>,
    names: Map<u32, String>,
    floats_in: Seq<Option<u32>>,
    floats_out: Seq<String>,
    e: Endian,
)
    requires
        csv_error(text) is None,
        convert_error(csv_of(text), 0xFFFF_FFFF, floats_in) is None,
        canonical_text(text, names, floats_in, floats_out),
    ensures
        ({
            let csv = csv_of(text);
            let file = encoded(
                text_table(csv, 0xFFFF_FFFF, floats_in),
                joined(pool_entries(csv), pool_entries(csv).len() as int),
                e,
            );
            &&& decode_error(file, e) is None
            &&& csv_text(decoded(file, e), names, floats_out) == with_final_line_feed(text)
        }),
{
    lemma_without_cr_keeps(text);
    let head = header_line(text);
    let labels = split(head, 44u8);
    let lines = data_lines(text);
    let declared = declared_fields(labels);
    let csv = csv_of(text);
    let t = text_table(csv, 0xFFFF_FFFF, floats_in);
    let pool = joined(pool_entries(csv), pool_entries(csv).len() as int);
    let file = encoded(t, pool, e);
    let nf = labels.len() as int;
    lemma_join_split(head, 44u8, 0);
    assert(head.subrange(0, head.len() as int) =~= head);
    assert(csv.fields == laid_out(declared));
    assert(csv.cells == grid_cells(lines, nf));
    lemma_laid_out_is_engine_layout(declared, 0xFFFF_FFFF);
    assert forall|v: int| 0 <= v < csv.cells.len() implies ({
        let found = resolved(pool, 0, t.fields[v % nf].datatype, #[trigger] t.values[v]);
        &&& found is Some
        &&& rendered(found.unwrap(), t.fields[v % nf], float_text(floats_out, v)) == csv.cells[v]
    }) by {
        assert(canonical_cell(csv.cells[v], csv.fields[v % nf].datatype));
        lemma_cell_reads_back(csv, floats_in, floats_out, v);
    }
    assert(resolvable(t, pool));
    lemma_round_trip(t, pool, e);
    let found = materialized(t, pool);
    assert forall|v: int| 0 <= v < csv.cells.len() implies rendered(
        found.values[v],
        found.fields[v % nf],
        float_text(floats_out, v),
    ) == #[trigger] csv.cells[v] by {
        assert(resolved(pool, 0, t.fields[v % nf].datatype, t.values[v]) is Some);
    }
    lemma_values_text_is_grid(found, floats_out, csv.cells, csv.cells.len() as int);
    lemma_grid_text_is_lines(lines, nf, lines.len() as int, 0);
    assert(line_text(Seq::<Seq<u8>>::empty(), 0) =~= Seq::<u8>::empty());
    assert(lines.len() * nf + 0 == csv.cells.len());
    assert forall|k: int| 0 <= k < nf implies column_label(names, found.fields[k])
        == #[trigger] labels[k] by {
        assert(canonical_label(labels[k], names));
        assert(found.fields[k].hash == declared[k].hash);
    }
    lemma_labels_text_is_line(names, found.fields, labels, nf);
    lemma_line_text_joins(labels, nf);
    assert(labels.take(nf) =~= labels);
    lemma_text_is_its_lines(text);
    assert(csv_text(found, names, floats_out) =~= head + seq![10u8] + lines_text(
        lines,
        lines.len() as int,
    ));
}

/// No field passes the end of the record where each ends within it.
proof fn lemma_no_crossing(fields: Seq<Field>, size: int, k: int)
    requires
        0 <= k <= fields.len(),
        forall|i: int|
            0 <= i < fields.len() ==> (#[trigger] fields[i]).dataoff
                + fields[i].datatype.spec_size() <= size,
    ensures
        crossing(fields, size, k) is None,
    decreases fields.len() - k,
{
    if k < fields.len() {
        lemma_no_crossing(fields, size, k + 1);
    }
}

/// The table of a text can always be written once its cells are read: a
/// text that is a table fails to become a binary file only where a cell is
/// no value of its column's datatype.
pub proof fn lemma_text_table_writes(text: Seq<u8>, mask: u32, floats: Seq<Option<u32>>)
    requires
        csv_error(text) is None,
    ensures
        convert_error(csv_of(text), mask, floats) is None || convert_error(
            csv_of(text),
            mask,
            floats,
        ) == Some(BcsvError::NumericParse),
        convert_error(csv_of(text), mask, floats) is None <==> !bad_cell(
            interned(csv_of(text)).cells,
            csv_of(text).fields,
            floats,
            csv_of(text).cells.len() as int,
        ),
{
    let clean = without_cr(text);
    let labels = split(header_line(clean), 44u8);
    let declared = declared_fields(labels);
    let csv = csv_of(text);
    let nf = labels.len() as int;
    let t = text_table(csv, mask, floats);
    lemma_join_split(header_line(clean), 44u8, 0);
    crate::csv::lemma_width_counts_fields(declared, nf);
    lemma_laid_out_is_engine_layout(declared, mask);
    if !bad_cell(interned(csv).cells, csv.fields, floats, csv.cells.len() as int) {
        assert(t.values.len() == t.header.fieldcount * t.header.entrycount) by (nonlinear_arith)
            requires
                t.values.len() == data_lines(clean).len() * nf,
                t.header.fieldcount == nf,
                t.header.entrycount == data_lines(clean).len(),
        ;
        assert forall|v: int| 0 <= v < t.values.len() implies (#[trigger] t.values[v]).stored_as(
            t.fields[v % (t.fields.len() as int)].datatype,
        ) by {
            assert(value_of_cell(interned(csv).cells, csv.fields, floats, v) is Some);
        }
        assert forall|i: int| 0 <= i < t.fields.len() implies (#[trigger] t.fields[i]).dataoff
            + t.fields[i].datatype.spec_size() <= t.header.entrysize by {
            crate::layout::lemma_offset_within_record(t.fields, i);
        }
        lemma_no_crossing(t.fields, t.header.entrysize as int, 0);
    }
}

} // verus!
