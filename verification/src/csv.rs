use crate::codec::Value;
use crate::codec::ValueView;
use crate::hash::hash_bytes;
use crate::hash::hash_of;
use crate::layout::assign_offsets;
use crate::layout::laid_out;
use crate::layout::record_size;
use crate::layout::schema_conflict;
use crate::layout::width_upto;
use crate::pool::distinct;
use crate::pool::joined;
use crate::pool::lemma_distinct_prefix;
use crate::pool::lemma_offset_stable;
use crate::pool::offset_in;
use crate::pool::StringPool;
use crate::table::BCSV;
use crate::text::decimal;
use crate::text::format_u64;
use crate::text::index_from;
use crate::text::lemma_index_from_is;
use crate::text::parse_hex;
use crate::text::parse_number;
use crate::text::parsed;
use crate::text::parsed_hex;
use crate::text::split;
use crate::text::lemma_join_split;
use crate::text::parsecsv;
use crate::text::split_bytes;
use crate::text::without_cr;
use crate::types::BcsvError;
use crate::types::DataType;
use crate::types::Field;
use crate::types::Header;
use vstd::prelude::*;
use vstd::slice::slice_subrange;
use vstd::string::StringSliceAdditionalSpecFns;

verus! {

/// The datatype that a column label declares: the tag behind the label's
/// first colon. `None` where the label has no colon or what follows it is
/// no tag of the known set.
pub open spec fn declared_datatype(label: Seq<u8>) -> Option<DataType> {
    let colon = index_from(label, 58u8, 0);
    if colon >= label.len() {
        None
    } else {
        match parsed(label.subrange(colon + 1, label.len() as int), 255) {
            Some(tag) => DataType::spec_from_tag(tag as u8),
            None => None,
        }
    }
}

/// The hash that a column name stands for: the number itself where the name
/// is `0x` and a 32-bit hexadecimal number, and the hash of the name
/// otherwise.
pub open spec fn declared_hash(name: Seq<u8>) -> u32 {
    if name.len() >= 2 && name[0] == 48 && name[1] == 120 && parsed_hex(
        name.subrange(2, name.len() as int),
    ) is Some {
        parsed_hex(name.subrange(2, name.len() as int)).unwrap()
    } else {
        hash_of(name)
    }
}

/// The field that a column label declares, with the full mask, no shift and
/// no offset yet.
pub open spec fn declared_field(label: Seq<u8>) -> Option<Field> {
    match declared_datatype(label) {
        Some(datatype) => Some(
            Field {
                hash: declared_hash(label.subrange(0, index_from(label, 58u8, 0))),
                mask: 0xFFFF_FFFF,
                dataoff: 0,
                shift: 0,
                datatype,
            },
        ),
        None => None,
    }
}

/// One of the first `n` labels declares no field.
pub open spec fn bad_label(labels: Seq<Seq<u8>>, n: int) -> bool {
    exists|k: int| 0 <= k < n && (#[trigger] declared_field(labels[k])) is None
}

/// The fields that the labels declare, in their order.
pub open spec fn declared_fields(labels: Seq<Seq<u8>>) -> Seq<Field> {
    Seq::new(labels.len(), |k: int| declared_field(labels[k]).unwrap())
}

/// Why a header line declares no schema, if it does not.
pub open spec fn schema_error(line: Seq<u8>) -> Option<BcsvError> {
    let labels = split(line, 44u8);
    if bad_label(labels, labels.len() as int) {
        Some(BcsvError::InvalidDatatype)
    } else if schema_conflict(declared_fields(labels)) {
        Some(BcsvError::SchemaConflict)
    } else if record_size(declared_fields(labels)) > 0xFFFF {
        Some(BcsvError::MalformedHeader)
    } else {
        None
    }
}

/// The fields that a header line declares, laid out.
pub open spec fn schema_fields(line: Seq<u8>) -> Seq<Field> {
    laid_out(declared_fields(split(line, 44u8)))
}

/// The header of a table with the fields that a header line declares and
/// `rows` rows.
pub open spec fn schema_header(line: Seq<u8>, rows: u32) -> Header {
    let declared = declared_fields(split(line, 44u8));
    Header {
        entrycount: rows,
        fieldcount: declared.len() as u32,
        entrydataoff: (16 + 12 * declared.len()) as u32,
        entrysize: record_size(declared) as u32,
    }
}

/// Every field takes at least one byte.
pub proof fn lemma_width_counts_fields(fields: Seq<Field>, n: int)
    requires
        0 <= n,
    ensures
        n <= width_upto(fields, n),
    decreases n,
{
    if n > 0 {
        lemma_width_counts_fields(fields, n - 1);
    }
}

/// Reads one column label.
pub fn parse_label(label: &[u8]) -> (r: Option<Field>)
    ensures
        r == declared_field(label@),
{
    let mut colon: usize = 0;
    while colon < label.len() && label[colon] != 58
        invariant
            colon <= label.len(),
            forall|i: int| 0 <= i < colon ==> label@[i] != 58,
        decreases label.len() - colon,
    {
        colon += 1;
    }
    proof {
        lemma_index_from_is(label@, 58u8, 0, colon as int);
    }
    if colon >= label.len() {
        return None;
    }
    let tag = match parse_number(slice_subrange(label, colon + 1, label.len()), 255) {
        Some(tag) => tag as u8,
        None => {
            return None;
        },
    };
    let datatype = match DataType::from_tag(tag) {
        Ok(datatype) => datatype,
        Err(_) => {
            return None;
        },
    };
    let name = slice_subrange(label, 0, colon);
    let mut hash = hash_bytes(name);
    if name.len() >= 2 && name[0] == 48 && name[1] == 120 {
        match parse_hex(slice_subrange(name, 2, name.len())) {
            Some(number) => {
                hash = number;
            },
            None => {},
        }
    }
    Some(Field { hash, mask: 0xFFFF_FFFF, dataoff: 0, shift: 0, datatype })
}

/// Reads the header line of a text table into the fields and the header of
/// `bcsv`: one field per comma-separated label, in declaration order, each
/// with its byte offset, and the field count, record size and record
/// position that follow from them. The row count and the values of `bcsv`
/// stay as they are.
///
/// Fails with `InvalidDatatype` where a label declares no datatype, with
/// `SchemaConflict` where two labels share a hash but not a datatype, and
/// with `MalformedHeader` where a record would pass 65535 bytes; `bcsv` is
/// then left as it was.
pub fn generatefields(line: &[u8], bcsv: &mut BCSV) -> (r: Result<(), BcsvError>)
    ensures
        match r {
            Ok(_) => schema_error(line@) is None && final(bcsv).fields@ == schema_fields(line@)
                && final(bcsv).header == schema_header(line@, old(bcsv).header.entrycount)
                && final(bcsv).values == old(bcsv).values,
            Err(err) => schema_error(line@) == Some(err) && *final(bcsv) == *old(bcsv),
        },
{
    let labels = split_bytes(line, 44);
    let ghost names = split(line@, 44u8);
    let mut fields: Vec<Field> = Vec::new();
    let mut k: usize = 0;
    while k < labels.len()
        invariant
            k <= labels.len(),
            labels@.map_values(|p: Vec<u8>| p@) == names,
            names == split(line@, 44u8),
            !bad_label(names, k as int),
            fields@ == declared_fields(names.take(k as int)),
            *bcsv == *old(bcsv),
        decreases labels.len() - k,
    {
        assert(labels@.map_values(|p: Vec<u8>| p@)[k as int] == labels@[k as int]@);
        match parse_label(labels[k].as_slice()) {
            Some(field) => {
                fields.push(field);
            },
            None => {
                assert(declared_field(names[k as int]) is None);
                assert(bad_label(names, names.len() as int));
                return Err(BcsvError::InvalidDatatype);
            },
        }
        assert(fields@ =~= declared_fields(names.take(k + 1)));
        assert(!bad_label(names, k + 1)) by {
            assert forall|j: int| 0 <= j < k + 1 implies !((#[trigger] declared_field(
                names[j],
            )) is None) by {
                if j < k {
                    assert(!bad_label(names, k as int));
                }
            }
        }
        k += 1;
    }
    assert(names.take(k as int) =~= names);
    let ghost declared = fields@;
    let size = match assign_offsets(&mut fields) {
        Ok(size) => size,
        Err(err) => {
            return Err(err);
        },
    };
    proof {
        lemma_width_counts_fields(declared, declared.len() as int);
    }
    let count = fields.len() as u32;
    bcsv.header.fieldcount = count;
    bcsv.header.entrysize = size;
    bcsv.header.entrydataoff = 16 + 12 * count;
    bcsv.fields = fields;
    Ok(())
}

/// The header line of a text table: what stands before the first line feed.
pub open spec fn header_line(text: Seq<u8>) -> Seq<u8> {
    split(text, 10u8)[0]
}

/// The data lines of a text table: every line after the header line, down
/// to the last line feed, and what follows the last line feed unless it is
/// empty.
pub open spec fn data_lines(text: Seq<u8>) -> Seq<Seq<u8>> {
    let rest = split(text, 10u8).skip(1);
    if rest.len() > 0 && rest.last().len() == 0 {
        rest.drop_last()
    } else {
        rest
    }
}

/// One of the first `n` lines does not part into `columns` cells.
pub open spec fn ragged(lines: Seq<Seq<u8>>, columns: int, n: int) -> bool {
    exists|r: int| 0 <= r < n && (#[trigger] split(lines[r], 44u8)).len() != columns
}

/// The cells of the lines, row by row, where every line parts into
/// `columns` cells.
pub open spec fn grid_cells(lines: Seq<Seq<u8>>, columns: int) -> Seq<Seq<u8>> {
    Seq::new((lines.len() * columns) as nat, |v: int| split(lines[v / columns], 44u8)[v % columns])
}

/// The mathematical content of a [`CSV`]: the header and fields of the
/// table it will become, and its cells row by row.
pub struct CsvView {
    pub header: Header,
    pub fields: Seq<Field>,
    pub cells: Seq<Seq<u8>>,
}

/// Why a text is no table, if it is not. Carriage returns count for
/// nothing.
pub open spec fn csv_error(text: Seq<u8>) -> Option<BcsvError> {
    let clean = without_cr(text);
    let columns = split(header_line(clean), 44u8).len() as int;
    if schema_error(header_line(clean)) is Some {
        schema_error(header_line(clean))
    } else if data_lines(clean).len() > 0xFFFF_FFFF {
        Some(BcsvError::MalformedHeader)
    } else if ragged(data_lines(clean), columns, data_lines(clean).len() as int) {
        Some(BcsvError::MalformedHeader)
    } else {
        None
    }
}

/// The table that a text holds. Carriage returns count for nothing.
pub open spec fn csv_of(text: Seq<u8>) -> CsvView {
    let clean = without_cr(text);
    let lines = data_lines(clean);
    CsvView {
        header: schema_header(header_line(clean), lines.len() as u32),
        fields: schema_fields(header_line(clean)),
        cells: grid_cells(lines, split(header_line(clean), 44u8).len() as int),
    }
}

/// Parts the data lines into cells, row by row, and counts the rows in the
/// header of `bcsv`, whose fields say how many cells a line must have.
///
/// Fails with `MalformedHeader` where there are more rows than 32 bits can
/// count or a line has another number of cells than there are fields;
/// `bcsv` is then left as it was.
pub fn generatevalues(lines: &[Vec<u8>], bcsv: &mut BCSV) -> (r: Result<Vec<Vec<u8>>, BcsvError>)
    ensures
        match r {
            Ok(cells) => {
                &&& lines@.len() <= 0xFFFF_FFFF
                &&& !ragged(
                    lines@.map_values(|l: Vec<u8>| l@),
                    old(bcsv).fields@.len() as int,
                    lines@.len() as int,
                )
                &&& cells@.map_values(|c: Vec<u8>| c@) == grid_cells(
                    lines@.map_values(|l: Vec<u8>| l@),
                    old(bcsv).fields@.len() as int,
                )
                &&& final(bcsv).header == (Header {
                    entrycount: lines@.len() as u32,
                    ..old(bcsv).header
                })
                &&& final(bcsv).fields == old(bcsv).fields
                &&& final(bcsv).values == old(bcsv).values
            },
            Err(err) => {
                &&& err == BcsvError::MalformedHeader
                &&& lines@.len() > 0xFFFF_FFFF || ragged(
                    lines@.map_values(|l: Vec<u8>| l@),
                    old(bcsv).fields@.len() as int,
                    lines@.len() as int,
                )
                &&& *final(bcsv) == *old(bcsv)
            },
        },
{
    if lines.len() > 0xFFFF_FFFF {
        return Err(BcsvError::MalformedHeader);
    }
    let columns = bcsv.fields.len();
    let ghost rows = lines@.map_values(|l: Vec<u8>| l@);
    let mut cells: Vec<Vec<u8>> = Vec::new();
    let mut r: usize = 0;
    while r < lines.len()
        invariant
            r <= lines.len(),
            columns == bcsv.fields@.len(),
            rows == lines@.map_values(|l: Vec<u8>| l@),
            *bcsv == *old(bcsv),
            !ragged(rows, columns as int, r as int),
            cells@.len() == r * columns,
            forall|v: int|
                0 <= v < cells@.len() ==> (#[trigger] cells@[v])@ == split(
                    rows[v / (columns as int)],
                    44u8,
                )[v % (columns as int)],
        decreases lines.len() - r,
    {
        assert(rows[r as int] == lines@[r as int]@);
        let mut row = split_bytes(lines[r].as_slice(), 44);
        let ghost parts = split(rows[r as int], 44u8);
        if row.len() != columns {
            assert(ragged(rows, columns as int, lines@.len() as int));
            return Err(BcsvError::MalformedHeader);
        }
        let ghost before = cells@;
        let ghost row_before = row@;
        cells.append(&mut row);
        proof {
            assert(row_before.map_values(|p: Vec<u8>| p@) == parts);
            assert forall|v: int| 0 <= v < cells@.len() implies (#[trigger] cells@[v])@ == split(
                rows[v / (columns as int)],
                44u8,
            )[v % (columns as int)] by {
                if v >= before.len() {
                    let c = v - r * columns;
                    assert(cells@[v] == row_before[c]);
                    assert(row_before.map_values(|p: Vec<u8>| p@)[c] == row_before[c]@);
                    if columns > 0 {
                        vstd::arithmetic::div_mod::lemma_fundamental_div_mod_converse(
                            v,
                            columns as int,
                            r as int,
                            c,
                        );
                    }
                } else {
                    assert(cells@[v] == before[v]);
                }
            }
            assert((r + 1) * columns == r * columns + columns) by (nonlinear_arith);
            assert(!ragged(rows, columns as int, r + 1)) by {
                assert forall|q: int| 0 <= q < r + 1 implies !((#[trigger] split(
                    rows[q],
                    44u8,
                )).len() != columns) by {
                    if q < r {
                        assert(!ragged(rows, columns as int, r as int));
                    }
                }
            }
        }
        r += 1;
    }
    assert(cells@.map_values(|c: Vec<u8>| c@) =~= grid_cells(rows, columns as int));
    bcsv.header.entrycount = lines.len() as u32;
    Ok(cells)
}

/// The table has as many fields as its header counts, and one cell for
/// every field of every row.
pub open spec fn grid_shaped(csv: CsvView) -> bool {
    &&& csv.fields.len() == csv.header.fieldcount
    &&& csv.cells.len() == csv.header.entrycount * csv.header.fieldcount
}

/// A text table: the header and fields of the binary table it will become,
/// and its cells as text, row by row.
pub struct CSV {
    header: Header,
    fields: Vec<Field>,
    values: Vec<Vec<u8>>,
}

impl View for CSV {
    type V = CsvView;

    closed spec fn view(&self) -> CsvView {
        CsvView {
            header: self.header,
            fields: self.fields@,
            cells: self.values@.map_values(|c: Vec<u8>| c@),
        }
    }
}

impl CSV {
    /// Every text table has one cell for every field of every row.
    #[verifier::type_invariant]
    spec fn shaped(&self) -> bool {
        grid_shaped(self@)
    }

    /// Reads a text table: a header line of column labels and one line of
    /// comma-separated cells for every row. Carriage returns are dropped
    /// first.
    ///
    /// Fails with `InvalidDatatype` where a label declares no datatype, with
    /// `SchemaConflict` where two labels share a hash but not a datatype,
    /// and with `MalformedHeader` where a record would pass 65535 bytes,
    /// there are more rows than 32 bits can count, or a line has another
    /// number of cells than there are labels.
    pub fn new(text: &str) -> (r: Result<CSV, BcsvError>)
        ensures
            match r {
                Ok(csv) => csv_error(text.spec_bytes()) is None && csv@ == csv_of(
                    text.spec_bytes(),
                ),
                Err(err) => csv_error(text.spec_bytes()) == Some(err),
            },
    {
        let clean = parsecsv(text.as_bytes());
        let mut lines = split_bytes(clean.as_slice(), 10);
        let ghost parts = split(clean@, 10u8);
        proof {
            lemma_join_split(clean@, 10u8, 0);
            assert(lines@.map_values(|l: Vec<u8>| l@)[0] == lines@[0]@);
        }
        let mut bcsv = BCSV::new();
        match generatefields(lines[0].as_slice(), &mut bcsv) {
            Ok(_) => {},
            Err(err) => {
                return Err(err);
            },
        }
        let rest = lines.split_off(1);
        let ghost tail = rest@.map_values(|l: Vec<u8>| l@);
        assert(tail =~= parts.skip(1));
        let count = if rest.len() > 0 && rest[rest.len() - 1].len() == 0 {
            rest.len() - 1
        } else {
            rest.len()
        };
        let rows = slice_subrange(rest.as_slice(), 0, count);
        assert(rows@.map_values(|l: Vec<u8>| l@) =~= data_lines(clean@)) by {
            if rest@.len() > 0 {
                assert(tail.last() == rest@[rest@.len() - 1]@);
            }
        }
        let values = match generatevalues(rows, &mut bcsv) {
            Ok(values) => values,
            Err(err) => {
                return Err(err);
            },
        };
        proof {
            let labels = split(header_line(clean@), 44u8);
            lemma_width_counts_fields(declared_fields(labels), labels.len() as int);
            assert(values@.map_values(|c: Vec<u8>| c@).len() == bcsv.header.entrycount
                * bcsv.header.fieldcount);
        }
        Ok(CSV { header: bcsv.header, fields: bcsv.fields, values })
    }
}

/// Cell `v` stands in a string column.
pub open spec fn is_string_cell(fields: Seq<Field>, v: int) -> bool {
    fields.len() > 0 && fields[v % (fields.len() as int)].datatype == DataType::STRINGOFF
}

/// Cell `v` stands in a floating-point column.
pub open spec fn is_float_cell(fields: Seq<Field>, v: int) -> bool {
    fields.len() > 0 && fields[v % (fields.len() as int)].datatype == DataType::FLOAT
}

/// The cells of string columns among the first `n` cells, in their order.
pub open spec fn string_cells(csv: CsvView, n: int) -> Seq<Seq<u8>>
    decreases n,
{
    if n <= 0 {
        Seq::empty()
    } else if is_string_cell(csv.fields, n - 1) {
        string_cells(csv, n - 1).push(csv.cells[n - 1])
    } else {
        string_cells(csv, n - 1)
    }
}

/// The entries of the string pool of a text table: the distinct cells of
/// its string columns, in the order of first appearance.
pub open spec fn pool_entries(csv: CsvView) -> Seq<Seq<u8>> {
    let strings = string_cells(csv, csv.cells.len() as int);
    distinct(strings, strings.len() as int)
}

/// The table once its strings are interned: every cell of a string column
/// holds the decimal numeral of its string's pool offset.
pub open spec fn interned(csv: CsvView) -> CsvView {
    CsvView {
        header: csv.header,
        fields: csv.fields,
        cells: Seq::new(
            csv.cells.len(),
            |v: int|
                if is_string_cell(csv.fields, v) {
                    decimal(offset_in(pool_entries(csv), csv.cells[v]) as nat)
                } else {
                    csv.cells[v]
                },
        ),
    }
}

impl CSV {
    /// Builds the string pool: every distinct cell of a string column once,
    /// zero-terminated, in the order of first appearance row by row. Each
    /// such cell is replaced by the decimal numeral of the offset at which
    /// its string begins in the pool.
    pub fn create_stringtable(&mut self) -> (pool: Vec<u8>)
        ensures
            pool@ == joined(pool_entries(old(self)@), pool_entries(old(self)@).len() as int),
            final(self)@ == interned(old(self)@),
    {
        proof {
            use_type_invariant(&*self);
        }
        let columns = self.fields.len();
        let total = self.values.len();
        let ghost before = self@;
        let mut pool = StringPool::new();
        let mut v: usize = 0;
        while v < total
            invariant
                v <= total,
                total == self.values@.len(),
                total == before.cells.len(),
                columns == self.fields@.len(),
                before == old(self)@,
                self.header == before.header,
                self.fields@ == before.fields,
                grid_shaped(before),
                pool.wf(),
                pool.entries() == distinct(
                    string_cells(before, v as int),
                    string_cells(before, v as int).len() as int,
                ),
                forall|w: int|
                    0 <= w < v && is_string_cell(before.fields, w) ==> pool.entries().contains(
                        #[trigger] before.cells[w],
                    ),
                forall|w: int|
                    0 <= w < total ==> (#[trigger] self.values@[w])@ == if w < v && is_string_cell(
                        before.fields,
                        w,
                    ) {
                        decimal(offset_in(pool.entries(), before.cells[w]) as nat)
                    } else {
                        before.cells[w]
                    },
            decreases total - v,
        {
            let ghost strings = string_cells(before, v as int);
            let ghost entries = pool.entries();
            if columns > 0 && self.fields[v % columns].is_stringoff() {
                assert(before.cells[v as int] == self.values@[v as int]@);
                let off = pool.intern(self.values[v].as_slice());
                let number = format_u64(off as u64);
                self.values[v] = number;
                proof {
                    let cell = before.cells[v as int];
                    let longer = strings.push(cell);
                    assert(string_cells(before, v + 1) == longer);
                    lemma_distinct_prefix(longer, strings, strings.len() as int);
                    assert(distinct(longer, longer.len() as int) == pool.entries());
                    assert(pool.entries().contains(cell)) by {
                        if entries.contains(cell) {
                        } else {
                            assert(pool.entries()[entries.len() as int] == cell);
                        }
                    }
                    assert forall|w: int|
                        0 <= w < v + 1 && is_string_cell(
                            before.fields,
                            w,
                        ) implies pool.entries().contains(#[trigger] before.cells[w]) by {
                        if w < v {
                            assert(entries.contains(before.cells[w]));
                            if !entries.contains(cell) {
                                let j = choose|j: int|
                                    0 <= j < entries.len() && entries[j] == before.cells[w];
                                assert(pool.entries()[j] == before.cells[w]);
                            }
                        }
                    }
                    assert forall|w: int| 0 <= w < total implies (#[trigger] self.values@[w])@
                        == if w < v + 1 && is_string_cell(before.fields, w) {
                        decimal(offset_in(pool.entries(), before.cells[w]) as nat)
                    } else {
                        before.cells[w]
                    } by {
                        if w < v && is_string_cell(before.fields, w) {
                            if !entries.contains(cell) {
                                lemma_offset_stable(entries, before.cells[w], cell);
                            }
                        }
                    }
                }
            } else {
                assert(string_cells(before, v + 1) == strings);
            }
            v += 1;
        }
        proof {
            pool.lemma_bytes();
            assert(self@.cells =~= interned(before).cells);
        }
        pool.into_bytes()
    }

    /// A binary table with the header and the fields of this text table and
    /// no values yet.
    pub fn generate_bcsv(&self) -> (bcsv: BCSV)
        ensures
            bcsv@.header == self@.header,
            bcsv@.fields == self@.fields,
            bcsv@.values.len() == 0,
    {
        let mut fields: Vec<Field> = Vec::new();
        let mut k: usize = 0;
        while k < self.fields.len()
            invariant
                k <= self.fields.len(),
                fields@ == self.fields@.take(k as int),
            decreases self.fields.len() - k,
        {
            fields.push(self.fields[k]);
            assert(fields@ =~= self.fields@.take(k + 1));
            k += 1;
        }
        assert(fields@ =~= self.fields@);
        BCSV { header: self.header, fields, values: Vec::new() }
    }
}

/// The bit pattern that the caller read from the floating-point cell `v`,
/// if it read one.
pub open spec fn float_at(floats: Seq<Option<u32>>, v: int) -> Option<u32> {
    if 0 <= v < floats.len() {
        floats[v]
    } else {
        None
    }
}

/// A text of at most 32 bytes, filled up to 32 bytes with zero bytes.
pub open spec fn padded(cell: Seq<u8>) -> Seq<u8> {
    Seq::new(
        32,
        |i: int|
            if i < cell.len() {
                cell[i]
            } else {
                0u8
            },
    )
}

/// The value that a cell holds for a column of datatype `dt`: the number
/// that its numeral denotes for an integer or string-offset column, if it
/// fits the column's width; its bytes filled up with zero bytes for a fixed
/// string of at most 32 bytes; the bit pattern `float` for a floating-point
/// column. `None` where the cell is no value of the datatype.
pub open spec fn cell_value(cell: Seq<u8>, dt: DataType, float: Option<u32>) -> Option<
    ValueView,
> {
    match dt {
        DataType::LONG | DataType::LONG2 | DataType::STRINGOFF => match parsed(cell, 0xFFFF_FFFF) {
            Some(n) => Some(ValueView::Long(n as u32)),
            None => None,
        },
        DataType::STRING => if cell.len() <= 32 {
            Some(ValueView::Text(padded(cell)))
        } else {
            None
        },
        DataType::FLOAT => match float {
            Some(bits) => Some(ValueView::Float(bits)),
            None => None,
        },
        DataType::SHORT => match parsed(cell, 0xFFFF) {
            Some(n) => Some(ValueView::Short(n as u16)),
            None => None,
        },
        DataType::CHAR => match parsed(cell, 0xFF) {
            Some(n) => Some(ValueView::Char(n as u8)),
            None => None,
        },
    }
}

/// The value of cell `v` under the given fields.
pub open spec fn value_of_cell(
    cells: Seq<Seq<u8>>,
    fields: Seq<Field>,
    floats: Seq<Option<u32>>,
    v: int,
) -> Option<ValueView> {
    cell_value(cells[v], fields[v % (fields.len() as int)].datatype, float_at(floats, v))
}

/// One of the first `n` cells is no value of its column's datatype.
pub open spec fn bad_cell(
    cells: Seq<Seq<u8>>,
    fields: Seq<Field>,
    floats: Seq<Option<u32>>,
    n: int,
) -> bool {
    exists|v: int| 0 <= v < n && (#[trigger] value_of_cell(cells, fields, floats, v)) is None
}

/// The values of all cells, row by row.
pub open spec fn cell_values(cells: Seq<Seq<u8>>, fields: Seq<Field>, floats: Seq<Option<u32>>)
    -> Seq<ValueView> {
    Seq::new(cells.len(), |v: int| value_of_cell(cells, fields, floats, v).unwrap())
}

/// Reads one cell as a value of datatype `dt`.
pub fn parse_cell(cell: &[u8], dt: DataType, float: Option<u32>) -> (r: Option<Value>)
    ensures
        match r {
            Some(value) => cell_value(cell@, dt, float) == Some(value@),
            None => cell_value(cell@, dt, float) is None,
        },
{
    match dt {
        DataType::LONG | DataType::LONG2 | DataType::STRINGOFF => match parse_number(
            cell,
            0xFFFF_FFFF,
        ) {
            Some(n) => Some(Value::LONG(n as u32)),
            None => None,
        },
        DataType::STRING => {
            if cell.len() > 32 {
                return None;
            }
            let mut text = [0u8; 32];
            let mut i: usize = 0;
            while i < cell.len()
                invariant
                    i <= cell.len() <= 32,
                    forall|j: int| 0 <= j < i ==> text@[j] == cell@[j],
                    forall|j: int| i <= j < 32 ==> text@[j] == 0,
                decreases cell.len() - i,
            {
                text[i] = cell[i];
                i += 1;
            }
            assert(text@ =~= padded(cell@));
            Some(Value::STRING(text))
        },
        DataType::FLOAT => match float {
            Some(bits) => Some(Value::FLOAT(bits)),
            None => None,
        },
        DataType::SHORT => match parse_number(cell, 0xFFFF) {
            Some(n) => Some(Value::SHORT(n as u16)),
            None => None,
        },
        DataType::CHAR => match parse_number(cell, 0xFF) {
            Some(n) => Some(Value::CHAR(n as u8)),
            None => None,
        },
    }
}

impl CSV {
    /// The number of cells.
    pub fn len(&self) -> (n: usize)
        ensures
            n == self@.cells.len(),
    {
        self.values.len()
    }

    /// Cell `v`, counted row by row, if it stands in a floating-point
    /// column; the caller reads the number from it.
    pub fn float_cell(&self, v: usize) -> (r: Option<&[u8]>)
        ensures
            match r {
                Some(cell) => v < self@.cells.len() && is_float_cell(self@.fields, v as int)
                    && cell@ == self@.cells[v as int],
                None => !(v < self@.cells.len() && is_float_cell(self@.fields, v as int)),
            },
    {
        let columns = self.fields.len();
        if v < self.values.len() && columns > 0 {
            match self.fields[v % columns].datatype {
                DataType::FLOAT => {
                    assert(self@.cells[v as int] == self.values@[v as int]@);
                    Some(self.values[v].as_slice())
                },
                _ => None,
            }
        } else {
            None
        }
    }

    /// Reads every cell as a value of its column's datatype, where the
    /// columns are the fields of `bcsv`, and appends the values to `bcsv`
    /// row by row. A cell of a string column must hold its pool offset by
    /// now. `floats` holds, at the index of each floating-point cell, the
    /// bit pattern that the caller read from it.
    ///
    /// Fails with `MalformedHeader` where `bcsv` has another number of
    /// fields than this table, and with `NumericParse` where a cell is no
    /// value of its datatype; `bcsv` is then left as it was.
    pub fn create_values(self, bcsv: &mut BCSV, floats: &Vec<Option<u32>>) -> (r: Result<
        (),
        BcsvError,
    >)
        ensures
            final(bcsv)@.header == old(bcsv)@.header,
            final(bcsv)@.fields == old(bcsv)@.fields,
            match r {
                Ok(_) => {
                    &&& old(bcsv)@.fields.len() == self@.fields.len()
                    &&& !bad_cell(
                        self@.cells,
                        old(bcsv)@.fields,
                        floats@,
                        self@.cells.len() as int,
                    )
                    &&& final(bcsv)@.values == old(bcsv)@.values + cell_values(
                        self@.cells,
                        old(bcsv)@.fields,
                        floats@,
                    )
                },
                Err(err) => {
                    &&& final(bcsv)@.values == old(bcsv)@.values
                    &&& if old(bcsv)@.fields.len() != self@.fields.len() {
                        err == BcsvError::MalformedHeader
                    } else {
                        err == BcsvError::NumericParse && bad_cell(
                            self@.cells,
                            old(bcsv)@.fields,
                            floats@,
                            self@.cells.len() as int,
                        )
                    }
                },
            },
    {
        proof {
            use_type_invariant(&self);
        }
        let columns = bcsv.fields.len();
        if columns != self.fields.len() {
            return Err(BcsvError::MalformedHeader);
        }
        let total = self.values.len();
        assert(total > 0 ==> columns > 0) by (nonlinear_arith)
            requires
                total == self@.header.entrycount * self@.header.fieldcount,
                columns == self@.header.fieldcount,
        ;
        let mut fresh: Vec<Value> = Vec::new();
        let mut v: usize = 0;
        while v < total
            invariant
                v <= total,
                total == self.values@.len(),
                total > 0 ==> columns > 0,
                columns == bcsv.fields@.len(),
                columns == self@.fields.len(),
                total == self@.cells.len(),
                *bcsv == *old(bcsv),
                fresh@.len() == v,
                !bad_cell(self@.cells, bcsv.fields@, floats@, v as int),
                forall|w: int|
                    0 <= w < v ==> value_of_cell(self@.cells, bcsv.fields@, floats@, w) == Some(
                        (#[trigger] fresh@[w])@,
                    ),
            decreases total - v,
        {
            let float = if v < floats.len() {
                floats[v]
            } else {
                None
            };
            assert(self@.cells[v as int] == self.values@[v as int]@);
            match parse_cell(self.values[v].as_slice(), bcsv.fields[v % columns].datatype, float) {
                Some(value) => {
                    fresh.push(value);
                },
                None => {
                    assert(value_of_cell(self@.cells, bcsv.fields@, floats@, v as int) is None);
                    return Err(BcsvError::NumericParse);
                },
            }
            assert(!bad_cell(self@.cells, bcsv.fields@, floats@, v + 1)) by {
                assert forall|w: int| 0 <= w < v + 1 implies !((#[trigger] value_of_cell(
                    self@.cells,
                    bcsv.fields@,
                    floats@,
                    w,
                )) is None) by {
                    if w < v {
                        assert(!bad_cell(self@.cells, bcsv.fields@, floats@, v as int));
                    }
                }
            }
            v += 1;
        }
        let ghost held = bcsv@.values;
        let ghost added = fresh@.map_values(|x: Value| x@);
        assert(added =~= cell_values(self@.cells, bcsv.fields@, floats@));
        bcsv.values.append(&mut fresh);
        assert(bcsv@.values =~= held + added);
        Ok(())
    }
}

} // verus!
