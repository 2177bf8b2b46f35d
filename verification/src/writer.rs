use crate::codec::Value;
use crate::codec::ValueView;
use crate::pool::distinct;
use crate::pool::joined;
use crate::pool::lemma_distinct_prefix;
use crate::pool::lemma_offset_stable;
use crate::pool::offset_in;
use crate::pool::StringPool;
use crate::table::append_bytes;
use crate::table::consistent;
use crate::table::crossing;
use crate::table::table_bytes;
use crate::table::write_error;
use crate::table::TableView;
use crate::table::BCSV;
use crate::types::BcsvError;
use crate::types::DataType;
use crate::types::Endian;
use crate::types::Field;
use vstd::prelude::*;
use vstd::string::StringSliceAdditionalSpecFns;
use vstd::utf8::encode_utf8;

verus! {

/// The fill bytes that bring a file of `len` bytes to the next multiple of
/// 32 bytes; each is `0x40`.
pub open spec fn padding(len: nat) -> Seq<u8> {
    Seq::new(((32 - len % 32) % 32) as nat, |i: int| 0x40u8)
}

/// A whole file: header, field descriptors and records, the string pool
/// right behind them, and the fill bytes.
pub open spec fn encoded(t: TableView, pool: Seq<u8>, e: Endian) -> Seq<u8> {
    table_bytes(t, e) + pool + padding(table_bytes(t, e).len() + pool.len())
}

/// Puts the string pool behind the records and fills the file up to the
/// next multiple of 32 bytes with `0x40`.
pub fn createbuffer(records: Vec<u8>, table: &[u8]) -> (out: Vec<u8>)
    ensures
        out@ == records@ + table@ + padding(records@.len() + table@.len()),
        out@.len() % 32 == 0,
{
    let mut out = records;
    append_bytes(&mut out, table);
    let ghost body = out@;
    let fill: usize = (32 - out.len() % 32) % 32;
    let mut i: usize = 0;
    while i < fill
        invariant
            i <= fill < 32,
            out@ == body + Seq::new(i as nat, |j: int| 0x40u8),
        decreases fill - i,
    {
        out.push(0x40);
        assert(out@ =~= body + Seq::new((i + 1) as nat, |j: int| 0x40u8));
        i += 1;
    }
    assert(out@ =~= records@ + table@ + padding(records@.len() + table@.len()));
    out
}

/// The value is one that a table read from a file holds in a column of
/// datatype `dt`: a text in a string column, and in any other column what
/// can stand in its records.
pub open spec fn held_as(value: ValueView, dt: DataType) -> bool {
    match value {
        ValueView::StringOff(_) => dt == DataType::STRINGOFF,
        ValueView::Long(_) => dt == DataType::LONG || dt == DataType::LONG2,
        _ => value.stored_as(dt),
    }
}

/// The texts of the string values among the first `n` values, as UTF-8, in
/// their order.
pub open spec fn table_strings(t: TableView, n: int) -> Seq<Seq<u8>>
    decreases n,
{
    if n <= 0 {
        Seq::empty()
    } else {
        match t.values[n - 1] {
            ValueView::StringOff(s) => table_strings(t, n - 1).push(encode_utf8(s)),
            _ => table_strings(t, n - 1),
        }
    }
}

/// The entries of the string pool of a table: its distinct texts, in the
/// order of first appearance.
pub open spec fn table_entries(t: TableView) -> Seq<Seq<u8>> {
    let strings = table_strings(t, t.values.len() as int);
    distinct(strings, strings.len() as int)
}

/// The bytes of the string pool of a table.
pub open spec fn table_pool(t: TableView) -> Seq<u8> {
    joined(table_entries(t), table_entries(t).len() as int)
}

/// What the records hold of a value: the pool offset of a text, and any
/// other value itself.
pub open spec fn stored_value_of(entries: Seq<Seq<u8>>, value: ValueView) -> ValueView {
    match value {
        ValueView::StringOff(s) => ValueView::Long(offset_in(entries, encode_utf8(s)) as u32),
        _ => value,
    }
}

/// The table as its records hold it: every text replaced by its pool
/// offset.
pub open spec fn stored_form(t: TableView) -> TableView {
    TableView {
        header: t.header,
        fields: t.fields,
        values: Seq::new(t.values.len(), |v: int| stored_value_of(table_entries(t), t.values[v])),
    }
}

/// One of the first `n` values does not belong in its column, or is a text
/// whose pool offset passes 32 bits.
pub open spec fn misfit(t: TableView, n: int) -> bool {
    exists|v: int|
        0 <= v < n && !(held_as(
            #[trigger] t.values[v],
            t.fields[v % (t.fields.len() as int)].datatype,
        ) && (t.values[v] matches ValueView::StringOff(s) ==> offset_in(
            table_entries(t),
            encode_utf8(s),
        ) <= 0xFFFF_FFFF))
}

/// Why a table cannot be encoded, if it cannot.
pub open spec fn encode_error(t: TableView) -> Option<BcsvError> {
    if t.fields.len() == 0 && t.values.len() > 0 {
        Some(BcsvError::MalformedHeader)
    } else if misfit(t, t.values.len() as int) {
        Some(BcsvError::MalformedHeader)
    } else {
        write_error(stored_form(t))
    }
}

/// A copy of the value.
pub fn duplicate(value: &Value) -> (copy: Value)
    ensures
        copy@ == value@,
{
    match value {
        Value::LONG(x) => Value::LONG(*x),
        Value::STRING(a) => Value::STRING(*a),
        Value::FLOAT(x) => Value::FLOAT(*x),
        Value::SHORT(x) => Value::SHORT(*x),
        Value::CHAR(x) => Value::CHAR(*x),
        Value::STRINGOFF(s) => Value::STRINGOFF(s.clone()),
    }
}

/// The value is one that a table read from a file holds in a column of
/// datatype `dt`.
pub fn is_held_as(value: &Value, dt: DataType) -> (b: bool)
    ensures
        b == held_as(value@, dt),
{
    match value {
        Value::STRINGOFF(_) => dt == DataType::STRINGOFF,
        Value::LONG(_) => dt == DataType::LONG || dt == DataType::LONG2,
        _ => value.stored_as(dt),
    }
}

impl BCSV {
    /// Encodes the table as a whole file in byte order `endian`: header,
    /// field descriptors, records, the string pool and the fill bytes. The
    /// pool holds every distinct text of the table once, zero-terminated, in
    /// the order of first appearance, and the records hold the pool offsets
    /// of their texts.
    ///
    /// Fails with `MalformedHeader` where a value does not belong in its
    /// column, a pool offset passes 32 bits or the table is not consistent,
    /// and with `FieldDecode` where a field's storage passes the end of the
    /// record.
    pub fn to_bytes(&self, endian: Endian) -> (r: Result<Vec<u8>, BcsvError>)
        ensures
            match r {
                Ok(out) => encode_error(self@) is None && out@ == encoded(
                    stored_form(self@),
                    table_pool(self@),
                    endian,
                ) && out@.len() % 32 == 0,
                Err(err) => encode_error(self@) == Some(err),
            },
    {
        let columns = self.fields.len();
        let total = self.values.len();
        if columns == 0 && total > 0 {
            return Err(BcsvError::MalformedHeader);
        }
        let ghost t = self@;
        let mut pool = StringPool::new();
        let mut stored: Vec<Value> = Vec::new();
        let mut fits = true;
        let mut v: usize = 0;
        while v < total
            invariant
                v <= total,
                total == self.values@.len(),
                columns == self.fields@.len(),
                total > 0 ==> columns > 0,
                t == self@,
                pool.wf(),
                pool.entries() == distinct(
                    table_strings(t, v as int),
                    table_strings(t, v as int).len() as int,
                ),
                stored@.len() == v,
                forall|w: int|
                    0 <= w < v ==> (#[trigger] t.values[w] matches ValueView::StringOff(s)
                        ==> pool.entries().contains(encode_utf8(s))),
                forall|w: int|
                    0 <= w < v ==> (#[trigger] stored@[w])@ == stored_value_of(
                        pool.entries(),
                        t.values[w],
                    ),
                fits <==> forall|w: int|
                    0 <= w < v ==> held_as(
                        #[trigger] t.values[w],
                        t.fields[w % (columns as int)].datatype,
                    ) && (t.values[w] matches ValueView::StringOff(s) ==> offset_in(
                        pool.entries(),
                        encode_utf8(s),
                    ) <= 0xFFFF_FFFF),
            decreases total - v,
        {
            let ghost strings = table_strings(t, v as int);
            let ghost entries = pool.entries();
            let value = &self.values[v];
            assert(t.values[v as int] == value@);
            let held = is_held_as(value, self.fields[v % columns].datatype);
            match value {
                Value::STRINGOFF(text) => {
                    let off = pool.intern(text.as_str().as_bytes());
                    let ghost bytes = encode_utf8(text@);
                    let small = off <= 0xFFFF_FFFF;
                    stored.push(Value::LONG(#[verifier::truncate] (off as u32)));
                    proof {
                        let longer = strings.push(bytes);
                        assert(table_strings(t, v + 1) == longer);
                        lemma_distinct_prefix(longer, strings, strings.len() as int);
                        assert(pool.entries().contains(bytes)) by {
                            if !entries.contains(bytes) {
                                assert(pool.entries()[entries.len() as int] == bytes);
                            }
                        }
                        assert forall|w: int| 0 <= w < v implies (#[trigger] t.values[w] matches ValueView::StringOff(s)
                            ==> pool.entries().contains(encode_utf8(s)) && offset_in(
                            pool.entries(),
                            encode_utf8(s),
                        ) == offset_in(entries, encode_utf8(s))) by {
                            if let ValueView::StringOff(s) = t.values[w] {
                                assert(entries.contains(encode_utf8(s)));
                                if !entries.contains(bytes) {
                                    lemma_offset_stable(entries, encode_utf8(s), bytes);
                                    let j = choose|j: int|
                                        0 <= j < entries.len() && entries[j] == encode_utf8(s);
                                    assert(pool.entries()[j] == encode_utf8(s));
                                }
                            }
                        }
                    }
                    fits = fits && held && small;
                },
                _ => {
                    stored.push(duplicate(value));
                    assert(table_strings(t, v + 1) == strings);
                    fits = fits && held;
                },
            }
            v += 1;
        }
        if !fits {
            return Err(BcsvError::MalformedHeader);
        }
        proof {
            pool.lemma_bytes();
            assert(stored@.map_values(|x: Value| x@) =~= stored_form(t).values) by {
                assert forall|w: int| 0 <= w < total implies stored@.map_values(|x: Value| x@)[w]
                    == stored_form(t).values[w] by {
                    assert(stored@[w]@ == stored_value_of(pool.entries(), t.values[w]));
                }
            }
        }
        let mut fields: Vec<Field> = Vec::new();
        let mut k: usize = 0;
        while k < columns
            invariant
                k <= columns,
                columns == self.fields@.len(),
                fields@ == self.fields@.take(k as int),
            decreases columns - k,
        {
            fields.push(self.fields[k]);
            assert(fields@ =~= self.fields@.take(k + 1));
            k += 1;
        }
        assert(fields@ =~= self.fields@);
        let table = BCSV { header: self.header, fields, values: stored };
        assert(table@ == stored_form(t));
        let records = match table.write_options(endian) {
            Ok(records) => records,
            Err(err) => {
                return Err(err);
            },
        };
        let bytes = pool.into_bytes();
        Ok(createbuffer(records, bytes.as_slice()))
    }
}

} // verus!
