use crate::bytes::u16_bytes;
use crate::bytes::u32_bytes;
use crate::bytes::write_u16;
use crate::bytes::write_u32;
use crate::types::DataType;
use crate::types::Endian;
use crate::types::Field;
use vstd::prelude::*;

verus! {

/// One cell of a table.
///
/// `LONG` holds the stored word of a 32-bit integer column and, in a table
/// that is about to be written, the pool offset of a string column. `FLOAT`
/// holds the bit pattern of the number. `STRINGOFF` holds the text that a
/// string column's offset resolved to.
#[derive(Debug, Clone, PartialEq, Eq)]
pub enum Value {
    LONG(u32),
    STRING([u8; 32]),
    FLOAT(u32),
    SHORT(u16),
    CHAR(u8),
    STRINGOFF(String),
}

/// The mathematical content of a [`Value`].
pub enum ValueView {
    Long(u32),
    Text(Seq<u8>),
    Float(u32),
    Short(u16),
    Char(u8),
    StringOff(Seq<char>),
}

impl View for Value {
    type V = ValueView;

    open spec fn view(&self) -> ValueView {
        match self {
            Value::LONG(x) => ValueView::Long(*x),
            Value::STRING(a) => ValueView::Text(a@),
            Value::FLOAT(x) => ValueView::Float(*x),
            Value::SHORT(x) => ValueView::Short(*x),
            Value::CHAR(x) => ValueView::Char(*x),
            Value::STRINGOFF(s) => ValueView::StringOff(s@),
        }
    }
}

impl ValueView {
    /// The bytes that the value takes in a record. A resolved string takes
    /// none: what a record holds of it is its pool offset, a `Long`.
    pub open spec fn bytes(self, e: Endian) -> Seq<u8> {
        match self {
            ValueView::Long(x) => u32_bytes(x, e),
            ValueView::Text(a) => a,
            ValueView::Float(x) => u32_bytes(x, e),
            ValueView::Short(x) => u16_bytes(x, e),
            ValueView::Char(x) => seq![x],
            ValueView::StringOff(_) => Seq::empty(),
        }
    }

    /// The value can stand in a record of a column of datatype `dt`.
    pub open spec fn stored_as(self, dt: DataType) -> bool {
        match self {
            ValueView::Long(_) => dt == DataType::LONG || dt == DataType::LONG2 || dt
                == DataType::STRINGOFF,
            ValueView::Text(a) => dt == DataType::STRING && a.len() == 32,
            ValueView::Float(_) => dt == DataType::FLOAT,
            ValueView::Short(_) => dt == DataType::SHORT,
            ValueView::Char(_) => dt == DataType::CHAR,
            ValueView::StringOff(_) => false,
        }
    }
}

impl Value {
    /// The value is a resolved string.
    pub open spec fn spec_is_stringoff(&self) -> bool {
        self@ is StringOff
    }

    /// Tells whether the value is a resolved string.
    #[verifier::when_used_as_spec(spec_is_stringoff)]
    pub fn is_stringoff(&self) -> (b: bool)
        ensures
            b == (self@ is StringOff),
    {
        match self {
            Value::STRINGOFF(_) => true,
            _ => false,
        }
    }

    /// The value can stand in a record of a column of datatype `dt`.
    pub fn stored_as(&self, dt: DataType) -> (b: bool)
        ensures
            b == self@.stored_as(dt),
    {
        match self {
            Value::LONG(_) => dt == DataType::LONG || dt == DataType::LONG2 || dt
                == DataType::STRINGOFF,
            Value::STRING(_) => dt == DataType::STRING,
            Value::FLOAT(_) => dt == DataType::FLOAT,
            Value::SHORT(_) => dt == DataType::SHORT,
            Value::CHAR(_) => dt == DataType::CHAR,
            Value::STRINGOFF(_) => false,
        }
    }

    /// The bytes that the value takes in a record, in byte order `endian`.
    pub fn write_value(&self, endian: Endian) -> (out: Vec<u8>)
        ensures
            out@ == self@.bytes(endian),
    {
        match self {
            Value::LONG(l) => write_u32(*l, endian),
            Value::STRING(s) => {
                let mut out: Vec<u8> = Vec::new();
                let mut i: usize = 0;
                while i < 32
                    invariant
                        i <= 32,
                        out@ == s@.take(i as int),
                    decreases 32 - i,
                {
                    out.push(s[i]);
                    assert(s@.take(i + 1) =~= s@.take(i as int).push(s@[i as int]));
                    i += 1;
                }
                assert(s@.take(32) =~= s@);
                out
            },
            Value::FLOAT(f) => write_u32(*f, endian),
            Value::SHORT(s) => write_u16(*s, endian),
            Value::CHAR(c) => {
                let mut out: Vec<u8> = Vec::new();
                out.push(*c);
                assert(out@ =~= seq![*c]);
                out
            },
            Value::STRINGOFF(_) => Vec::new(),
        }
    }
}

impl Default for Value {
    /// The 32-bit integer zero.
    fn default() -> (v: Value)
        ensures
            v@ == ValueView::Long(0),
    {
        Value::LONG(0)
    }
}

/// The logical value of a 32-bit field: the stored word under the field's
/// mask, shifted right by the field's shift, as an unsigned number.
pub open spec fn unpacked_long(field: Field, stored: u32) -> u32 {
    (stored & field.mask) >> field.shift
}

/// The logical value of a 16-bit field: the stored word under the low half
/// of the field's mask, shifted right by the field's shift.
pub open spec fn unpacked_short(field: Field, stored: u16) -> u16 {
    (stored & (field.mask as u16)) >> field.shift
}

/// The logical value of an 8-bit field: the stored byte shifted right by the
/// field's shift; no mask applies.
pub open spec fn unpacked_char(field: Field, stored: u8) -> u8 {
    stored >> field.shift
}

/// Decodes the logical value of a 32-bit field from its stored word.
pub fn unpack_long(field: &Field, stored: u32) -> (value: u32)
    ensures
        value == unpacked_long(*field, stored),
{
    let masked = stored & field.mask;
    let shift = field.shift;
    if shift >= 32 {
        assert(masked >> shift == 0) by (bit_vector)
            requires
                shift >= 32,
        ;
        0
    } else {
        masked >> shift
    }
}

/// Decodes the logical value of a 16-bit field from its stored word.
pub fn unpack_short(field: &Field, stored: u16) -> (value: u16)
    ensures
        value == unpacked_short(*field, stored),
{
    let masked = stored & (field.mask as u16);
    let shift = field.shift;
    if shift >= 16 {
        assert(masked >> shift == 0) by (bit_vector)
            requires
                shift >= 16,
        ;
        0
    } else {
        masked >> shift
    }
}

/// Decodes the logical value of an 8-bit field from its stored byte.
pub fn unpack_char(field: &Field, stored: u8) -> (value: u8)
    ensures
        value == unpacked_char(*field, stored),
{
    let shift = field.shift;
    if shift >= 8 {
        assert(stored >> shift == 0) by (bit_vector)
            requires
                shift >= 8,
        ;
        0
    } else {
        stored >> shift
    }
}

/// Under the full mask and without a shift the logical value is the stored
/// word itself.
pub proof fn lemma_full_mask_is_identity(field: Field, long: u32, short: u16, byte: u8)
    requires
        field.mask == 0xFFFF_FFFF,
        field.shift == 0,
    ensures
        unpacked_long(field, long) == long,
        unpacked_short(field, short) == short,
        unpacked_char(field, byte) == byte,
{
    let mask = field.mask;
    let shift = field.shift;
    assert((long & mask) >> shift == long) by (bit_vector)
        requires
            mask == 0xFFFF_FFFFu32,
            shift == 0u8,
    ;
    assert((short & (mask as u16)) >> shift == short) by (bit_vector)
        requires
            mask == 0xFFFF_FFFFu32,
            shift == 0u8,
    ;
    assert(byte >> shift == byte) by (bit_vector)
        requires
            shift == 0u8,
    ;
}

} // verus!
