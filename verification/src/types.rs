use vstd::prelude::*;

verus! {

/// Byte order of every multi-byte integer in a binary table.
#[derive(Debug, Clone, Copy, PartialEq, Eq, Structural)]
pub enum Endian {
    Big,
    Little,
}

/// Everything that can go wrong while converting a table.
#[derive(Debug, Clone, Copy, PartialEq, Eq, Structural)]
pub enum BcsvError {
    /// Counts, sizes or offsets that contradict each other or do not fit
    /// the fields that must hold them.
    MalformedHeader,
    /// A read would pass the end of the buffer.
    TruncatedInput,
    /// A datatype tag outside the known set.
    InvalidDatatype,
    /// Two declared fields share a hash but not a datatype.
    SchemaConflict,
    /// A text cell is not a value of its column's datatype.
    NumericParse,
    /// A field's storage crosses the end of its record; `offset` is the
    /// field's byte offset within the record.
    FieldDecode { offset: u16 },
}

/// The closed set of column datatypes.
#[derive(Debug, Clone, Copy, PartialEq, Eq, Structural)]
pub enum DataType {
    /// 32-bit integer, tag 0.
    LONG,
    /// 32 raw bytes, tag 1.
    STRING,
    /// 32-bit IEEE-754 number, tag 2.
    FLOAT,
    /// 32-bit integer under a second tag, tag 3.
    LONG2,
    /// 16-bit integer, tag 4.
    SHORT,
    /// 8-bit integer, tag 5.
    CHAR,
    /// 32-bit offset into the string pool, tag 6.
    STRINGOFF,
}

impl DataType {
    /// The tag byte that stands for this datatype in a field descriptor.
    pub open spec fn spec_tag(self) -> u8 {
        match self {
            DataType::LONG => 0,
            DataType::STRING => 1,
            DataType::FLOAT => 2,
            DataType::LONG2 => 3,
            DataType::SHORT => 4,
            DataType::CHAR => 5,
            DataType::STRINGOFF => 6,
        }
    }

    /// The number of bytes a value of this datatype takes in a record.
    pub open spec fn spec_size(self) -> u16 {
        match self {
            DataType::LONG | DataType::FLOAT | DataType::LONG2 | DataType::STRINGOFF => 4,
            DataType::STRING => 32,
            DataType::SHORT => 2,
            DataType::CHAR => 1,
        }
    }

    /// The datatype a tag byte stands for, if any.
    pub open spec fn spec_from_tag(tag: u8) -> Option<DataType> {
        if tag == 0 {
            Some(DataType::LONG)
        } else if tag == 1 {
            Some(DataType::STRING)
        } else if tag == 2 {
            Some(DataType::FLOAT)
        } else if tag == 3 {
            Some(DataType::LONG2)
        } else if tag == 4 {
            Some(DataType::SHORT)
        } else if tag == 5 {
            Some(DataType::CHAR)
        } else if tag == 6 {
            Some(DataType::STRINGOFF)
        } else {
            None
        }
    }

    /// The tag byte that stands for this datatype in a field descriptor.
    #[verifier::when_used_as_spec(spec_tag)]
    pub fn tag(self) -> (tag: u8)
        ensures
            tag == self.spec_tag(),
    {
        match self {
            DataType::LONG => 0,
            DataType::STRING => 1,
            DataType::FLOAT => 2,
            DataType::LONG2 => 3,
            DataType::SHORT => 4,
            DataType::CHAR => 5,
            DataType::STRINGOFF => 6,
        }
    }

    /// Checked conversion from a stored tag byte.
    pub fn from_tag(tag: u8) -> (r: Result<DataType, BcsvError>)
        ensures
            match DataType::spec_from_tag(tag) {
                Some(dt) => r == Ok::<DataType, BcsvError>(dt),
                None => r == Err::<DataType, BcsvError>(BcsvError::InvalidDatatype),
            },
    {
        match tag {
            0 => Ok(DataType::LONG),
            1 => Ok(DataType::STRING),
            2 => Ok(DataType::FLOAT),
            3 => Ok(DataType::LONG2),
            4 => Ok(DataType::SHORT),
            5 => Ok(DataType::CHAR),
            6 => Ok(DataType::STRINGOFF),
            _ => Err(BcsvError::InvalidDatatype),
        }
    }

    /// The number of bytes a value of this datatype takes in a record.
    #[verifier::when_used_as_spec(spec_size)]
    pub fn getdtsize(self) -> (size: u16)
        ensures
            size == self.spec_size(),
    {
        match self {
            DataType::LONG | DataType::FLOAT | DataType::LONG2 | DataType::STRINGOFF => 4,
            DataType::STRING => 32,
            DataType::SHORT => 2,
            DataType::CHAR => 1,
        }
    }
}

/// The fixed-size head of a binary table.
#[derive(Debug, Clone, Copy, PartialEq, Eq, Structural)]
pub struct Header {
    /// Number of rows.
    pub entrycount: u32,
    /// Number of fields.
    pub fieldcount: u32,
    /// Byte position at which the records begin.
    pub entrydataoff: u32,
    /// Byte size of one record.
    pub entrysize: u32,
}

/// One column of a table.
#[derive(Debug, Clone, Copy, PartialEq, Eq, Structural)]
pub struct Field {
    /// The hash of the field's name, or the hash that was declared for it.
    pub hash: u32,
    /// The bits of the stored word that belong to the field.
    pub mask: u32,
    /// The byte offset of the field within a record.
    pub dataoff: u16,
    /// The number of bits by which the masked word is shifted right.
    pub shift: u8,
    /// The datatype of the field's values.
    pub datatype: DataType,
}

impl Field {
    /// The number of bytes this field takes in a record.
    pub open spec fn spec_getdtsize(&self) -> u16 {
        self.datatype.spec_size()
    }

    /// The field is a string column.
    pub open spec fn spec_is_stringoff(&self) -> bool {
        self.datatype == DataType::STRINGOFF
    }

    /// The number of bytes this field takes in a record.
    #[verifier::when_used_as_spec(spec_getdtsize)]
    pub fn getdtsize(&self) -> (size: u16)
        ensures
            size == self.datatype.spec_size(),
    {
        self.datatype.getdtsize()
    }

    /// Tells whether the field is a string column.
    #[verifier::when_used_as_spec(spec_is_stringoff)]
    pub fn is_stringoff(&self) -> (b: bool)
        ensures
            b == (self.datatype == DataType::STRINGOFF),
    {
        self.datatype == DataType::STRINGOFF
    }

    /// A 32-bit integer field with hash zero, the full mask and no shift.
    pub fn new() -> (field: Field)
        ensures
            field == (Field {
                hash: 0,
                mask: 0xFFFF_FFFF,
                dataoff: 0,
                shift: 0,
                datatype: DataType::LONG,
            }),
    {
        Field { hash: 0, mask: 0xFFFF_FFFF, dataoff: 0, shift: 0, datatype: DataType::LONG }
    }
}

} // verus!
