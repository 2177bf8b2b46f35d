use libbcsv::codec::Value;
use libbcsv::convert::convert_to_bcsv;
use libbcsv::csv::CSV;
use libbcsv::reader::parsebcsv;
use libbcsv::table::BCSV;
use libbcsv::types::BcsvError;
use libbcsv::types::DataType;
use libbcsv::types::Endian;
use libbcsv::types::Field;
use libbcsv::types::Header;

fn fixed(text: &str) -> [u8; 32] {
    let mut out = [0u8; 32];
    out[..text.len()].copy_from_slice(text.as_bytes());
    out
}

#[test]
fn long_and_fixed_string_survive_a_round_trip() {
    let csv = CSV::new("id:0,label:1\n5,hello\n").unwrap();
    let bytes = convert_to_bcsv(csv, Endian::Big, 0xFFFF_FFFF, &Vec::new()).unwrap();
    let table = parsebcsv(&bytes, Endian::Big).unwrap();
    assert_eq!(table.header.entrysize, 36);
    assert_eq!(table.header.entrycount, 1);
    assert_eq!(table.header.fieldcount, 2);
    assert_eq!(table.header.entrydataoff, 16 + 12 * 2);
    assert_eq!(table.values, vec![Value::LONG(5), Value::STRING(fixed("hello"))]);
    assert_eq!(bytes.len() % 32, 0);
}

#[test]
fn repeated_string_is_pooled_once() {
    let mut csv = CSV::new("label:6\ndup\ndup\n").unwrap();
    let pool = csv.create_stringtable();
    assert_eq!(pool, b"dup\0".to_vec());
    let mut table = csv.generate_bcsv();
    csv.create_values(&mut table, &Vec::new()).unwrap();
    assert_eq!(table.values, vec![Value::LONG(0), Value::LONG(0)]);
}

#[test]
fn distinct_strings_are_pooled_in_order_of_first_appearance() {
    let mut csv = CSV::new("a:6,n:0,b:6\nx,1,yy\nyy,2,x\nzzz,3,x\n").unwrap();
    let pool = csv.create_stringtable();
    assert_eq!(pool, b"x\0yy\0zzz\0".to_vec());
    let mut table = csv.generate_bcsv();
    csv.create_values(&mut table, &Vec::new()).unwrap();
    let words: Vec<u32> = table
        .values
        .iter()
        .map(|v| match v {
            Value::LONG(x) => *x,
            _ => panic!("not a number"),
        })
        .collect();
    assert_eq!(words, vec![0, 1, 2, 2, 2, 0, 5, 3, 0]);
}

#[test]
fn strings_resolve_after_a_round_trip() {
    let csv = CSV::new("name:6,value:0\nfirst,10\nsecond,20\nfirst,30").unwrap();
    let bytes = convert_to_bcsv(csv, Endian::Little, 0xFFFF_FFFF, &Vec::new()).unwrap();
    assert_eq!(bytes.len() % 32, 0);
    let table = parsebcsv(&bytes, Endian::Little).unwrap();
    assert_eq!(
        table.values,
        vec![
            Value::STRINGOFF("first".to_string()),
            Value::LONG(10),
            Value::STRINGOFF("second".to_string()),
            Value::LONG(20),
            Value::STRINGOFF("first".to_string()),
            Value::LONG(30),
        ]
    );
}

#[test]
fn file_layout_is_exact() {
    let csv = CSV::new("0x2:4,0x1:5\n258,7\n").unwrap();
    let bytes = convert_to_bcsv(csv, Endian::Big, 0x0000_FFFF, &Vec::new()).unwrap();
    let mut expected: Vec<u8> = vec![
        0, 0, 0, 1, // one row
        0, 0, 0, 2, // two fields
        0, 0, 0, 40, // records begin behind header and descriptors
        0, 0, 0, 3, // record size
        0, 0, 0, 2, 0, 0, 0xFF, 0xFF, 0, 1, 0, 4, // hash 2: short at offset 1
        0, 0, 0, 1, 0, 0, 0xFF, 0xFF, 0, 0, 0, 5, // hash 1: char at offset 0
        7, 1, 2, // the record
    ];
    while expected.len() % 32 != 0 {
        expected.push(0x40);
    }
    assert_eq!(bytes, expected);
    let little = convert_to_bcsv(
        CSV::new("0x2:4,0x1:5\n258,7\n").unwrap(),
        Endian::Little,
        0x0000_FFFF,
        &Vec::new(),
    )
    .unwrap();
    assert_eq!(&little[0..4], &[1, 0, 0, 0]);
    assert_eq!(&little[40..43], &[7, 2, 1]);
}

#[test]
fn float_bits_come_from_the_caller() {
    let csv = CSV::new("x:2\n1.5\n").unwrap();
    assert_eq!(csv.len(), 1);
    assert_eq!(csv.float_cell(0), Some(&b"1.5"[..]));
    let bits = 1.5f32.to_bits();
    let bytes = convert_to_bcsv(csv, Endian::Big, 0xFFFF_FFFF, &vec![Some(bits)]).unwrap();
    let table = parsebcsv(&bytes, Endian::Big).unwrap();
    assert_eq!(table.values, vec![Value::FLOAT(bits)]);
    let missing = convert_to_bcsv(
        CSV::new("x:2\n1.5\n").unwrap(),
        Endian::Big,
        0xFFFF_FFFF,
        &Vec::new(),
    );
    assert_eq!(missing, Err(BcsvError::NumericParse));
}

#[test]
fn written_table_reads_back() {
    let table = BCSV {
        header: Header { entrycount: 2, fieldcount: 3, entrydataoff: 16 + 36, entrysize: 7 },
        fields: vec![
            Field { hash: 30, mask: 0xFFFF_FFFF, dataoff: 3, shift: 0, datatype: DataType::LONG },
            Field { hash: 10, mask: 0xFF, dataoff: 0, shift: 1, datatype: DataType::CHAR },
            Field { hash: 20, mask: 0xFFFF, dataoff: 1, shift: 0, datatype: DataType::SHORT },
        ],
        values: vec![
            Value::LONG(0xDEAD_BEEF),
            Value::CHAR(200),
            Value::SHORT(0x1234),
            Value::LONG(1),
            Value::CHAR(2),
            Value::SHORT(3),
        ],
    };
    for endian in [Endian::Big, Endian::Little] {
        let bytes = table.write_options(endian).unwrap();
        assert_eq!(bytes.len(), 16 + 36 + 14);
        assert_eq!(parsebcsv(&bytes, endian).unwrap(), table);
    }
}

fn mixed_table() -> BCSV {
    BCSV {
        header: Header { entrycount: 3, fieldcount: 5, entrydataoff: 16 + 60, entrysize: 43 },
        fields: vec![
            Field { hash: 50, mask: 0xFFFF_FFFF, dataoff: 39, shift: 0, datatype: DataType::STRINGOFF },
            Field { hash: 10, mask: 0x00FF_0000, dataoff: 0, shift: 16, datatype: DataType::LONG2 },
            Field { hash: 20, mask: 0xFFFF_FFFF, dataoff: 4, shift: 0, datatype: DataType::STRING },
            Field { hash: 30, mask: 0xFFFF_FFFF, dataoff: 36, shift: 0, datatype: DataType::SHORT },
            Field { hash: 40, mask: 0xFFFF_FFFF, dataoff: 38, shift: 3, datatype: DataType::CHAR },
        ],
        values: vec![
            Value::STRINGOFF("alpha".to_string()),
            Value::LONG(0xAABB_CCDD),
            Value::STRING(fixed("one")),
            Value::SHORT(0xFFFF),
            Value::CHAR(0x80),
            Value::STRINGOFF("b\u{e9}ta".to_string()),
            Value::LONG(0),
            Value::STRING([0xFF; 32]),
            Value::SHORT(0),
            Value::CHAR(0),
            Value::STRINGOFF("alpha".to_string()),
            Value::LONG(1),
            Value::STRING(fixed("")),
            Value::SHORT(2),
            Value::CHAR(3),
        ],
    }
}

#[test]
fn encoded_table_decodes_to_itself() {
    let table = mixed_table();
    for endian in [Endian::Big, Endian::Little] {
        let bytes = table.to_bytes(endian).unwrap();
        assert_eq!(bytes.len() % 32, 0);
        assert_eq!(parsebcsv(&bytes, endian).unwrap(), table);
    }
}

#[test]
fn encoded_table_pools_each_text_once() {
    let bytes = mixed_table().to_bytes(Endian::Big).unwrap();
    let pool_start = 16 + 60 + 3 * 43;
    let pool = "alpha\0b\u{e9}ta\0".as_bytes();
    assert_eq!(&bytes[pool_start..pool_start + pool.len()], pool);
    assert!(bytes[pool_start + pool.len()..].iter().all(|b| *b == 0x40));
    let offset = |row: usize| &bytes[16 + 60 + row * 43 + 39..16 + 60 + row * 43 + 43];
    assert_eq!(offset(0), &[0, 0, 0, 0]);
    assert_eq!(offset(1), &[0, 0, 0, 6]);
    assert_eq!(offset(2), &[0, 0, 0, 0]);
}

#[test]
fn misplaced_values_are_not_encoded() {
    let mut table = mixed_table();
    table.values[0] = Value::LONG(0);
    assert_eq!(table.to_bytes(Endian::Big), Err(BcsvError::MalformedHeader));
    let mut table = mixed_table();
    table.values[1] = Value::STRINGOFF("x".to_string());
    assert_eq!(table.to_bytes(Endian::Big), Err(BcsvError::MalformedHeader));
    let mut table = mixed_table();
    table.values.pop();
    assert_eq!(table.to_bytes(Endian::Big), Err(BcsvError::MalformedHeader));
    let mut table = mixed_table();
    table.fields[3].dataoff = 42;
    assert_eq!(table.to_bytes(Endian::Big), Err(BcsvError::FieldDecode { offset: 42 }));
    let empty = BCSV { header: mixed_table().header, fields: Vec::new(), values: vec![Value::CHAR(1)] };
    assert_eq!(empty.to_bytes(Endian::Big), Err(BcsvError::MalformedHeader));
}

#[test]
fn text_with_a_zero_character_is_cut_at_it() {
    let table = BCSV {
        header: Header { entrycount: 1, fieldcount: 1, entrydataoff: 28, entrysize: 4 },
        fields: vec![Field { hash: 1, mask: 0, dataoff: 0, shift: 0, datatype: DataType::STRINGOFF }],
        values: vec![Value::STRINGOFF("ab\0cd".to_string())],
    };
    let bytes = table.to_bytes(Endian::Little).unwrap();
    let back = parsebcsv(&bytes, Endian::Little).unwrap();
    assert_eq!(back.values, vec![Value::STRINGOFF("ab".to_string())]);
}

#[test]
fn table_without_rows_is_header_and_fill() {
    let table = BCSV {
        header: Header { entrycount: 0, fieldcount: 0, entrydataoff: 16, entrysize: 0 },
        fields: Vec::new(),
        values: Vec::new(),
    };
    let bytes = table.to_bytes(Endian::Big).unwrap();
    let mut expected = vec![0, 0, 0, 0, 0, 0, 0, 0, 0, 0, 0, 16, 0, 0, 0, 0];
    expected.resize(32, 0x40);
    assert_eq!(bytes, expected);
    assert_eq!(parsebcsv(&bytes, Endian::Big).unwrap(), table);
    assert_eq!(BCSV::new().to_bytes(Endian::Big), Err(BcsvError::MalformedHeader));
}
