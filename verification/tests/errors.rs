use libbcsv::codec::Value;
use libbcsv::convert::convert_to_bcsv;
use libbcsv::convert::convert_to_csv;
use libbcsv::csv::CSV;
use libbcsv::layout::assign_offsets;
use libbcsv::reader::parsebcsv;
use libbcsv::seektask::read_field;
use libbcsv::seektask::read_stringoff;
use libbcsv::seektask::SeekTask;
use libbcsv::seektask::Stream;
use libbcsv::table::BCSV;
use libbcsv::types::BcsvError;
use libbcsv::types::DataType;
use libbcsv::types::Endian;
use libbcsv::types::Field;
use libbcsv::types::Header;
use std::collections::HashMap;

fn field(hash: u32, datatype: DataType) -> Field {
    Field { hash, mask: 0xFFFF_FFFF, dataoff: 0, shift: 0, datatype }
}

fn error_of(text: &str) -> Option<BcsvError> {
    match CSV::new(text) {
        Ok(csv) => convert_to_bcsv(csv, Endian::Big, 0xFFFF_FFFF, &Vec::new()).err(),
        Err(err) => Some(err),
    }
}

fn sample() -> Vec<u8> {
    let csv = CSV::new("0x1:0,0x2:6\n7,seven\n8,eight\n").unwrap();
    convert_to_bcsv(csv, Endian::Big, 0xFFFF_FFFF, &Vec::new()).unwrap()
}

#[test]
fn datatype_sizes_and_tags() {
    let sizes = [4u16, 32, 4, 4, 2, 1, 4];
    for tag in 0u8..7 {
        let datatype = DataType::from_tag(tag).unwrap();
        assert_eq!(datatype.tag(), tag);
        assert_eq!(datatype.getdtsize(), sizes[tag as usize]);
        assert_eq!(field(0, datatype).getdtsize(), sizes[tag as usize]);
        assert_eq!(field(0, datatype).is_stringoff(), tag == 6);
    }
    assert_eq!(DataType::from_tag(7), Err(BcsvError::InvalidDatatype));
    assert_eq!(DataType::from_tag(255), Err(BcsvError::InvalidDatatype));
    assert_eq!(Field::new(), field(0, DataType::LONG));
    assert_eq!(Value::default(), Value::LONG(0));
    assert!(Value::STRINGOFF(String::new()).is_stringoff());
    assert!(!Value::LONG(6).is_stringoff());
}

#[test]
fn offsets_follow_the_order_of_hashes() {
    let mut fields = vec![
        field(30, DataType::LONG),
        field(10, DataType::STRING),
        field(20, DataType::SHORT),
        field(5, DataType::CHAR),
    ];
    assert_eq!(assign_offsets(&mut fields), Ok(39));
    let offsets: Vec<u16> = fields.iter().map(|f| f.dataoff).collect();
    assert_eq!(offsets, vec![35, 1, 33, 0]);
    assert_eq!(fields[0].hash, 30);
}

#[test]
fn offsets_do_not_depend_on_declaration_order() {
    let mut one = vec![field(3, DataType::SHORT), field(1, DataType::LONG), field(2, DataType::CHAR)];
    let mut other = vec![field(2, DataType::CHAR), field(3, DataType::SHORT), field(1, DataType::LONG)];
    assert_eq!(assign_offsets(&mut one), assign_offsets(&mut other));
    for a in &one {
        let b = other.iter().find(|b| b.hash == a.hash).unwrap();
        assert_eq!(a.dataoff, b.dataoff);
    }
}

#[test]
fn equal_hashes_keep_declaration_order() {
    let mut fields = vec![field(7, DataType::SHORT), field(1, DataType::CHAR), field(7, DataType::SHORT)];
    assert_eq!(assign_offsets(&mut fields), Ok(5));
    let offsets: Vec<u16> = fields.iter().map(|f| f.dataoff).collect();
    assert_eq!(offsets, vec![1, 0, 3]);
}

#[test]
fn conflicting_datatypes_are_refused() {
    let mut fields = vec![field(7, DataType::SHORT), field(7, DataType::LONG)];
    let before = fields.clone();
    assert_eq!(assign_offsets(&mut fields), Err(BcsvError::SchemaConflict));
    assert_eq!(fields, before);
    assert_eq!(error_of("a:0,a:4\n1,2\n"), Some(BcsvError::SchemaConflict));
}

#[test]
fn oversized_record_is_refused() {
    let mut fields: Vec<Field> = (0..2048).map(|h| field(h, DataType::STRING)).collect();
    assert_eq!(assign_offsets(&mut fields), Err(BcsvError::MalformedHeader));
    fields.truncate(2047);
    assert_eq!(assign_offsets(&mut fields), Ok(2047 * 32));
}

#[test]
fn bad_text_tables_are_refused() {
    assert_eq!(error_of(""), Some(BcsvError::InvalidDatatype));
    assert_eq!(error_of("a\n1\n"), Some(BcsvError::InvalidDatatype));
    assert_eq!(error_of("a:9\n1\n"), Some(BcsvError::InvalidDatatype));
    assert_eq!(error_of("a:0,b:0\n1\n"), Some(BcsvError::MalformedHeader));
    assert_eq!(error_of("a:0\n1,2\n"), Some(BcsvError::MalformedHeader));
    assert_eq!(error_of("a:0\n\n"), Some(BcsvError::NumericParse));
    assert_eq!(error_of("a:0\nx\n"), Some(BcsvError::NumericParse));
    assert_eq!(error_of("a:0\n4294967296\n"), Some(BcsvError::NumericParse));
    assert_eq!(error_of("a:4\n65536\n"), Some(BcsvError::NumericParse));
    assert_eq!(error_of("a:5\n256\n"), Some(BcsvError::NumericParse));
    assert_eq!(error_of("a:5\n-1\n"), Some(BcsvError::NumericParse));
    assert_eq!(error_of("a:2\n1.0\n"), Some(BcsvError::NumericParse));
    assert_eq!(error_of("a:1\n0123456789012345678901234567890123\n"), Some(BcsvError::NumericParse));
    assert_eq!(error_of("a:1\n01234567890123456789012345678901\n"), None);
    assert_eq!(error_of("a:0"), None);
}

#[test]
fn short_buffers_are_refused() {
    let bytes = sample();
    assert_eq!(parsebcsv(&bytes[..15], Endian::Big), Err(BcsvError::TruncatedInput));
    assert_eq!(parsebcsv(&bytes[..30], Endian::Big), Err(BcsvError::TruncatedInput));
    assert_eq!(parsebcsv(&bytes[..50], Endian::Big), Err(BcsvError::TruncatedInput));
    assert_eq!(parsebcsv(&[], Endian::Big), Err(BcsvError::TruncatedInput));
    let end_of_pool = 40 + 16 + 12;
    assert_eq!(bytes[end_of_pool - 1], 0);
    assert_eq!(bytes[end_of_pool], 0x40);
    assert!(parsebcsv(&bytes[..end_of_pool], Endian::Big).is_ok());
    assert_eq!(parsebcsv(&bytes[..end_of_pool - 1], Endian::Big), Err(BcsvError::TruncatedInput));
}

#[test]
fn inconsistent_headers_are_refused() {
    let mut bytes = sample();
    bytes[11] = 41;
    assert_eq!(parsebcsv(&bytes, Endian::Big), Err(BcsvError::MalformedHeader));
    let mut bytes = sample();
    bytes[15] = 9;
    assert_eq!(parsebcsv(&bytes, Endian::Big), Err(BcsvError::MalformedHeader));
    assert_eq!(parsebcsv(&sample(), Endian::Little), Err(BcsvError::MalformedHeader));
}

#[test]
fn unknown_tag_is_refused() {
    let mut bytes = sample();
    bytes[16 + 11] = 7;
    assert_eq!(parsebcsv(&bytes, Endian::Big), Err(BcsvError::InvalidDatatype));
}

#[test]
fn field_across_the_record_end_is_refused() {
    let mut bytes = sample();
    bytes[16 + 12 + 9] = 5;
    assert_eq!(parsebcsv(&bytes, Endian::Big), Err(BcsvError::FieldDecode { offset: 5 }));
    let table = BCSV {
        header: Header { entrycount: 1, fieldcount: 1, entrydataoff: 28, entrysize: 4 },
        fields: vec![Field { hash: 1, mask: 0, dataoff: 1, shift: 0, datatype: DataType::LONG }],
        values: vec![Value::LONG(1)],
    };
    assert_eq!(table.write_options(Endian::Big), Err(BcsvError::FieldDecode { offset: 1 }));
}

#[test]
fn inconsistent_tables_are_not_written() {
    let good = BCSV {
        header: Header { entrycount: 1, fieldcount: 1, entrydataoff: 28, entrysize: 4 },
        fields: vec![field(1, DataType::LONG)],
        values: vec![Value::LONG(1)],
    };
    assert!(good.write_options(Endian::Big).is_ok());
    let mut wrong = good.clone();
    wrong.header.entrycount = 2;
    assert_eq!(wrong.write_options(Endian::Big), Err(BcsvError::MalformedHeader));
    let mut wrong = good.clone();
    wrong.header.entrysize = 5;
    assert_eq!(wrong.write_options(Endian::Big), Err(BcsvError::MalformedHeader));
    let mut wrong = good.clone();
    wrong.header.entrydataoff = 16;
    assert_eq!(wrong.write_options(Endian::Big), Err(BcsvError::MalformedHeader));
    let mut wrong = good.clone();
    wrong.values = vec![Value::CHAR(1)];
    assert_eq!(wrong.write_options(Endian::Big), Err(BcsvError::MalformedHeader));
    let mut wrong = good.clone();
    wrong.values = vec![Value::STRINGOFF("x".to_string())];
    assert_eq!(wrong.write_options(Endian::Big), Err(BcsvError::MalformedHeader));
}

#[test]
fn broken_rows_are_not_rendered() {
    let table = BCSV {
        header: Header { entrycount: 1, fieldcount: 2, entrydataoff: 40, entrysize: 8 },
        fields: vec![field(1, DataType::LONG), field(2, DataType::LONG)],
        values: vec![Value::LONG(1), Value::LONG(2), Value::LONG(3)],
    };
    assert_eq!(
        convert_to_csv(&table, &HashMap::new(), &Vec::new()),
        Err(BcsvError::MalformedHeader)
    );
    let no_fields = BCSV { header: table.header, fields: Vec::new(), values: vec![Value::LONG(1)] };
    assert_eq!(
        convert_to_csv(&no_fields, &HashMap::new(), &Vec::new()),
        Err(BcsvError::MalformedHeader)
    );
}

#[test]
fn padding_is_at_signs_up_to_a_multiple_of_32() {
    for rows in 0..40 {
        let mut text = String::from("0x1:5,0x2:6\n");
        for row in 0..rows {
            text.push_str(&format!("{},s{}\n", row, row % 3));
        }
        let csv = CSV::new(&text).unwrap();
        let bytes = convert_to_bcsv(csv, Endian::Little, 0xFFFF_FFFF, &Vec::new()).unwrap();
        assert_eq!(bytes.len() % 32, 0);
        let pool: usize = if rows == 0 { 0 } else if rows == 1 { 3 } else if rows == 2 { 6 } else { 9 };
        let body = 40 + 5 * rows + pool;
        assert!(bytes.len() - body < 32);
        assert!(bytes[body..].iter().all(|b| *b == 0x40));
    }
}

#[test]
fn scoped_seek_restores_the_cursor() {
    let mut stream = Stream::new(vec![1, 2, 3, 4, 5]);
    stream.position = 2;
    let seen = stream.seektask(4, |s: &Stream| (s.position, s.remaining().to_vec()));
    assert_eq!(seen, (4, vec![5]));
    assert_eq!(stream.position, 2);
    assert_eq!(stream.remaining(), &[3, 4, 5]);
    let beyond = stream.seektask(9, |s: &Stream| s.remaining().len());
    assert_eq!(beyond, 0);
    assert_eq!(stream.position, 2);
}

#[test]
fn single_fields_are_read_in_place() {
    let bytes = sample();
    let table = parsebcsv(&bytes, Endian::Big).unwrap();
    let mut stream = Stream::new(bytes);
    stream.position = 3;
    assert_eq!(read_field(&table, 0, 1, &mut stream, Endian::Big), Ok(Value::LONG(8)));
    assert_eq!(read_field(&table, 1, 1, &mut stream, Endian::Big), Ok(Value::LONG(6)));
    assert_eq!(read_stringoff(&table, 1, 0, &mut stream, Endian::Big), Ok("seven".to_string()));
    assert_eq!(read_stringoff(&table, 1, 1, &mut stream, Endian::Big), Ok("eight".to_string()));
    assert_eq!(read_field(&table, 2, 0, &mut stream, Endian::Big), Err(BcsvError::MalformedHeader));
    assert_eq!(read_field(&table, 0, 9, &mut stream, Endian::Big), Err(BcsvError::TruncatedInput));
    assert_eq!(stream.position, 3);
}
