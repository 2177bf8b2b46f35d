use libbcsv::codec::Value;
use libbcsv::convert::convert_to_bcsv;
use libbcsv::convert::convert_to_csv;
use libbcsv::csv::parse_label;
use libbcsv::csv::CSV;
use libbcsv::hash::calchash;
use libbcsv::hash::read_hashes;
use libbcsv::reader::parsebcsv;
use libbcsv::table::BCSV;
use libbcsv::text::format_hex;
use libbcsv::text::format_u64;
use libbcsv::text::parse_hex;
use libbcsv::text::parse_number;
use libbcsv::text::parsecsv;
use libbcsv::text::split_bytes;
use libbcsv::types::DataType;
use libbcsv::types::Endian;
use libbcsv::types::Field;
use libbcsv::types::Header;
use std::collections::HashMap;

fn fixed_text(text: &[u8]) -> [u8; 32] {
    let mut out = [0u8; 32];
    out[..text.len()].copy_from_slice(text);
    out
}

fn names(list: &[&str]) -> HashMap<u32, String> {
    list.iter().map(|n| (calchash(n), n.to_string())).collect()
}

#[test]
fn decimal_numerals() {
    assert_eq!(format_u64(0), b"0".to_vec());
    assert_eq!(format_u64(7), b"7".to_vec());
    assert_eq!(format_u64(65535), b"65535".to_vec());
    assert_eq!(format_u64(u64::MAX), b"18446744073709551615".to_vec());
    assert_eq!(parse_number(b"0", 255), Some(0));
    assert_eq!(parse_number(b"255", 255), Some(255));
    assert_eq!(parse_number(b"256", 255), None);
    assert_eq!(parse_number(b"+5", 255), Some(5));
    assert_eq!(parse_number(b"007", 255), Some(7));
    assert_eq!(parse_number(b"", 255), None);
    assert_eq!(parse_number(b"+", 255), None);
    assert_eq!(parse_number(b"-1", 255), None);
    assert_eq!(parse_number(b"1 ", 255), None);
    assert_eq!(parse_number(b"4294967295", 0xFFFF_FFFF), Some(4294967295));
    assert_eq!(parse_number(b"4294967296", 0xFFFF_FFFF), None);
    assert_eq!(parse_number(b"99999999999999999999999999", u64::MAX), None);
    assert_eq!(parse_number(b"18446744073709551615", u64::MAX), Some(u64::MAX));
}

#[test]
fn hexadecimal_numerals() {
    assert_eq!(format_hex(0), b"0".to_vec());
    assert_eq!(format_hex(0xdeadbeef), b"deadbeef".to_vec());
    assert_eq!(format_hex(0x1f), b"1f".to_vec());
    assert_eq!(parse_hex(b"1F"), Some(31));
    assert_eq!(parse_hex(b"ffffffff"), Some(0xFFFF_FFFF));
    assert_eq!(parse_hex(b"100000000"), None);
    assert_eq!(parse_hex(b""), None);
    assert_eq!(parse_hex(b"xyz"), None);
    assert_eq!(parse_hex(b"0000000001"), Some(1));
}

#[test]
fn splitting_keeps_empty_pieces() {
    assert_eq!(split_bytes(b"", b','), vec![Vec::<u8>::new()]);
    assert_eq!(split_bytes(b"a,b", b','), vec![b"a".to_vec(), b"b".to_vec()]);
    assert_eq!(split_bytes(b",a,,", b','), vec![vec![], b"a".to_vec(), vec![], vec![]]);
}

#[test]
fn carriage_returns_are_dropped() {
    assert_eq!(parsecsv(b"a:0\r\n1\r\n"), b"a:0\n1\n".to_vec());
    assert_eq!(parsecsv(b"\r\r"), Vec::<u8>::new());
    let with = CSV::new("a:0,b:4\r\n1,2\r\n").unwrap();
    let without = CSV::new("a:0,b:4\n1,2\n").unwrap();
    assert_eq!(
        convert_to_bcsv(with, Endian::Big, 0xFFFF_FFFF, &Vec::new()),
        convert_to_bcsv(without, Endian::Big, 0xFFFF_FFFF, &Vec::new())
    );
}

#[test]
fn labels_declare_hash_and_datatype() {
    let by_name = parse_label(b"id:0").unwrap();
    assert_eq!(by_name.hash, calchash("id"));
    assert_eq!(by_name.datatype, DataType::LONG);
    assert_eq!(by_name.mask, 0xFFFF_FFFF);
    assert_eq!(by_name.shift, 0);
    let by_hash = parse_label(b"0x1F:6").unwrap();
    assert_eq!(by_hash.hash, 31);
    assert_eq!(by_hash.datatype, DataType::STRINGOFF);
    let odd = parse_label(b"0xyz:5").unwrap();
    assert_eq!(odd.hash, calchash("0xyz"));
    assert_eq!(odd.datatype, DataType::CHAR);
    assert_eq!(parse_label(b"a:b:3").map(|f| f.hash), None);
    assert_eq!(parse_label(b"id"), None);
    assert_eq!(parse_label(b"id:"), None);
    assert_eq!(parse_label(b"id:7"), None);
    assert_eq!(parse_label(b"id:x"), None);
}

#[test]
fn table_becomes_text() {
    let table = BCSV {
        header: Header { entrycount: 2, fieldcount: 4, entrydataoff: 64, entrysize: 42 },
        fields: vec![
            Field { hash: calchash("id"), mask: 0x0000_FFFF, dataoff: 0, shift: 0, datatype: DataType::LONG },
            Field { hash: 0xABC, mask: 0xFFFF_FFFF, dataoff: 4, shift: 0, datatype: DataType::STRING },
            Field { hash: calchash("level"), mask: 0xFF00, dataoff: 36, shift: 8, datatype: DataType::SHORT },
            Field { hash: calchash("note"), mask: 0xFFFF_FFFF, dataoff: 38, shift: 0, datatype: DataType::STRINGOFF },
        ],
        values: vec![
            Value::LONG(0x0001_FFFF),
            Value::STRING(fixed_text(b"hello")),
            Value::SHORT(0x1234),
            Value::STRINGOFF("first".to_string()),
            Value::LONG(5),
            Value::STRING(fixed_text(b"")),
            Value::SHORT(0x00FF),
            Value::STRINGOFF(String::new()),
        ],
    };
    let text = convert_to_csv(&table, &names(&["id", "level", "note"]), &Vec::new()).unwrap();
    assert_eq!(
        String::from_utf8(text).unwrap(),
        "id:0,0xabc:1,level:4,note:6\n65535,hello,18,first\n5,,0,\n"
    );
}

#[test]
fn float_text_comes_from_the_caller() {
    let table = BCSV {
        header: Header { entrycount: 1, fieldcount: 2, entrydataoff: 40, entrysize: 5 },
        fields: vec![
            Field { hash: 1, mask: 0xFFFF_FFFF, dataoff: 0, shift: 0, datatype: DataType::FLOAT },
            Field { hash: 2, mask: 0, dataoff: 4, shift: 1, datatype: DataType::CHAR },
        ],
        values: vec![Value::FLOAT(1.5f32.to_bits()), Value::CHAR(9)],
    };
    let floats = vec![format!("{}", 1.5f32)];
    let text = convert_to_csv(&table, &HashMap::new(), &floats).unwrap();
    assert_eq!(String::from_utf8(text).unwrap(), "0x1:2,0x2:5\n1.5,4\n");
    let bare = convert_to_csv(&table, &HashMap::new(), &Vec::new()).unwrap();
    assert_eq!(String::from_utf8(bare).unwrap(), "0x1:2,0x2:5\n,4\n");
}

#[test]
fn table_without_fields_is_empty_text() {
    let table = BCSV::new();
    assert_eq!(convert_to_csv(&table, &HashMap::new(), &Vec::new()), Ok(Vec::new()));
}

#[test]
fn text_survives_the_way_through_the_binary_form() {
    let text = "id:0,label:1,name:6,size:4,kind:5,0x7f:3\n\
                5,hello,first,300,7,1\n\
                4294967295,,second,65535,255,0\n\
                0,x,first,0,0,12\n";
    let lookup = names(&["id", "label", "name", "size", "kind"]);
    for endian in [Endian::Big, Endian::Little] {
        let csv = CSV::new(text).unwrap();
        let bytes = convert_to_bcsv(csv, endian, 0xFFFF_FFFF, &Vec::new()).unwrap();
        let table = parsebcsv(&bytes, endian).unwrap();
        let back = convert_to_csv(&table, &lookup, &Vec::new()).unwrap();
        assert_eq!(String::from_utf8(back).unwrap(), text);
    }
}

#[test]
fn missing_final_line_feed_is_added() {
    let csv = CSV::new("0x1:0\n1\n2").unwrap();
    let bytes = convert_to_bcsv(csv, Endian::Big, 0xFFFF_FFFF, &Vec::new()).unwrap();
    let table = parsebcsv(&bytes, Endian::Big).unwrap();
    let back = convert_to_csv(&table, &HashMap::new(), &Vec::new()).unwrap();
    assert_eq!(String::from_utf8(back).unwrap(), "0x1:0\n1\n2\n");
}

#[test]
fn invalid_utf8_is_decoded_lossily() {
    let mut bytes = vec![
        0, 0, 0, 1, 0, 0, 0, 1, 0, 0, 0, 28, 0, 0, 0, 4, // header
        0, 0, 0, 9, 0xFF, 0xFF, 0xFF, 0xFF, 0, 0, 0, 6, // one string field
        0, 0, 0, 0, // offset 0
        b'a', 0xFF, b'b', 0, // the pool
    ];
    while bytes.len() % 32 != 0 {
        bytes.push(0x40);
    }
    let table = parsebcsv(&bytes, Endian::Big).unwrap();
    assert_eq!(table.values, vec![Value::STRINGOFF("a\u{FFFD}b".to_string())]);
    let fixed_table = BCSV {
        header: Header { entrycount: 1, fieldcount: 1, entrydataoff: 28, entrysize: 32 },
        fields: vec![Field { hash: 9, mask: 0, dataoff: 0, shift: 0, datatype: DataType::STRING }],
        values: vec![Value::STRING(fixed_text(&[b'a', 0xFF, 0, b'b']))],
    };
    let text = convert_to_csv(&fixed_table, &HashMap::new(), &Vec::new()).unwrap();
    assert_eq!(String::from_utf8(text).unwrap(), "0x9:1\na\u{FFFD}\0b\n");
}

#[test]
fn lookup_table_skips_comments() {
    let table = read_hashes("# names\nid\nlabel\n#hidden\nid");
    assert_eq!(table.len(), 2);
    assert_eq!(table.get(&calchash("id")), Some(&"id".to_string()));
    assert_eq!(table.get(&calchash("label")), Some(&"label".to_string()));
    assert_eq!(table.get(&calchash("#hidden")), None);
    let empty_line = read_hashes("a\n");
    assert_eq!(empty_line.get(&0), Some(&String::new()));
    assert_eq!(empty_line.len(), 2);
}
