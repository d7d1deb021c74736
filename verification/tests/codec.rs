use weechat_relay::conversions::bytes_to_i32;
use weechat_relay::errors::WeechatError;
use weechat_relay::message::Object;
use weechat_relay::parse::Parse;

fn parse_error(text: &str) -> WeechatError {
    WeechatError::ParseError(text.to_string())
}

fn string_bytes(text: &str) -> Vec<u8> {
    let mut bytes = (text.len() as i32).to_be_bytes().to_vec();
    bytes.extend_from_slice(text.as_bytes());
    bytes
}

fn short_bytes(text: &[u8]) -> Vec<u8> {
    let mut bytes = vec![text.len() as u8];
    bytes.extend_from_slice(text);
    bytes
}

#[test]
fn bytes_to_i32_reads_big_endian() {
    assert_eq!(bytes_to_i32(&[0, 0, 1, 2]).unwrap(), 258);
    assert_eq!(bytes_to_i32(&[0x12, 0x34, 0x56, 0x78]).unwrap(), 0x12345678);
    assert_eq!(bytes_to_i32(&[0xff, 0xff, 0xff, 0xff]).unwrap(), -1);
    assert_eq!(bytes_to_i32(&[0x80, 0, 0, 0]).unwrap(), i32::MIN);
    assert_eq!(bytes_to_i32(&[0x7f, 0xff, 0xff, 0xff]).unwrap(), i32::MAX);
}

#[test]
fn bytes_to_i32_inverts_to_be_bytes() {
    for x in [0, 1, -1, 255, 256, -256, 65536, 0x7fff_ffff, -0x8000_0000, 1_321_993_456, -77] {
        assert_eq!(bytes_to_i32(&i32::to_be_bytes(x)).unwrap(), x);
    }
}

#[test]
fn bytes_to_i32_wants_four_bytes() {
    let wrong = parse_error("Cannot cast bytes to i32");
    assert_eq!(bytes_to_i32(&[]).unwrap_err(), wrong);
    assert_eq!(bytes_to_i32(&[1, 2, 3]).unwrap_err(), wrong);
    assert_eq!(bytes_to_i32(&[1, 2, 3, 4, 5]).unwrap_err(), wrong);
}

#[test]
fn character_is_one_raw_byte() {
    let parsed = Parse::character(&[0x41, 0x42]).unwrap();
    assert_eq!(parsed.bytes_read, 1);
    assert_eq!(parsed.object.as_character().unwrap(), 'A');
    let parsed = Parse::character(&[0xff]).unwrap();
    assert_eq!(parsed.object.as_character().unwrap(), '\u{ff}');
    assert_eq!(
        Parse::character(&[]).unwrap_err(),
        parse_error("Not enough bytes to parse character")
    );
}

#[test]
fn integer_is_four_bytes() {
    let parsed = Parse::integer(&[0xff, 0xff, 0xff, 0xfe, 9, 9]).unwrap();
    assert_eq!(parsed.bytes_read, 4);
    assert_eq!(parsed.object.as_integer().unwrap(), -2);
    assert_eq!(
        Parse::integer(&[0, 0, 1]).unwrap_err(),
        parse_error("Not enough bytes to parse int")
    );
}

#[test]
fn long_is_decimal_text() {
    let parsed = Parse::long(&short_bytes(b"1234567890")).unwrap();
    assert_eq!(parsed.bytes_read, 11);
    assert_eq!(parsed.object.as_long().unwrap(), 1_234_567_890);
    let parsed = Parse::long(&short_bytes(b"-9223372036854775808")).unwrap();
    assert_eq!(parsed.object.as_long().unwrap(), i64::MIN);
    let parsed = Parse::long(&short_bytes(b"9223372036854775807")).unwrap();
    assert_eq!(parsed.object.as_long().unwrap(), i64::MAX);
    let parsed = Parse::long(&short_bytes(b"+42")).unwrap();
    assert_eq!(parsed.object.as_long().unwrap(), 42);
    let parsed = Parse::long(&short_bytes(b"-0")).unwrap();
    assert_eq!(parsed.object.as_long().unwrap(), 0);
    let parsed = Parse::long(&short_bytes(b"0000000000000000000000000000017")).unwrap();
    assert_eq!(parsed.object.as_long().unwrap(), 17);
    assert_eq!(parsed.bytes_read, 32);
}

#[test]
fn long_agrees_with_the_standard_parser() {
    let texts: [&[u8]; 14] = [
        b"0", b"7", b"-7", b"+7", b"", b"-", b"+", b"12a", b" 12", b"--1", b"1-",
        b"9223372036854775808", b"-9223372036854775809", b"99999999999999999999999",
    ];
    for text in texts {
        let expected = std::str::from_utf8(text).unwrap().parse::<i64>().ok();
        let bytes = if text.is_empty() { vec![0, 0] } else { short_bytes(text) };
        let got = Parse::long(&bytes).ok().map(|p| p.object.as_long().unwrap());
        assert_eq!(got, expected);
    }
}

#[test]
fn long_rejects_what_is_not_a_number() {
    let failed = parse_error("String to long conversion failed");
    assert_eq!(Parse::long(&short_bytes(b"12x4")).unwrap_err(), failed);
    assert_eq!(Parse::long(&short_bytes(b"9223372036854775808")).unwrap_err(), failed);
    assert_eq!(Parse::long(&[0, 0x31]).unwrap_err(), failed);
    assert_eq!(Parse::long(&[0]).unwrap_err(), failed);
    assert_eq!(
        Parse::long(&[]).unwrap_err(),
        parse_error("Not enough bytes to parse long")
    );
    assert_eq!(
        Parse::long(&[1]).unwrap_err(),
        parse_error("Long larger then available bytes")
    );
    assert_eq!(
        Parse::long(&[5, 0x31, 0x32]).unwrap_err(),
        parse_error("Long larger then available bytes")
    );
    assert_eq!(
        Parse::long(&[0x80, 0x31, 0x32]).unwrap_err(),
        parse_error("Long has a negative size")
    );
    assert_eq!(
        Parse::long(&[2, 0xc3, 0x28]).unwrap_err(),
        parse_error("Parsed invalid utf8 string")
    );
}

#[test]
fn time_is_decimal_seconds() {
    let parsed = Parse::time(&short_bytes(b"1321993456")).unwrap();
    assert_eq!(parsed.bytes_read, 11);
    assert_eq!(parsed.object.as_time().unwrap(), 1_321_993_456);
    let parsed = Parse::time(&short_bytes(b"-2147483648")).unwrap();
    assert_eq!(parsed.object.as_time().unwrap(), i32::MIN);
    assert_eq!(
        Parse::time(&short_bytes(b"2147483648")).unwrap_err(),
        parse_error("String to i32 conversion failed")
    );
    assert_eq!(
        Parse::time(&[]).unwrap_err(),
        parse_error("Not enough bytes parse time")
    );
    assert_eq!(
        Parse::time(&[9]).unwrap_err(),
        parse_error("Not enough bytes to parse time")
    );
    assert_eq!(
        Parse::time(&[0]).unwrap_err(),
        parse_error("String to i32 conversion failed")
    );
    assert_eq!(
        Parse::time(&[9, 0x31]).unwrap_err(),
        parse_error("Not enough bytes to parse time")
    );
    assert_eq!(
        Parse::time(&[0xff, 0x31]).unwrap_err(),
        parse_error("Time has a negative size")
    );
}

#[test]
fn pointer_zero_is_null() {
    let parsed = Parse::pointer(&[1, b'0']).unwrap();
    assert_eq!(parsed.bytes_read, 2);
    assert_eq!(parsed.object.as_pointer().unwrap(), None);
    assert_eq!(
        parsed.object.as_not_null_pointer().unwrap_err(),
        parse_error("pointer is null")
    );
}

#[test]
fn pointer_other_payload_is_its_text() {
    let parsed = Parse::pointer(&short_bytes(b"1a2b3c4d5")).unwrap();
    assert_eq!(parsed.bytes_read, 10);
    assert_eq!(parsed.object.as_pointer().unwrap(), Some("1a2b3c4d5"));
    assert_eq!(parsed.object.as_not_null_pointer().unwrap(), "1a2b3c4d5");
    for text in ["00", "1", "0x0", "O", " 0"] {
        let mut bytes = short_bytes(text.as_bytes());
        bytes.push(0x77);
        let parsed = Parse::pointer(&bytes).unwrap();
        assert_eq!(parsed.bytes_read, 1 + text.len());
        assert_eq!(parsed.object.as_pointer().unwrap(), Some(text));
    }
    let parsed = Parse::pointer(&[0, 0x41]).unwrap();
    assert_eq!(parsed.bytes_read, 1);
    assert_eq!(parsed.object.as_pointer().unwrap(), Some(""));
    let parsed = Parse::pointer(&[0]).unwrap();
    assert_eq!(parsed.bytes_read, 1);
    assert_eq!(parsed.object.as_pointer().unwrap(), Some(""));
}

#[test]
fn pointer_is_held_against_the_bytes_there_are() {
    assert_eq!(
        Parse::pointer(&[]).unwrap_err(),
        parse_error("Not enough bytes to parse pointer")
    );
    assert_eq!(
        Parse::pointer(&[1]).unwrap_err(),
        parse_error("Pointer larger then availiable bytes")
    );
    assert_eq!(
        Parse::pointer(&[3, b'a', b'b']).unwrap_err(),
        parse_error("Pointer larger then availiable bytes")
    );
    assert_eq!(
        Parse::pointer(&[0x81, b'a', b'b']).unwrap_err(),
        parse_error("Pointer has a negative size")
    );
    assert_eq!(
        Parse::pointer(&[1, 0xff]).unwrap_err(),
        parse_error("Parsed invalid utf8 string")
    );
}

#[test]
fn string_with_length_prefix_minus_one_is_null() {
    let parsed = Parse::string(&[0xff, 0xff, 0xff, 0xff, 0x41]).unwrap();
    assert_eq!(parsed.bytes_read, 4);
    assert_eq!(parsed.object.as_str().unwrap(), None);
    assert_eq!(
        parsed.object.as_not_null_str().unwrap_err(),
        parse_error("String is null")
    );
}

#[test]
fn string_with_length_zero_is_empty_not_null() {
    let parsed = Parse::string(&[0, 0, 0, 0, 0x41]).unwrap();
    assert_eq!(parsed.bytes_read, 4);
    assert_eq!(parsed.object.as_str().unwrap(), Some(""));
    assert_eq!(parsed.object.as_not_null_str().unwrap(), "");
}

#[test]
fn string_round_trip() {
    for text in ["a", "hello world", "héllo, wörld", "日本語", "nul\0inside", "🦀"] {
        let mut bytes = string_bytes(text);
        bytes.extend_from_slice(&[1, 2, 3]);
        let parsed = Parse::string(&bytes).unwrap();
        assert_eq!(parsed.bytes_read, 4 + text.len());
        assert_eq!(parsed.object.as_str().unwrap(), Some(text));
    }
}

#[test]
fn string_longer_than_input_is_rejected() {
    let large = parse_error("String larger then availiable bytes");
    assert_eq!(Parse::string(&[0, 0, 0, 5, b'a', b'b']).unwrap_err(), large);
    assert_eq!(Parse::string(&[0, 0, 0, 1]).unwrap_err(), large);
    assert_eq!(Parse::string(&[0x7f, 0xff, 0xff, 0xff, 1, 2, 3]).unwrap_err(), large);
    assert_eq!(
        Parse::string(&[0, 0, 0]).unwrap_err(),
        parse_error("Not enough bytes to parse string")
    );
}

#[test]
fn string_with_other_negative_length_is_rejected() {
    let negative = parse_error("String has a negative size");
    assert_eq!(Parse::string(&[0xff, 0xff, 0xff, 0xfe, 1, 2]).unwrap_err(), negative);
    assert_eq!(Parse::string(&[0x80, 0, 0, 0, 1, 2]).unwrap_err(), negative);
}

#[test]
fn string_must_be_utf8() {
    assert_eq!(
        Parse::string(&[0, 0, 0, 2, 0xc3, 0x28]).unwrap_err(),
        parse_error("Parsed invalid utf8 string")
    );
    assert_eq!(
        Parse::string(&[0, 0, 0, 1, 0x80]).unwrap_err(),
        parse_error("Parsed invalid utf8 string")
    );
    // A character cut in two by the declared length.
    assert_eq!(
        Parse::string(&[0, 0, 0, 1, 0xc3, 0xa9]).unwrap_err(),
        parse_error("Parsed invalid utf8 string")
    );
}

#[test]
fn buffer_keeps_raw_bytes() {
    let parsed = Parse::buffer(&[0, 0, 0, 3, 0xff, 0x00, 0x80, 0x55]).unwrap();
    assert_eq!(parsed.bytes_read, 7);
    assert_eq!(parsed.object.as_buffer().unwrap(), Some(&[0xff, 0x00, 0x80][..]));
    assert_eq!(parsed.object.as_not_null_buffer().unwrap(), &[0xff, 0x00, 0x80][..]);
}

#[test]
fn buffer_null_and_empty_differ() {
    let null = Parse::buffer(&[0xff, 0xff, 0xff, 0xff]).unwrap();
    assert_eq!(null.bytes_read, 4);
    assert_eq!(null.object.as_buffer().unwrap(), None);
    assert_eq!(
        null.object.as_not_null_buffer().unwrap_err(),
        parse_error("Buffer is null")
    );
    let empty = Parse::buffer(&[0, 0, 0, 0]).unwrap();
    assert_eq!(empty.bytes_read, 4);
    assert_eq!(empty.object.as_buffer().unwrap(), Some(&[][..]));
    assert!(!null.object.same(&empty.object));
}

#[test]
fn buffer_longer_than_input_is_rejected() {
    assert_eq!(
        Parse::buffer(&[0, 0, 0, 2, 0x41]).unwrap_err(),
        parse_error("Buffer larger then availiable bytes")
    );
    assert_eq!(
        Parse::buffer(&[0, 0]).unwrap_err(),
        parse_error("Not enough bytes to parse buffer")
    );
    assert_eq!(
        Parse::buffer(&[0xff, 0xff, 0xff, 0xf0]).unwrap_err(),
        parse_error("Buffer has a negative size")
    );
}

#[test]
fn buffer_that_fills_the_input_is_accepted() {
    let parsed = Parse::buffer(&[0, 0, 0, 2, 0x41, 0x42]).unwrap();
    assert_eq!(parsed.bytes_read, 6);
    assert_eq!(parsed.object.as_buffer().unwrap(), Some(&b"AB"[..]));
}

#[test]
fn array_of_strings() {
    let mut bytes = b"str".to_vec();
    bytes.extend_from_slice(&3i32.to_be_bytes());
    bytes.extend_from_slice(&string_bytes("abc"));
    bytes.extend_from_slice(&[0xff, 0xff, 0xff, 0xff]);
    bytes.extend_from_slice(&string_bytes(""));
    bytes.push(0x99);
    let parsed = Parse::array(&bytes).unwrap();
    assert_eq!(parsed.bytes_read, bytes.len() - 1);
    let elements = parsed.object.as_array().unwrap();
    assert_eq!(elements.len(), 3);
    assert_eq!(elements[0].as_str().unwrap(), Some("abc"));
    assert_eq!(elements[1].as_str().unwrap(), None);
    assert_eq!(elements[2].as_str().unwrap(), Some(""));
}

#[test]
fn array_with_count_of_zero_or_less_is_empty() {
    let mut bytes = b"int".to_vec();
    bytes.extend_from_slice(&0i32.to_be_bytes());
    let parsed = Parse::array(&bytes).unwrap();
    assert_eq!(parsed.bytes_read, 7);
    assert_eq!(parsed.object.as_array().unwrap().len(), 0);
    let mut bytes = b"int".to_vec();
    bytes.extend_from_slice(&(-5i32).to_be_bytes());
    bytes.extend_from_slice(&[1, 2, 3, 4]);
    let parsed = Parse::array(&bytes).unwrap();
    assert_eq!(parsed.bytes_read, 7);
    assert_eq!(parsed.object.as_array().unwrap().len(), 0);
}

#[test]
fn nested_arrays() {
    // [[1, 2], [3]]
    let mut bytes = Vec::new();
    bytes.extend_from_slice(b"arr");
    bytes.extend_from_slice(&2i32.to_be_bytes());
    bytes.extend_from_slice(b"int");
    bytes.extend_from_slice(&2i32.to_be_bytes());
    bytes.extend_from_slice(&1i32.to_be_bytes());
    bytes.extend_from_slice(&2i32.to_be_bytes());
    bytes.extend_from_slice(b"int");
    bytes.extend_from_slice(&1i32.to_be_bytes());
    bytes.extend_from_slice(&3i32.to_be_bytes());
    let parsed = Parse::array(&bytes).unwrap();
    assert_eq!(parsed.bytes_read, bytes.len());
    let outer = parsed.object.as_array().unwrap();
    assert_eq!(outer.len(), 2);
    let first = outer[0].as_array().unwrap();
    assert_eq!(first.len(), 2);
    assert_eq!(first[0].as_integer().unwrap(), 1);
    assert_eq!(first[1].as_integer().unwrap(), 2);
    let second = outer[1].as_array().unwrap();
    assert_eq!(second.len(), 1);
    assert_eq!(second[0].as_integer().unwrap(), 3);
    assert!(parsed.object.same(&Object::Arr(vec![
        Object::Arr(vec![Object::Int(1), Object::Int(2)]),
        Object::Arr(vec![Object::Int(3)]),
    ])));
}

#[test]
fn array_is_held_against_the_bytes_there_are() {
    assert_eq!(
        Parse::array(b"int\0\0\0").unwrap_err(),
        parse_error("Not enough bytes to have an array")
    );
    let mut bytes = b"int".to_vec();
    bytes.extend_from_slice(&2i32.to_be_bytes());
    bytes.extend_from_slice(&1i32.to_be_bytes());
    bytes.extend_from_slice(&[0, 0]);
    assert_eq!(
        Parse::array(&bytes).unwrap_err(),
        parse_error("Not enough bytes to parse int")
    );
    let mut bytes = b"chr".to_vec();
    bytes.extend_from_slice(&i32::MAX.to_be_bytes());
    bytes.extend_from_slice(&[1, 2, 3]);
    assert_eq!(
        Parse::array(&bytes).unwrap_err(),
        parse_error("Not enough bytes to parse character")
    );
}

#[test]
fn unknown_tags_are_rejected() {
    let mut bytes = b"xyz".to_vec();
    bytes.extend_from_slice(&1i32.to_be_bytes());
    bytes.extend_from_slice(&[1, 2, 3, 4]);
    assert_eq!(Parse::array(&bytes).unwrap_err(), parse_error("Unknown data type"));
    let mut bytes = b"hda".to_vec();
    bytes.extend_from_slice(&1i32.to_be_bytes());
    assert_eq!(Parse::array(&bytes).unwrap_err(), parse_error("Unknown data type"));
    let mut bytes = vec![0xff, 0xfe, 0xfd];
    bytes.extend_from_slice(&0i32.to_be_bytes());
    assert_eq!(
        Parse::array(&bytes).unwrap_err(),
        parse_error("Parsed invalid utf8 string")
    );
    assert_eq!(
        Parse::parse_type("Int", &[0, 0, 0, 1]).unwrap_err(),
        parse_error("Unknown data type")
    );
    assert_eq!(
        Parse::parse_type("", &[0, 0, 0, 1]).unwrap_err(),
        parse_error("Unknown data type")
    );
}

#[test]
fn unknown_tag_of_an_empty_array_is_not_looked_at() {
    let mut bytes = b"xyz".to_vec();
    bytes.extend_from_slice(&0i32.to_be_bytes());
    let parsed = Parse::array(&bytes).unwrap();
    assert_eq!(parsed.object.as_array().unwrap().len(), 0);
}

#[test]
fn parse_type_knows_every_kind() {
    assert_eq!(Parse::parse_type("chr", &[7]).unwrap().object.as_character().unwrap(), '\u{7}');
    assert_eq!(Parse::parse_type("int", &[0, 0, 0, 9]).unwrap().object.as_integer().unwrap(), 9);
    assert_eq!(Parse::parse_type("lon", &[1, b'9']).unwrap().object.as_long().unwrap(), 9);
    assert_eq!(
        Parse::parse_type("str", &[0, 0, 0, 1, b'z']).unwrap().object.as_str().unwrap(),
        Some("z")
    );
    assert_eq!(
        Parse::parse_type("buf", &[0, 0, 0, 1, b'z']).unwrap().object.as_buffer().unwrap(),
        Some(&b"z"[..])
    );
    assert_eq!(
        Parse::parse_type("ptr", &[1, b'f']).unwrap().object.as_pointer().unwrap(),
        Some("f")
    );
    assert_eq!(Parse::parse_type("tim", &[1, b'5']).unwrap().object.as_time().unwrap(), 5);
    assert_eq!(
        Parse::parse_type("arr", b"int\0\0\0\0").unwrap().object.as_array().unwrap().len(),
        0
    );
    let table = Parse::parse_type("htb", b"intint\0\0\0\0").unwrap();
    assert_eq!(table.bytes_read, 10);
    assert!(table.object.same(&Object::Htb(vec![])));
}

fn table_bytes(key: &str, value: &str, entries: &[(Vec<u8>, Vec<u8>)]) -> Vec<u8> {
    let mut bytes = key.as_bytes().to_vec();
    bytes.extend_from_slice(value.as_bytes());
    bytes.extend_from_slice(&(entries.len() as i32).to_be_bytes());
    for (k, v) in entries {
        bytes.extend_from_slice(k);
        bytes.extend_from_slice(v);
    }
    bytes
}

fn entries_of(object: &Object) -> &Vec<(Object, Object)> {
    match object {
        Object::Htb(entries) => entries,
        _ => panic!("not a hashtable"),
    }
}

#[test]
fn hashtable_of_strings_to_ints() {
    let bytes = table_bytes(
        "str",
        "int",
        &[
            (string_bytes("one"), 1i32.to_be_bytes().to_vec()),
            (string_bytes("two"), 2i32.to_be_bytes().to_vec()),
        ],
    );
    let parsed = Parse::hashtable(&bytes).unwrap();
    assert_eq!(parsed.bytes_read, bytes.len());
    let entries = entries_of(&parsed.object);
    assert_eq!(entries.len(), 2);
    assert_eq!(entries[0].0.as_str().unwrap(), Some("one"));
    assert_eq!(entries[0].1.as_integer().unwrap(), 1);
    assert_eq!(entries[1].0.as_str().unwrap(), Some("two"));
    assert_eq!(entries[1].1.as_integer().unwrap(), 2);
}

#[test]
fn hashtable_key_that_comes_again_takes_the_new_value() {
    let bytes = table_bytes(
        "str",
        "int",
        &[
            (string_bytes("a"), 1i32.to_be_bytes().to_vec()),
            (string_bytes("b"), 2i32.to_be_bytes().to_vec()),
            (string_bytes("a"), 3i32.to_be_bytes().to_vec()),
        ],
    );
    let parsed = Parse::hashtable(&bytes).unwrap();
    assert_eq!(parsed.bytes_read, bytes.len());
    let entries = entries_of(&parsed.object);
    assert_eq!(entries.len(), 2);
    assert_eq!(entries[0].0.as_str().unwrap(), Some("a"));
    assert_eq!(entries[0].1.as_integer().unwrap(), 3);
    assert_eq!(entries[1].0.as_str().unwrap(), Some("b"));
    assert_eq!(entries[1].1.as_integer().unwrap(), 2);
}

#[test]
fn hashtable_of_hashtables() {
    let inner = table_bytes("int", "chr", &[(7i32.to_be_bytes().to_vec(), vec![b'x'])]);
    let bytes = table_bytes("str", "htb", &[(string_bytes("k"), inner)]);
    let parsed = Parse::hashtable(&bytes).unwrap();
    assert_eq!(parsed.bytes_read, bytes.len());
    let entries = entries_of(&parsed.object);
    assert_eq!(entries.len(), 1);
    let inner = entries_of(&entries[0].1);
    assert_eq!(inner.len(), 1);
    assert_eq!(inner[0].0.as_integer().unwrap(), 7);
    assert_eq!(inner[0].1.as_character().unwrap(), 'x');
}

#[test]
fn hashtable_keys_that_are_equal_tables_count_as_one() {
    let ab = table_bytes(
        "int",
        "int",
        &[
            (1i32.to_be_bytes().to_vec(), 10i32.to_be_bytes().to_vec()),
            (2i32.to_be_bytes().to_vec(), 20i32.to_be_bytes().to_vec()),
        ],
    );
    let ba = table_bytes(
        "int",
        "int",
        &[
            (2i32.to_be_bytes().to_vec(), 20i32.to_be_bytes().to_vec()),
            (1i32.to_be_bytes().to_vec(), 10i32.to_be_bytes().to_vec()),
        ],
    );
    let bytes = table_bytes("htb", "chr", &[(ab, vec![b'1']), (ba, vec![b'2'])]);
    let parsed = Parse::hashtable(&bytes).unwrap();
    assert_eq!(parsed.bytes_read, bytes.len());
    let entries = entries_of(&parsed.object);
    assert_eq!(entries.len(), 1);
    assert_eq!(entries[0].1.as_character().unwrap(), '2');
    let key = entries_of(&entries[0].0);
    assert_eq!(key[0].0.as_integer().unwrap(), 1);
}

#[test]
fn hashtable_is_held_against_the_bytes_there_are() {
    assert_eq!(
        Parse::hashtable(b"strint\0\0\0").unwrap_err(),
        parse_error("Not enough bytes to have a hashtable")
    );
    let mut bytes = table_bytes("str", "int", &[(string_bytes("one"), vec![0, 0])]);
    assert_eq!(
        Parse::hashtable(&bytes).unwrap_err(),
        parse_error("Not enough bytes to parse int")
    );
    bytes.truncate(12);
    assert_eq!(
        Parse::hashtable(&bytes).unwrap_err(),
        parse_error("Not enough bytes to parse string")
    );
    let bytes = table_bytes("str", "xxx", &[(string_bytes("one"), vec![0, 0])]);
    assert_eq!(Parse::hashtable(&bytes).unwrap_err(), parse_error("Unknown data type"));
}

#[test]
fn same_compares_values() {
    assert!(Object::Int(3).same(&Object::Int(3)));
    assert!(!Object::Int(3).same(&Object::Int(4)));
    assert!(!Object::Int(3).same(&Object::Tim(3)));
    assert!(!Object::Int(3).same(&Object::Lon(3)));
    assert!(Object::Str(None).same(&Object::Str(None)));
    assert!(!Object::Str(None).same(&Object::Str(Some(String::new()))));
    assert!(!Object::Str(None).same(&Object::Ptr(None)));
    assert!(Object::Str(Some("a".to_string())).same(&Object::Str(Some("a".to_string()))));
    assert!(!Object::Str(Some("a".to_string())).same(&Object::Str(Some("b".to_string()))));
    assert!(Object::Buf(Some(vec![1, 2])).same(&Object::Buf(Some(vec![1, 2]))));
    assert!(!Object::Buf(Some(vec![1, 2])).same(&Object::Buf(Some(vec![1]))));
    assert!(Object::Chr('x').same(&Object::Chr('x')));
    assert!(!Object::Arr(vec![Object::Int(1)]).same(&Object::Arr(vec![])));
    assert!(!Object::Arr(vec![Object::Int(1), Object::Int(2)])
        .same(&Object::Arr(vec![Object::Int(2), Object::Int(1)])));
    let ab = Object::Htb(vec![
        (Object::Int(1), Object::Chr('a')),
        (Object::Int(2), Object::Chr('b')),
    ]);
    let ba = Object::Htb(vec![
        (Object::Int(2), Object::Chr('b')),
        (Object::Int(1), Object::Chr('a')),
    ]);
    let other = Object::Htb(vec![
        (Object::Int(1), Object::Chr('a')),
        (Object::Int(2), Object::Chr('c')),
    ]);
    assert!(ab.same(&ba));
    assert!(!ab.same(&other));
    assert!(!ab.same(&Object::Htb(vec![(Object::Int(1), Object::Chr('a'))])));
}

#[test]
fn accessors_answer_only_for_their_own_kind() {
    let int = Object::Int(1);
    assert_eq!(int.as_array().unwrap_err(), parse_error("Item is not an array"));
    assert_eq!(int.as_buffer().unwrap_err(), parse_error("Item is not a buffer"));
    assert_eq!(int.as_not_null_buffer().unwrap_err(), parse_error("Item is not a buffer"));
    assert_eq!(int.as_character().unwrap_err(), parse_error("Item is not a character"));
    assert_eq!(int.as_long().unwrap_err(), parse_error("Item is not a long"));
    assert_eq!(int.as_pointer().unwrap_err(), parse_error("Item is not a pointer"));
    assert_eq!(int.as_not_null_pointer().unwrap_err(), parse_error("Item is not a pointer"));
    assert_eq!(int.as_str().unwrap_err(), parse_error("Item is not a string"));
    assert_eq!(int.as_not_null_str().unwrap_err(), parse_error("Item is not a string"));
    assert_eq!(int.as_time().unwrap_err(), parse_error("Item is not a time"));
    assert_eq!(Object::Tim(1).as_integer().unwrap_err(), parse_error("Item is not a integer"));
    assert_eq!(Object::Tim(5).as_time().unwrap(), 5);
    assert_eq!(Object::Lon(-5).as_long().unwrap(), -5);
}

#[test]
fn objects_compare_with_the_operator() {
    assert!(Object::Int(3) == Object::Int(3));
    assert!(Object::Int(3) != Object::Int(4));
    let ab = Object::Htb(vec![
        (Object::Int(1), Object::Chr('a')),
        (Object::Int(2), Object::Chr('b')),
    ]);
    let ba = Object::Htb(vec![
        (Object::Int(2), Object::Chr('b')),
        (Object::Int(1), Object::Chr('a')),
    ]);
    assert_eq!(ab, ba);
    assert_ne!(ab, Object::Htb(vec![]));
    let parsed = Parse::pointer(&[3, b'a', b'b', b'c']).unwrap();
    assert_eq!(parsed.object, Object::Ptr(Some("abc".to_string())));
}
