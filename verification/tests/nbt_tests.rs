use mc_types::nbt::{
    read_byte_array_content, read_compound_content, read_content, read_int_array_content,
    read_list_content, read_long_array_content, read_meta, read_string, Data, NbtError,
    NbtResult, Read, Reader, Tag,
};
use mc_types::{NbtData, NbtRead, NbtTag};

fn check_read_meta() -> NbtResult<()> {
    let cond = [
        (0, "", vec![0x00]),
        (3, "0", vec![0x03, 0x00, 0x01, b'0']),
        (
            11,
            "hello world",
            vec![
                0x0b, 0x00, 0x0b, 0x68, 0x65, 0x6c, 0x6c, 0x6f, 0x20, 0x77, 0x6f, 0x72, 0x6c,
                0x64,
            ],
        ),
    ];
    for (ans_id, ans_str, vec) in cond.iter() {
        let mut cur = Reader::new(vec);
        let read = read_meta(&mut cur)?;
        assert_eq!(read.0, *ans_id);
        assert_eq!(read.1, *ans_str);
    }
    Ok(())
}

#[test]
fn lib_read_meta() -> NbtResult<()> {
    check_read_meta()
}

#[test]
fn nbt_read_meta() -> NbtResult<()> {
    check_read_meta()
}

fn check_read_int_array() -> NbtResult<()> {
    let cond = [
        (vec![], vec![0, 0, 0, 0]),
        (vec![123456789], vec![0, 0, 0, 1, 7, 91, 205, 21]),
        (
            vec![-1, -2, 3, 4],
            vec![0, 0, 0, 4, 255, 255, 255, 255, 255, 255, 255, 254, 0, 0, 0, 3, 0, 0, 0, 4],
        ),
    ];
    for (input, output) in cond.iter() {
        let buf = output;
        let mut cur = Reader::new(buf);
        let read = read_int_array_content(&mut cur)?;
        assert_eq!(read, Tag::IntArray(input.to_vec()));
    }
    Ok(())
}

#[test]
fn lib_read_int_array() -> NbtResult<()> {
    check_read_int_array()
}

#[test]
fn nbt_read_int_array() -> NbtResult<()> {
    check_read_int_array()
}

fn document() -> Vec<u8> {
    vec![
        0xa, // compound #1
        0x0, 0xb, 0x68, 0x65, 0x6c, 0x6c, 0x6f, 0x20, 0x77, 0x6f, 0x72, 0x6c, 0x64, // "hello world"
        0x1, // byte
        0x0, 0x5, 0x31, 0x62, 0x79, 0x74, 0x65, // "1byte"
        0x80, // -128
        0x8, // string
        0x0, 0x7, 0x38, 0x73, 0x74, 0x72, 0x69, 0x6e, 0x67, // "8string"
        0x0, 0x5, 0x68, 0x65, 0x6c, 0x6c, 0x6f, // hello
        0x7, // byte array
        0x0, 0xb, 0x37, 0x62, 0x79, 0x74, 0x65, 0x5f, 0x61, 0x72, 0x72, 0x61, 0x79, // "7byte_array"
        0x0, 0x0, 0x0, 0x4, //len = 4
        0xc, 0xde, 0x38, 0xb2, // [12, -34, 56, -78]
        0x9, // list tag
        0x0, 0x9, 0x39, 0x6c, 0x69, 0x73, 0x74, 0x5f, 0x69, 0x6e, 0x74, // "9list_int"
        0x3, // inner type: int
        0x0, 0x0, 0x0, 0x3, // len: 3
        0x7f, 0xff, 0xff, 0xff, 0x6e, 0xee, 0xee, 0xee, 0x5d, 0xdd, 0xdd, 0xdd, 0x5, // float
        0x0, 0x6, 0x35, 0x66, 0x6c, 0x6f, 0x61, 0x74, // "5float"
        0x40, 0x49, 0xf, 0xdb, // float value of math constant PI
        0x4, // long
        0x0, 0x5, 0x34, 0x6c, 0x6f, 0x6e, 0x67, // "4long"
        0x80, 0x0, 0x0, 0x0, 0x0, 0x0, 0x0, 0x0, // i64::min_value()
        0x6, // double
        0x0, 0x7, 0x36, 0x64, 0x6f, 0x75, 0x62, 0x6c, 0x65, // "6double"
        0x40, 0x5, 0xbf, 0xa, 0x8b, 0x14, 0x57, 0x69, // float value of math constant E
        0x2, // short
        0x0, 0x6, 0x32, 0x73, 0x68, 0x6f, 0x72, 0x74, // "2short"
        0x7f, 0xff, // i16::max_value()
        0x3, // int
        0x0, 0x4, 0x33, 0x69, 0x6e, 0x74, // "3int"
        0x7f, 0xff, 0xff, 0xff, // i32::max_value()
        0xa, // compound #2
        0x0, 0x9, 0x31, 0x63, 0x6f, 0x6d, 0x70, 0x6f, 0x75, 0x6e, 0x64, // "1compound"
        0x5, // float
        0x0, 0xb, 0x31, 0x31, 0x66, 0x6c, 0x6f, 0x61, 0x74, 0x5f, 0x31, 0x2e, 0x30, // "11float_1.0"
        0x3f, 0x80, 0x0, 0x0, // 1.0
        0x6, // double
        0x0, 0xd, 0x31, 0x32, 0x64, 0x6f, 0x75, 0x62, 0x6c, 0x65, 0x5f, 0x2d, 0x31, 0x2e,
        0x30, // "12double_-1.0"
        0xbf, 0xf0, 0x0, 0x0, 0x0, 0x0, 0x0, 0x0, // -1.0
        0x0, // end of #2
        0xb, // int array
        0x0, 0xa, 0x32, 0x69, 0x6e, 0x74, 0x5f, 0x61, 0x72, 0x72, 0x61, 0x79, // "2int_array"
        0x0, 0x0, 0x0, 0x4, // len: 4
        0x1a, 0xaa, 0xaa, 0xaa, 0x2b, 0xbb, 0xbb, 0xbb, 0x2c, 0xcc, 0xcc, 0xcc, 0x1d, 0xdd,
        0xdd, 0xdd, 0x0, // end of #1
    ]
}

// The entries of a compound stand in the order in which they are written.
fn check_read_nbt() -> NbtResult<()> {
    let blob = document();
    let inner_map = vec![
        ("11float_1.0".to_string(), Tag::Float(1.0f32.to_bits())),
        ("12double_-1.0".to_string(), Tag::Double((-1.0f64).to_bits())),
    ];
    let root_map = vec![
        ("1byte".to_string(), Tag::Byte(i8::min_value())),
        ("8string".to_string(), Tag::String("hello".to_string())),
        ("7byte_array".to_string(), Tag::ByteArray(vec![12, -34, 56, -78])),
        (
            "9list_int".to_string(),
            Tag::List(vec![Tag::Int(0x7FFFFFFF), Tag::Int(0x6EEEEEEE), Tag::Int(0x5DDDDDDD)]),
        ),
        ("5float".to_string(), Tag::Float(std::f32::consts::PI.to_bits())),
        ("4long".to_string(), Tag::Long(i64::min_value())),
        ("6double".to_string(), Tag::Double(std::f64::consts::E.to_bits())),
        ("2short".to_string(), Tag::Short(i16::max_value())),
        ("3int".to_string(), Tag::Int(i32::max_value())),
        ("1compound".to_string(), Tag::Compound(inner_map)),
        (
            "2int_array".to_string(),
            Tag::IntArray(vec![0x1AAAAAAA, 0x2BBBBBBB, 0x2CCCCCCC, 0x1DDDDDDD]),
        ),
    ];
    let correct = Data::new(String::from("hello world"), Tag::Compound(root_map));
    let mut cur = Reader::new(&blob);
    let data = cur.read_nbt_data()?;
    assert_eq!(data, correct);
    assert_eq!(cur.remaining_len(), 0);
    Ok(())
}

#[test]
fn lib_read_nbt() -> NbtResult<()> {
    check_read_nbt()
}

#[test]
fn nbt_read_nbt() -> NbtResult<()> {
    check_read_nbt()
}

#[test]
fn the_names_at_the_root_of_the_crate_mean_the_same() {
    let blob = document();
    let mut cur = Reader::new(&blob);
    let data: NbtData = NbtRead::read_nbt_data(&mut cur).unwrap();
    assert_eq!(data.root_name(), "hello world");
    match data.root_tag() {
        NbtTag::Compound(entries) => assert_eq!(entries.len(), 11),
        other => panic!("not a compound: {:?}", other),
    }
}

#[test]
fn numbers_are_read_in_big_endian_order() {
    let bytes = [0x12u8, 0x34, 0x56, 0x78, 0x9a, 0xbc, 0xde, 0xf0, 0xff];
    assert_eq!(read_content(&mut Reader::new(&bytes), 1), Ok(Tag::Byte(0x12)));
    assert_eq!(read_content(&mut Reader::new(&bytes), 2), Ok(Tag::Short(0x1234)));
    assert_eq!(read_content(&mut Reader::new(&bytes), 3), Ok(Tag::Int(0x12345678)));
    assert_eq!(read_content(&mut Reader::new(&bytes), 4), Ok(Tag::Long(0x123456789abcdef0)));
    assert_eq!(read_content(&mut Reader::new(&bytes), 5), Ok(Tag::Float(0x12345678)));
    assert_eq!(read_content(&mut Reader::new(&bytes), 6), Ok(Tag::Double(0x123456789abcdef0)));
    let negative = [0xffu8, 0xfe, 0xff, 0xff, 0xff, 0xff, 0xff, 0xfd];
    assert_eq!(read_content(&mut Reader::new(&negative), 1), Ok(Tag::Byte(-1)));
    assert_eq!(read_content(&mut Reader::new(&negative), 2), Ok(Tag::Short(-2)));
    assert_eq!(read_content(&mut Reader::new(&negative), 3), Ok(Tag::Int(-65537)));
    assert_eq!(read_content(&mut Reader::new(&negative), 4), Ok(Tag::Long(-281474976710659)));
    assert_eq!(read_content(&mut Reader::new(&negative), 5), Ok(Tag::Float(0xfffeffff)));
    assert_eq!(read_content(&mut Reader::new(&negative), 6), Ok(Tag::Double(0xfffefffffffffffd)));
}

#[test]
fn floating_point_numbers_are_kept_as_their_bits() {
    let pi = [0x40u8, 0x49, 0x0f, 0xdb];
    match read_content(&mut Reader::new(&pi), 5) {
        Ok(Tag::Float(bits)) => assert_eq!(f32::from_bits(bits), std::f32::consts::PI),
        other => panic!("not a float: {:?}", other),
    }
    let minus_one = [0xbfu8, 0xf0, 0, 0, 0, 0, 0, 0];
    match read_content(&mut Reader::new(&minus_one), 6) {
        Ok(Tag::Double(bits)) => assert_eq!(f64::from_bits(bits), -1.0),
        other => panic!("not a double: {:?}", other),
    }
}

#[test]
fn the_reader_stops_behind_what_it_read() {
    let bytes = [0u8, 2, b'h', b'i', 7, 7];
    let mut cur = Reader::new(&bytes);
    assert_eq!(cur.remaining_len(), 6);
    assert_eq!(read_string(&mut cur), Ok("hi".to_string()));
    assert_eq!(cur.remaining_len(), 2);
    assert_eq!(read_content(&mut cur, 2), Ok(Tag::Short(0x0707)));
    assert_eq!(cur.remaining_len(), 0);
    assert_eq!(read_content(&mut cur, 1), Err(NbtError::UnexpectedEnd));
}

#[test]
fn arrays_of_bytes_and_longs() {
    let bytes = [0u8, 0, 0, 3, 1, 0x80, 0xff];
    assert_eq!(read_byte_array_content(&mut Reader::new(&bytes)), Ok(Tag::ByteArray(vec![1, -128, -1])));
    assert_eq!(read_content(&mut Reader::new(&bytes), 7), Ok(Tag::ByteArray(vec![1, -128, -1])));
    let longs = [0u8, 0, 0, 2, 0, 0, 0, 0, 0, 0, 0, 5, 0xff, 0xff, 0xff, 0xff, 0xff, 0xff, 0xff, 0xfb];
    assert_eq!(read_long_array_content(&mut Reader::new(&longs)), Ok(Tag::LongArray(vec![5, -5])));
    assert_eq!(read_content(&mut Reader::new(&longs), 12), Ok(Tag::LongArray(vec![5, -5])));
    assert_eq!(read_content(&mut Reader::new(&[0u8, 0, 0, 1, 0, 0, 1, 0]), 11), Ok(Tag::IntArray(vec![256])));
}

#[test]
fn lists_and_compounds_nest() {
    // a list of two lists of bytes
    let bytes = [9u8, 0, 0, 0, 2, 1, 0, 0, 0, 2, 5, 6, 1, 0, 0, 0, 0];
    assert_eq!(
        read_list_content(&mut Reader::new(&bytes)),
        Ok(Tag::List(vec![
            Tag::List(vec![Tag::Byte(5), Tag::Byte(6)]),
            Tag::List(vec![]),
        ]))
    );
    // a compound with the same name twice keeps both entries, in order
    let twice = [1u8, 0, 1, b'a', 7, 1, 0, 1, b'a', 8, 0];
    assert_eq!(
        read_compound_content(&mut Reader::new(&twice)),
        Ok(Tag::Compound(vec![
            ("a".to_string(), Tag::Byte(7)),
            ("a".to_string(), Tag::Byte(8)),
        ]))
    );
    assert_eq!(read_content(&mut Reader::new(&[0u8]), 10), Ok(Tag::Compound(vec![])));
}

#[test]
fn an_empty_list_may_name_any_type() {
    assert_eq!(read_content(&mut Reader::new(&[99u8, 0, 0, 0, 0]), 9), Ok(Tag::List(vec![])));
    assert_eq!(read_content(&mut Reader::new(&[0u8, 0, 0, 0, 0]), 9), Ok(Tag::List(vec![])));
    assert_eq!(
        read_content(&mut Reader::new(&[99u8, 0, 0, 0, 1, 0]), 9),
        Err(NbtError::InvalidTypeId(99))
    );
    assert_eq!(
        read_content(&mut Reader::new(&[0u8, 0, 0, 0, 1, 0]), 9),
        Err(NbtError::InvalidTypeId(0))
    );
}

#[test]
fn invalid_type_numbers_are_refused() {
    assert_eq!(read_meta(&mut Reader::new(&[13u8, 0, 0])), Err(NbtError::InvalidTypeId(13)));
    assert_eq!(read_meta(&mut Reader::new(&[255u8])), Err(NbtError::InvalidTypeId(255)));
    assert_eq!(read_content(&mut Reader::new(&[1u8, 2, 3]), 0), Err(NbtError::InvalidTypeId(0)));
    assert_eq!(read_content(&mut Reader::new(&[1u8, 2, 3]), 13), Err(NbtError::InvalidTypeId(13)));
    assert_eq!(
        read_content(&mut Reader::new(&[14u8, 0, 0]), 10),
        Err(NbtError::InvalidTypeId(14))
    );
}

#[test]
fn text_must_be_utf8() {
    assert_eq!(read_string(&mut Reader::new(&[0u8, 2, 0xc3, 0x28])), Err(NbtError::InvalidUtf8));
    assert_eq!(read_string(&mut Reader::new(&[0u8, 1, 0xff])), Err(NbtError::InvalidUtf8));
    assert_eq!(read_meta(&mut Reader::new(&[8u8, 0, 1, 0x80])), Err(NbtError::InvalidUtf8));
    assert_eq!(
        read_string(&mut Reader::new(&[0u8, 6, 0xe6, 0x9c, 0xa8, 0xe7, 0x89, 0x8c])),
        Ok("木牌".to_string())
    );
    assert_eq!(read_string(&mut Reader::new(&[0u8, 0])), Ok(String::new()));
}

#[test]
fn a_string_cut_short_is_filled_with_zero_bytes() {
    let mut cur = Reader::new(&[0u8, 4, b'a', b'b']);
    assert_eq!(read_string(&mut cur), Ok("ab\0\0".to_string()));
    assert_eq!(cur.remaining_len(), 0);
    assert_eq!(read_string(&mut Reader::new(&[0u8, 3])), Ok("\0\0\0".to_string()));
    // the first byte of a character of two bytes, then zero: not UTF-8
    assert_eq!(read_string(&mut Reader::new(&[0u8, 2, 0xc3])), Err(NbtError::InvalidUtf8));
}

#[test]
fn input_that_ends_early_is_refused() {
    assert_eq!(read_meta(&mut Reader::new(&[])), Err(NbtError::UnexpectedEnd));
    assert_eq!(read_meta(&mut Reader::new(&[3u8, 0])), Err(NbtError::UnexpectedEnd));
    assert_eq!(read_string(&mut Reader::new(&[0u8])), Err(NbtError::UnexpectedEnd));
    assert_eq!(read_content(&mut Reader::new(&[1u8]), 2), Err(NbtError::UnexpectedEnd));
    assert_eq!(read_content(&mut Reader::new(&[1u8, 2, 3]), 3), Err(NbtError::UnexpectedEnd));
    assert_eq!(read_content(&mut Reader::new(&[1u8, 2, 3, 4, 5, 6, 7]), 4), Err(NbtError::UnexpectedEnd));
    assert_eq!(read_content(&mut Reader::new(&[1u8, 2, 3]), 5), Err(NbtError::UnexpectedEnd));
    assert_eq!(read_content(&mut Reader::new(&[1u8, 2, 3, 4, 5, 6, 7]), 6), Err(NbtError::UnexpectedEnd));
    assert_eq!(read_content(&mut Reader::new(&[0u8, 0, 0, 2, 1]), 7), Err(NbtError::UnexpectedEnd));
    assert_eq!(read_content(&mut Reader::new(&[0u8, 0, 0]), 7), Err(NbtError::UnexpectedEnd));
    assert_eq!(
        read_int_array_content(&mut Reader::new(&[0u8, 0, 0, 2, 0, 0, 0, 1, 0, 0, 0])),
        Err(NbtError::UnexpectedEnd)
    );
    assert_eq!(
        read_long_array_content(&mut Reader::new(&[0x7fu8, 0xff, 0xff, 0xff, 0, 0, 0, 1])),
        Err(NbtError::UnexpectedEnd)
    );
    assert_eq!(read_content(&mut Reader::new(&[1u8, 0, 0, 0, 2, 5]), 9), Err(NbtError::UnexpectedEnd));
    assert_eq!(read_content(&mut Reader::new(&[1u8, 0, 0]), 9), Err(NbtError::UnexpectedEnd));
    assert_eq!(read_content(&mut Reader::new(&[]), 9), Err(NbtError::UnexpectedEnd));
    // a compound without its end
    assert_eq!(read_content(&mut Reader::new(&[1u8, 0, 1, b'a', 7]), 10), Err(NbtError::UnexpectedEnd));
    assert_eq!(read_content(&mut Reader::new(&[1u8, 0, 1, b'a']), 10), Err(NbtError::UnexpectedEnd));
}

#[test]
fn negative_lengths_are_refused() {
    let minus_one = [0xffu8, 0xff, 0xff, 0xff, 0, 0, 0, 0, 0, 0, 0, 0];
    assert_eq!(read_content(&mut Reader::new(&minus_one), 7), Err(NbtError::NegativeLength(-1)));
    assert_eq!(read_content(&mut Reader::new(&minus_one), 11), Err(NbtError::NegativeLength(-1)));
    assert_eq!(read_content(&mut Reader::new(&minus_one), 12), Err(NbtError::NegativeLength(-1)));
    let list = [1u8, 0x80, 0, 0, 0, 1, 2];
    assert_eq!(read_content(&mut Reader::new(&list), 9), Err(NbtError::NegativeLength(i32::MIN)));
}

#[test]
fn the_root_must_be_a_compound() {
    assert_eq!(Reader::new(&[1u8, 0, 1, b'a', 7]).read_nbt_data(), Err(NbtError::InvalidRoot));
    assert_eq!(Reader::new(&[0u8]).read_nbt_data(), Err(NbtError::InvalidRoot));
    assert_eq!(Reader::new(&[9u8, 0, 0, 1, 0, 0, 0, 0]).read_nbt_data(), Err(NbtError::InvalidRoot));
    assert_eq!(Reader::new(&[]).read_nbt_data(), Err(NbtError::UnexpectedEnd));
    assert_eq!(Reader::new(&[10u8, 0, 0]).read_nbt_data(), Err(NbtError::UnexpectedEnd));
    assert_eq!(Reader::new(&[77u8]).read_nbt_data(), Err(NbtError::InvalidTypeId(77)));
    let small = [10u8, 0, 1, b'r', 0];
    assert_eq!(Reader::new(&small).read_nbt_data(), Ok(Data::new("r".to_string(), Tag::Compound(vec![]))));
}

#[test]
fn a_compound_is_asked_by_name() {
    let blob = document();
    let data = Reader::new(&blob).read_nbt_data().unwrap();
    let root = data.root_tag();
    assert_eq!(root.get("3int"), Some(&Tag::Int(i32::max_value())));
    assert_eq!(root.get("8string"), Some(&Tag::String("hello".to_string())));
    assert_eq!(root.get("missing"), None);
    assert_eq!(root.get(""), None);
    let inner = root.get("1compound").unwrap();
    assert_eq!(inner.get("11float_1.0"), Some(&Tag::Float(0x3f800000)));
    assert_eq!(inner.get("3int"), None);
    assert_eq!(Tag::Int(3).get("3int"), None);
    assert_eq!(Tag::List(vec![Tag::Int(3)]).get("0"), None);
    let twice = Tag::Compound(vec![
        ("a".to_string(), Tag::Byte(7)),
        ("b".to_string(), Tag::Byte(9)),
        ("a".to_string(), Tag::Byte(8)),
    ]);
    assert_eq!(twice.get("a"), Some(&Tag::Byte(8)));
    assert_eq!(twice.get("b"), Some(&Tag::Byte(9)));
}

#[test]
fn the_length_of_a_string_takes_two_bytes() {
    let mut bytes = vec![0x01u8, 0x02];
    bytes.extend(std::iter::repeat(b'x').take(258));
    bytes.push(b'y');
    let mut cur = Reader::new(&bytes);
    let text = read_string(&mut cur).unwrap();
    assert_eq!(text.len(), 258);
    assert!(text.bytes().all(|b| b == b'x'));
    assert_eq!(cur.remaining_len(), 1);
}

#[test]
fn a_failed_read_leaves_the_reader_where_it_was() {
    // a compound whose second entry is cut short
    let bytes = [1u8, 0, 1, b'a', 7, 3, 0, 1, b'b', 0, 0];
    let mut cur = Reader::new(&bytes);
    assert_eq!(read_content(&mut cur, 10), Err(NbtError::UnexpectedEnd));
    assert_eq!(cur.remaining_len(), 11);
    assert_eq!(read_meta(&mut cur), Ok((1, "a".to_string())));
    assert_eq!(cur.remaining_len(), 7);
    assert_eq!(read_content(&mut cur, 2), Ok(Tag::Short(0x0703)));
    // the next two bytes say that a string of one byte follows
    assert_eq!(read_string(&mut cur), Ok("b".to_string()));
    assert_eq!(cur.remaining_len(), 2);
    assert_eq!(read_content(&mut cur, 3), Err(NbtError::UnexpectedEnd));
    assert_eq!(cur.remaining_len(), 2);
    assert_eq!(read_meta(&mut cur), Ok((0, String::new())));
    assert_eq!(cur.remaining_len(), 1);
    let list = [1u8, 0, 0, 0, 3, 5, 6];
    let mut cur = Reader::new(&list);
    assert_eq!(read_content(&mut cur, 9), Err(NbtError::UnexpectedEnd));
    assert_eq!(cur.remaining_len(), 7);
    let text = [0u8, 2, 0xc3, 0x28, 9];
    let mut cur = Reader::new(&text);
    assert_eq!(read_string(&mut cur), Err(NbtError::InvalidUtf8));
    assert_eq!(cur.remaining_len(), 5);
    let root = [9u8, 0, 0, 1, 0, 0, 0, 0];
    let mut cur = Reader::new(&root);
    assert_eq!(cur.read_nbt_data(), Err(NbtError::InvalidRoot));
    assert_eq!(cur.remaining_len(), 8);
    let negative = [0xffu8, 0xff, 0xff, 0xff];
    let mut cur = Reader::new(&negative);
    assert_eq!(read_int_array_content(&mut cur), Err(NbtError::NegativeLength(-1)));
    assert_eq!(cur.remaining_len(), 4);
}

#[test]
fn every_error_has_its_message() {
    assert_eq!(NbtError::InvalidTypeId(13).message(), "Invalid NBT tag id");
    assert_eq!(NbtError::InvalidUtf8.message(), "Invalid UTF-8 string in NBT parsing");
    assert_eq!(NbtError::InvalidRoot.message(), "Invalid NBT header");
    assert_eq!(NbtError::UnexpectedEnd.message(), "Unexpected end of NBT data");
    assert_eq!(NbtError::NegativeLength(-4).message(), "Negative length in NBT data");
}
