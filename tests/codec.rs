use rjvm::constant::{Constant, ConstantInteger, ConstantUtf8};
use rjvm::error::{ErrorKind, JvmError};
use rjvm::manifest::parse_manifest;
use rjvm::reader::BytecodeReader;

#[test]
fn reads_big_endian_integers() {
    let mut r = BytecodeReader::new(vec![0x12, 0x34, 0x56, 0x78, 0x9A, 0xBC, 0xDE]);
    assert_eq!(r.u8(), Ok(0x12));
    assert_eq!(r.u16(), Ok(0x3456));
    assert_eq!(r.u32(), Ok(0x789ABCDE));
    assert_eq!(r.offset, 7);
}

#[test]
fn short_read_fails_without_moving() {
    let mut r = BytecodeReader::new(vec![1, 2, 3]);
    assert_eq!(r.u32(), Err(JvmError::OutOfBounds { offset: 0, wanted: 4 }));
    assert_eq!(r.offset, 0);
    assert_eq!(r.u16(), Ok(0x0102));
    assert_eq!(r.u16(), Err(JvmError::OutOfBounds { offset: 2, wanted: 2 }));
    assert_eq!(r.u8(), Ok(3));
    assert_eq!(r.u8(), Err(JvmError::OutOfBounds { offset: 3, wanted: 1 }));
}

#[test]
fn read_as_u64_widths() {
    let mut r = BytecodeReader::new(vec![0, 0, 0, 0, 0, 0, 1, 2, 0xFF]);
    assert_eq!(r.read_as_u64(0), Ok(0));
    assert_eq!(r.read_as_u64(9), Ok(0));
    assert_eq!(r.offset, 0);
    assert_eq!(r.read_as_u64(8), Ok(0x0102));
    assert_eq!(r.read_as_u64(1), Ok(0xFF));
}

#[test]
fn read_as_vec_and_reset() {
    let mut r = BytecodeReader::new(vec![9, 8, 7, 6]);
    assert_eq!(r.read_as_vec(3), Ok(vec![9, 8, 7]));
    assert_eq!(r.read_as_vec(2), Err(JvmError::OutOfBounds { offset: 3, wanted: 2 }));
    r.reset();
    assert_eq!(r.offset, 0);
    assert_eq!(r.read_as_vec(0), Ok(vec![]));
    assert_eq!(r.read_as_vec(4), Ok(vec![9, 8, 7, 6]));
}

#[test]
fn read_as_string_decodes_utf8() {
    let mut r = BytecodeReader::new(vec![0x63, 0x61, 0x66, 0xC3, 0xA9, 0xFF]);
    assert_eq!(r.read_as_string(5), Ok(String::from("café")));
    assert_eq!(r.read_as_string(1), Err(JvmError::InvalidUtf8));
    assert_eq!(r.offset, 6);
}

fn round_trip(bytes: Vec<u8>) {
    let mut r = BytecodeReader::new(bytes.clone());
    let c = Constant::new(&mut r).unwrap();
    assert_eq!(r.offset, bytes.len());
    assert_eq!(c.to_bytes(), bytes);
}

#[test]
fn every_constant_tag_round_trips() {
    round_trip(vec![1, 0, 3, b'a', b'b', b'c']);
    round_trip(vec![1, 0, 0]);
    round_trip(vec![3, 0xFF, 0xFF, 0xFF, 0xFE]);
    round_trip(vec![4, 0x3F, 0x80, 0, 0]);
    round_trip(vec![5, 0x80, 0, 0, 0, 0, 0, 0, 1]);
    round_trip(vec![6, 0x40, 0x09, 0x21, 0xFB, 0x54, 0x44, 0x2D, 0x18]);
    round_trip(vec![7, 0, 2]);
    round_trip(vec![8, 0x01, 0x00]);
    round_trip(vec![9, 0, 1, 0, 2]);
    round_trip(vec![10, 0, 3, 0, 4]);
    round_trip(vec![11, 0, 5, 0, 6]);
    round_trip(vec![12, 0, 7, 0, 8]);
    round_trip(vec![15, 6, 0, 9]);
    round_trip(vec![16, 0, 10]);
    round_trip(vec![17, 0, 11, 0, 12]);
    round_trip(vec![18, 0, 13, 0, 14]);
    round_trip(vec![19, 0, 15]);
    round_trip(vec![20, 0, 16]);
}

#[test]
fn integer_constant_is_signed() {
    let mut r = BytecodeReader::new(vec![3, 0xFF, 0xFF, 0xFF, 0xFE]);
    match Constant::new(&mut r).unwrap() {
        Constant::Integer(ConstantInteger { bytes }) => assert_eq!(bytes, -2),
        _ => panic!("expected an Integer constant"),
    }
}

#[test]
fn utf8_constant_keeps_raw_bytes() {
    let mut r = BytecodeReader::new(vec![1, 0, 2, 0xC0, 0x80]);
    match Constant::new(&mut r).unwrap() {
        Constant::Utf8(ConstantUtf8 { bytes }) => assert_eq!(bytes, vec![0xC0, 0x80]),
        _ => panic!("expected a Utf8 constant"),
    }
}

#[test]
fn unknown_constant_tag_is_a_format_error() {
    let mut r = BytecodeReader::new(vec![2, 0, 0]);
    let e = Constant::new(&mut r).err().unwrap();
    assert_eq!(e, JvmError::UnknownConstantTag { tag: 2 });
    assert_eq!(e.kind(), ErrorKind::Format);
}

#[test]
fn truncated_constant_is_out_of_bounds() {
    let mut r = BytecodeReader::new(vec![10, 0, 1, 0]);
    assert_eq!(
        Constant::new(&mut r).err(),
        Some(JvmError::OutOfBounds { offset: 3, wanted: 2 })
    );
    let mut r = BytecodeReader::new(vec![1, 0, 5, b'a']);
    assert_eq!(
        Constant::new(&mut r).err(),
        Some(JvmError::OutOfBounds { offset: 3, wanted: 5 })
    );
}

#[test]
fn utf8_lookup_in_pool() {
    let mut r = BytecodeReader::new(vec![1, 0, 2, b'h', b'i', 7, 0, 1]);
    let pool = rjvm::constant::read_constant_pool(&mut r, 3).unwrap();
    assert_eq!(pool.len(), 2);
    assert_eq!(Constant::read_utf8_data(&pool, 1), Ok(String::from("hi")));
    assert_eq!(Constant::read_utf8_data(&pool, 2), Err(JvmError::WrongConstantKind { index: 2 }));
    assert_eq!(Constant::read_utf8_data(&pool, 0), Err(JvmError::IndexOutOfRange { index: 0 }));
    assert_eq!(Constant::read_utf8_data(&pool, 3), Err(JvmError::IndexOutOfRange { index: 3 }));
    assert_eq!(Constant::read_class_name(&pool, 2), Ok(String::from("hi")));
    assert_eq!(Constant::read_class_name(&pool, 1), Err(JvmError::WrongConstantKind { index: 1 }));
}

#[test]
fn empty_pool_count() {
    let mut r = BytecodeReader::new(vec![]);
    assert_eq!(rjvm::constant::read_constant_pool(&mut r, 0).map(|p| p.len()), Ok(0));
    assert_eq!(rjvm::constant::read_constant_pool(&mut r, 1).map(|p| p.len()), Ok(0));
    assert_eq!(
        rjvm::constant::read_constant_pool(&mut r, 2).err(),
        Some(JvmError::OutOfBounds { offset: 0, wanted: 1 })
    );
}

#[test]
fn manifest_entries_in_order() {
    let text = b"Manifest-Version: 1.0\r\nMain-Class: \x0b com.example.Main \r\nno colon here\n\nCreated-By: a:b\n";
    let entries = parse_manifest(&text.to_vec()).unwrap();
    assert_eq!(
        entries,
        vec![
            (String::from("Manifest-Version"), String::from("1.0")),
            (String::from("Main-Class"), String::from("com.example.Main")),
            (String::from("Created-By"), String::from("a")),
        ]
    );
}

#[test]
fn manifest_without_final_newline() {
    let entries = parse_manifest(&b"Main-Class: Hello".to_vec()).unwrap();
    assert_eq!(entries, vec![(String::from("Main-Class"), String::from("Hello"))]);
    assert_eq!(parse_manifest(&vec![]), Ok(vec![]));
}

#[test]
fn manifest_with_invalid_text_fails() {
    assert_eq!(parse_manifest(&vec![b'k', b':', 0xFF, b'\n']), Err(JvmError::InvalidUtf8));
    assert_eq!(parse_manifest(&vec![0xFF, b'\n']), Ok(vec![]));
}
