use sqlite_reader::btree_page::{BTreePage, PageType};
use sqlite_reader::db_header::DBHeader;
use sqlite_reader::error::DbError;
use sqlite_reader::record::read_record;
use sqlite_reader::serial_value::SerialValue;
use sqlite_reader::text::{compare_text, text_eq};
use std::cmp::Ordering;

fn read(t: u64, bytes: &[u8]) -> Result<(SerialValue, usize), DbError> {
    SerialValue::read(t, bytes, 0)
}

#[test]
fn integers_of_each_width() {
    assert!(matches!(read(1, &[0xff]), Ok((SerialValue::Int8(-1), 1))));
    assert!(matches!(read(2, &[0x01, 0x00]), Ok((SerialValue::Int16(256), 2))));
    assert!(matches!(read(3, &[0xff, 0xff, 0xfe]), Ok((SerialValue::Int24(-2), 3))));
    assert!(matches!(read(4, &[0x7f, 0xff, 0xff, 0xff]), Ok((SerialValue::Int32(2147483647), 4))));
    assert!(matches!(
        read(5, &[0x80, 0, 0, 0, 0, 0]),
        Ok((SerialValue::Int48(-140737488355328), 6))
    ));
    assert!(matches!(
        read(6, &[0x80, 0, 0, 0, 0, 0, 0, 0]),
        Ok((SerialValue::Int64(i64::MIN), 8))
    ));
    assert!(matches!(read(8, &[]), Ok((SerialValue::Zero, 0))));
    assert!(matches!(read(9, &[]), Ok((SerialValue::One, 0))));
    assert!(matches!(read(0, &[]), Ok((SerialValue::Null, 0))));
}

#[test]
fn float_keeps_its_bits() {
    let bits = 1.5f64.to_bits();
    match read(7, &bits.to_be_bytes()) {
        Ok((SerialValue::Float64(b), 8)) => assert_eq!(f64::from_bits(b), 1.5),
        other => panic!("unexpected {:?}", other),
    }
}

#[test]
fn blob_and_text_lengths() {
    match read(18, &[1, 2, 3, 9]) {
        Ok((SerialValue::Blob(b), 3)) => assert_eq!(b, vec![1, 2, 3]),
        other => panic!("unexpected {:?}", other),
    }
    match read(13 + 2 * 5, "héllo".as_bytes()) {
        Ok((SerialValue::Text(t), 5)) => assert_eq!(t, "héll"),
        other => panic!("unexpected {:?}", other),
    }
    match read(13 + 2 * 6, "héllo".as_bytes()) {
        Ok((SerialValue::Text(t), 6)) => assert_eq!(t, "héllo"),
        other => panic!("unexpected {:?}", other),
    }
}

#[test]
fn value_errors() {
    assert_eq!(read(10, &[0; 8]).err(), Some(DbError::Record));
    assert_eq!(read(11, &[0; 8]).err(), Some(DbError::Record));
    assert_eq!(read(13 + 2 * 2, &[0xc3, 0x28]).err(), Some(DbError::Record));
    assert_eq!(read(6, &[0; 7]).err(), Some(DbError::Record));
    assert_eq!(read(12 + 2 * 4, &[1, 2]).err(), Some(DbError::Record));
}

#[test]
fn text_forms() {
    assert_eq!(SerialValue::Null.text_form().unwrap(), "(null)");
    assert_eq!(SerialValue::Zero.text_form().unwrap(), "0");
    assert_eq!(SerialValue::One.text_form().unwrap(), "1");
    assert_eq!(SerialValue::Int8(-7).text_form().unwrap(), "-7");
    assert_eq!(SerialValue::Int64(i64::MIN).text_form().unwrap(), "-9223372036854775808");
    assert_eq!(SerialValue::Int32(1234567).text_form().unwrap(), "1234567");
    assert_eq!(SerialValue::Blob(vec![1, 20, 255]).text_form().unwrap(), "[1, 20, 255]");
    assert_eq!(SerialValue::Blob(vec![]).text_form().unwrap(), "[]");
    assert_eq!(SerialValue::Text(String::from("Fuji")).text_form().unwrap(), "Fuji");
    assert!(SerialValue::Float64(0).text_form().is_none());
}

#[test]
fn integer_views() {
    assert_eq!(SerialValue::Int16(300).as_integer(), Some(300));
    assert_eq!(SerialValue::One.as_rowid(), Some(1));
    assert_eq!(SerialValue::Int8(-1).as_rowid(), None);
    assert_eq!(SerialValue::Int24(5).as_usize(), Some(5));
    assert_eq!(SerialValue::Text(String::from("5")).as_usize(), None);
}

#[test]
fn record_with_header_and_body() {
    // header size 4: types 1 (int8), 0 (null), 17 (two-byte text)
    let bytes = vec![4, 1, 0, 17, 42, b'h', b'i'];
    let values = read_record(&bytes, 0).unwrap();
    assert_eq!(values.len(), 3);
    assert!(matches!(values[0], SerialValue::Int8(42)));
    assert!(matches!(values[1], SerialValue::Null));
    assert!(matches!(&values[2], SerialValue::Text(t) if t == "hi"));
}

#[test]
fn inconsistent_record_header_is_a_page_error() {
    // header claims 2 bytes but its serial type varint runs to byte 3
    let bytes = vec![2, 0x81, 0x01, 0];
    assert_eq!(read_record(&bytes, 0).err(), Some(DbError::Page));
}

#[test]
fn record_past_the_page_is_a_record_error() {
    let bytes = vec![3, 1, 1, 7];
    assert_eq!(read_record(&bytes, 0).err(), Some(DbError::Record));
}

fn leaf_page(pointers: &[u16], content_start: u16) -> Vec<u8> {
    let mut p = vec![0u8; 512];
    p[0] = 0x0d;
    p[3..5].copy_from_slice(&(pointers.len() as u16).to_be_bytes());
    p[5..7].copy_from_slice(&content_start.to_be_bytes());
    for (i, ptr) in pointers.iter().enumerate() {
        p[8 + 2 * i..10 + 2 * i].copy_from_slice(&ptr.to_be_bytes());
    }
    p
}

#[test]
fn page_header_and_pointers() {
    let page = BTreePage::new(&leaf_page(&[500, 480], 480), None).unwrap();
    assert_eq!(page.page_type, PageType::LeafTable);
    assert_eq!(page.num_cells, 2);
    assert_eq!(page.cell_pointers, vec![500, 480]);
    assert_eq!(page.right_most_pointer, None);
}

#[test]
fn pointers_outside_the_content_area_are_page_errors() {
    assert_eq!(BTreePage::new(&leaf_page(&[512], 480), None).err(), Some(DbError::Page));
    assert_eq!(BTreePage::new(&leaf_page(&[100], 480), None).err(), Some(DbError::Page));
    assert_eq!(BTreePage::new(&leaf_page(&[0], 480), None).err(), Some(DbError::Page));
}

#[test]
fn page_kinds() {
    assert_eq!(PageType::from(0x02), Ok(PageType::InteriorIndex));
    assert_eq!(PageType::from(0x05), Ok(PageType::InteriorTable));
    assert_eq!(PageType::from(0x0a), Ok(PageType::LeafIndex));
    assert_eq!(PageType::from(0x0d), Ok(PageType::LeafTable));
    assert_eq!(PageType::from(0x01), Err(DbError::Page));
    assert!(PageType::InteriorTable.is_interior());
    assert!(!PageType::LeafIndex.is_interior());
}

#[test]
fn header_page_size_sentinel() {
    let mut bytes = vec![0u8; 100];
    bytes[0..16].copy_from_slice(b"SQLite format 3\0");
    bytes[16..18].copy_from_slice(&1u16.to_be_bytes());
    let header = DBHeader::from_bytes(&bytes).unwrap();
    assert_eq!(header.page_size(), 65536);
    bytes[16..18].copy_from_slice(&4096u16.to_be_bytes());
    assert_eq!(DBHeader::from_bytes(&bytes).unwrap().page_size(), 4096);
    bytes[56..60].copy_from_slice(&2u32.to_be_bytes());
    assert_eq!(DBHeader::from_bytes(&bytes).err(), Some(DbError::Header));
    assert_eq!(DBHeader::from_bytes(&bytes[..99]).err(), Some(DbError::Header));
}

#[test]
fn text_order_is_byte_order() {
    assert_eq!(compare_text("Blue Eyes", "Brown Eyes"), Ordering::Less);
    assert_eq!(compare_text("Pink", "Pink Eyes"), Ordering::Less);
    assert_eq!(compare_text("b", "B"), Ordering::Greater);
    assert_eq!(compare_text("é", "z"), Ordering::Greater);
    assert_eq!(compare_text("same", "same"), Ordering::Equal);
    assert!(text_eq("Pink Eyes", "Pink Eyes"));
    assert!(!text_eq("Pink Eyes", "Pink eyes"));
}
