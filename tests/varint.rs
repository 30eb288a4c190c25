use sqlite_reader::varint::{encode_varint, read_varint_at, ByteReader, ReadVarint};

#[test]
fn single_byte() {
    let mut data = ByteReader::new(vec![120]);
    assert_eq!(data.read_varint().unwrap(), 120)
}

#[test]
fn two_bytes() {
    let mut data = ByteReader::new(vec![240, 62]);
    assert_eq!(data.read_varint().unwrap(), 14398)
}

#[test]
fn three_bytes() {
    let mut data = ByteReader::new(vec![129, 129, 54]);
    assert_eq!(data.read_varint().unwrap(), 16566)
}

#[test]
fn varint_corpus_round_trips() {
    let corpus: Vec<u64> = vec![0, 1, 127, 128, 14398, 16566, 1u64 << 32, (1u64 << 63) - 1];
    for v in corpus {
        let bytes = encode_varint(v);
        let mut reader = ByteReader::new(bytes.clone());
        assert_eq!(reader.read_varint().unwrap(), v);
        assert_eq!(reader.pos, bytes.len());
    }
}

#[test]
fn varint_encoding_lengths() {
    assert_eq!(encode_varint(0), vec![0]);
    assert_eq!(encode_varint(127), vec![127]);
    assert_eq!(encode_varint(128), vec![0x81, 0x00]);
    assert_eq!(encode_varint(14398), vec![240, 62]);
    assert_eq!(encode_varint((1u64 << 56) - 1).len(), 8);
    assert_eq!(encode_varint(1u64 << 56).len(), 9);
    assert_eq!(encode_varint(u64::MAX), vec![0xff; 9]);
}

#[test]
fn nine_byte_varint_uses_all_bits_of_last_byte() {
    let bytes = vec![0xff, 0xff, 0xff, 0xff, 0xff, 0xff, 0xff, 0xff, 0xff, 0x01];
    assert_eq!(read_varint_at(&bytes, 0), Some((u64::MAX, 9)));
}

#[test]
fn truncated_varint_is_rejected() {
    assert_eq!(read_varint_at(&[0x81, 0x82], 0), None);
    let mut reader = ByteReader::new(vec![0x80]);
    assert!(reader.read_varint().is_err());
}

#[test]
fn varint_read_at_offset() {
    let bytes = vec![0x05, 0x81, 0x00, 0x07];
    assert_eq!(read_varint_at(&bytes, 1), Some((128, 3)));
    assert_eq!(read_varint_at(&bytes, 3), Some((7, 4)));
}
