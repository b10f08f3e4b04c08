use dozer_core::codec::{Decode, Encode};
use dozer_core::errors::StorageError;
use dozer_core::record::{MetadataRecord, ENTRY_LEN, NODE_TAG, SOURCE_TAG};

#[test]
fn a_source_record_is_a_tag_and_eight_bytes() {
    let record = MetadataRecord::Source { position: 0x0102_0304_0506_0708 };
    assert_eq!(record.encode(), vec![0u8, 1, 2, 3, 4, 5, 6, 7, 8]);
    assert_eq!(MetadataRecord::decode(&[0, 1, 2, 3, 4, 5, 6, 7, 8]), Ok(record));
    assert_eq!(
        MetadataRecord::Source { position: 0 }.encode(),
        vec![SOURCE_TAG, 0, 0, 0, 0, 0, 0, 0, 0]
    );
}

#[test]
fn a_node_record_is_a_tag_and_ten_bytes_for_each_port() {
    let record = MetadataRecord::Node { commits: vec![(0x0a0b, 3), (0xffff, u64::MAX)] };
    let bytes = record.encode();
    assert_eq!(
        bytes,
        vec![
            1u8, 0x0a, 0x0b, 0, 0, 0, 0, 0, 0, 0, 3, 0xff, 0xff, 0xff, 0xff, 0xff, 0xff, 0xff,
            0xff, 0xff, 0xff
        ]
    );
    assert_eq!(bytes.len(), 1 + 2 * ENTRY_LEN);
    assert_eq!(MetadataRecord::decode(&bytes), Ok(record));
}

#[test]
fn a_node_without_ports_has_a_record_of_one_byte() {
    let record = MetadataRecord::Node { commits: Vec::new() };
    assert_eq!(record.encode(), vec![NODE_TAG]);
    assert_eq!(MetadataRecord::decode(&[NODE_TAG]), Ok(record));
}

#[test]
fn bytes_that_are_no_record_are_refused() {
    let refused = Err(StorageError::DeserializationError);
    assert_eq!(MetadataRecord::decode(&[]), refused);
    assert_eq!(MetadataRecord::decode(&[2]), refused);
    assert_eq!(MetadataRecord::decode(&[0]), refused);
    assert_eq!(MetadataRecord::decode(&[0, 1, 2, 3, 4, 5, 6, 7]), refused);
    assert_eq!(MetadataRecord::decode(&[0, 1, 2, 3, 4, 5, 6, 7, 8, 9]), refused);
    assert_eq!(MetadataRecord::decode(&[1, 0]), refused);
    assert_eq!(MetadataRecord::decode(&[1, 0, 1, 0, 0, 0, 0, 0, 0, 0]), refused);
    assert_eq!(MetadataRecord::decode(&[1, 0, 1, 0, 0, 0, 0, 0, 0, 0, 5, 9]), refused);
    assert_eq!(MetadataRecord::decode(&[255, 0, 0, 0, 0, 0, 0, 0, 0]), refused);
}

#[test]
fn records_round_trip() {
    let records = vec![
        MetadataRecord::Source { position: 0 },
        MetadataRecord::Source { position: u64::MAX },
        MetadataRecord::Source { position: 1 << 40 },
        MetadataRecord::Node { commits: vec![(1, 1)] },
        MetadataRecord::Node { commits: (0..100u16).map(|port| (port, port as u64 * 7919)).collect() },
    ];
    for record in records {
        assert_eq!(MetadataRecord::decode(&record.encode()), Ok(record));
    }
}

#[test]
fn ports_are_encoded_in_two_bytes() {
    assert_eq!(0x1234u16.encode().unwrap().as_bytes(), &[0x12u8, 0x34]);
    assert_eq!(u16::decode(&[0x12, 0x34]), Ok(0x1234));
    assert_eq!(u16::decode(&[0xff, 0xff]), Ok(u16::MAX));
    assert_eq!(u16::decode(&[1]), Err(StorageError::DeserializationError));
    assert_eq!(u16::decode(&[1, 2, 3]), Err(StorageError::DeserializationError));
}
