use shoko::error::ShokoError;
use shoko::read::ShokoReader;
use shoko::write::ShokoWriter;

fn secret() -> Option<Vec<u8>> {
    Some(b"0123456789abcdef0123456789abcdef".to_vec())
}

#[test]
fn index_record_layout() {
    let mut writer = ShokoWriter::new(vec![0xaa]);
    writer
        .write_index_entry("a.txt", 0x0102030405060708, 8, 5)
        .unwrap();
    let mut expected = vec![0xaa, 5, 0, 0, 0];
    expected.extend_from_slice(b"a.txt");
    expected.extend_from_slice(&[8, 7, 6, 5, 4, 3, 2, 1]);
    expected.extend_from_slice(&[8, 0, 0, 0, 0, 0, 0, 0]);
    expected.push(5);
    assert_eq!(writer.handle, expected);
    assert_eq!(writer.seek_to_end(), 27);
}

#[test]
fn index_record_counts_bytes_of_the_path() {
    let mut writer = ShokoWriter::new(Vec::new());
    writer.write_index_entry("é", 1, 2, 0).unwrap();
    assert_eq!(&writer.handle[..6], &[2, 0, 0, 0, 0xc3, 0xa9]);
    assert_eq!(writer.handle.len(), 4 + 2 + 17);
}

#[test]
fn footer_layout() {
    let mut writer = ShokoWriter::new(Vec::new());
    writer.finalize(0x1122334455667788, 0x0a0b0c0d);
    assert_eq!(
        writer.into_inner(),
        vec![0x88, 0x77, 0x66, 0x55, 0x44, 0x33, 0x22, 0x11, 0x0d, 0x0c, 0x0b, 0x0a, b'S', b'K']
    );
}

#[test]
fn footer_is_read_from_the_last_14_bytes() {
    let mut writer = ShokoWriter::new(b"SHOKO001 some blobs".to_vec());
    writer.finalize(19, 3);
    let bytes = writer.into_inner();
    let reader = ShokoReader::new(&bytes);
    assert_eq!(reader.get_footer_info(), Ok((19, 3)));
}

#[test]
fn footer_needs_14_bytes_and_the_magic() {
    assert_eq!(
        ShokoReader::new(&[0u8; 13]).get_footer_info(),
        Err(ShokoError::InvalidInput)
    );
    assert_eq!(
        ShokoReader::new(&[]).get_footer_info(),
        Err(ShokoError::InvalidInput)
    );
    assert_eq!(
        ShokoReader::new(&[0u8; 14]).get_footer_info(),
        Err(ShokoError::InvalidData)
    );
    let mut almost = vec![0u8; 12];
    almost.extend_from_slice(b"SX");
    assert_eq!(
        ShokoReader::new(&almost).get_footer_info(),
        Err(ShokoError::InvalidData)
    );
    let mut good = vec![0u8; 12];
    good.extend_from_slice(b"SK");
    assert_eq!(ShokoReader::new(&good).get_footer_info(), Ok((0, 0)));
}

#[test]
fn index_records_are_read_in_sequence() {
    let mut writer = ShokoWriter::new(vec![1, 2, 3]);
    writer.write_index_entry("logs/today.log", 40, 8, 0).unwrap();
    writer.write_index_entry("b", 50, 48, 9).unwrap();
    let bytes = writer.into_inner();
    let mut reader = ShokoReader::new(&bytes);
    reader.seek(3);
    assert_eq!(
        reader.read_index_entry(),
        Ok(("logs/today.log".to_string(), 40, 8, 0))
    );
    assert_eq!(reader.pos, 3 + 4 + 14 + 17);
    assert_eq!(reader.read_index_entry(), Ok(("b".to_string(), 50, 48, 9)));
    assert_eq!(reader.pos, bytes.len());
    assert_eq!(reader.read_index_entry(), Err(ShokoError::UnexpectedEof));
    assert_eq!(reader.pos, bytes.len());
}

#[test]
fn cut_index_record_is_an_error() {
    let mut writer = ShokoWriter::new(Vec::new());
    writer.write_index_entry("name", 1, 2, 3).unwrap();
    let bytes = writer.into_inner();
    for cut in 0..bytes.len() {
        let mut reader = ShokoReader::new(&bytes[..cut]);
        assert_eq!(reader.read_index_entry(), Err(ShokoError::UnexpectedEof));
        assert_eq!(reader.pos, 0);
    }
    let mut reader = ShokoReader::new(&bytes);
    reader.seek(bytes.len() + 5);
    assert_eq!(reader.read_index_entry(), Err(ShokoError::UnexpectedEof));
}

#[test]
fn path_is_decoded_leniently() {
    let mut bytes = vec![3, 0, 0, 0, b'a', 0xff, b'b'];
    bytes.extend_from_slice(&7u64.to_le_bytes());
    bytes.extend_from_slice(&8u64.to_le_bytes());
    bytes.push(1);
    let mut reader = ShokoReader::new(&bytes);
    assert_eq!(
        reader.read_index_entry(),
        Ok(("a\u{fffd}b".to_string(), 7, 8, 1))
    );
}

#[test]
fn blob_written_is_blob_read() {
    let data = b"wsg shoko heres some repeats or shi: AAAAAAAAAAAAAAAAAAAAA";
    for level in [0u8, 1, 5, 9] {
        let mut writer = ShokoWriter::new(b"SHOKO001".to_vec());
        let size = writer.write_blob(&secret(), data, level).unwrap();
        assert_eq!(writer.seek_to_end(), 8 + size);
        let bytes = writer.into_inner();
        let reader = ShokoReader::new(&bytes);
        assert_eq!(reader.read_blob(&secret(), 8, size, level), Ok(data.to_vec()));
    }
}

#[test]
fn blob_size_counts_nonce_and_tag() {
    let mut writer = ShokoWriter::new(Vec::new());
    assert_eq!(writer.write_blob(&secret(), &[1, 2, 3], 0), Ok(3 + 28));
    assert_eq!(writer.write_blob(&secret(), &[4, 5, 6], 9), Ok(5 + 28));
    assert_eq!(writer.write_blob(&secret(), &[7u8; 100], 5), Ok(3 + 28));
    assert_eq!(writer.handle.len(), 31 + 33 + 31);
}

#[test]
fn blob_is_not_written_without_a_secret() {
    let mut writer = ShokoWriter::new(vec![9, 9]);
    assert_eq!(
        writer.write_blob(&None, &[1, 2, 3], 0),
        Err(ShokoError::PermissionDenied)
    );
    assert_eq!(
        writer.write_blob(&Some(vec![0u8; 5]), &[1, 2, 3], 0),
        Err(ShokoError::InvalidInput)
    );
    assert_eq!(writer.handle, vec![9, 9]);
}

#[test]
fn short_read_of_a_blob_is_an_error() {
    let mut writer = ShokoWriter::new(Vec::new());
    let size = writer.write_blob(&secret(), b"data", 0).unwrap();
    let bytes = writer.into_inner();
    let reader = ShokoReader::new(&bytes);
    assert_eq!(
        reader.read_blob(&secret(), 0, size + 1, 0),
        Err(ShokoError::UnexpectedEof)
    );
    assert_eq!(
        reader.read_blob(&secret(), 1, size, 0),
        Err(ShokoError::UnexpectedEof)
    );
    assert_eq!(
        reader.read_blob(&secret(), u64::MAX, 2, 0),
        Err(ShokoError::UnexpectedEof)
    );
    assert_eq!(
        reader.read_blob(&secret(), 0, 5, 0),
        Err(ShokoError::InvalidInput)
    );
    assert_eq!(reader.read_blob(&secret(), 0, size, 0), Ok(b"data".to_vec()));
}

#[test]
fn blob_stored_raw_is_not_decoded_as_a_stream() {
    let mut writer = ShokoWriter::new(Vec::new());
    let size = writer.write_blob(&secret(), &[2, 2, 2], 0).unwrap();
    let bytes = writer.into_inner();
    let reader = ShokoReader::new(&bytes);
    assert_eq!(reader.read_blob(&secret(), 0, size, 0), Ok(vec![2, 2, 2]));
    assert_eq!(
        reader.read_blob(&secret(), 0, size, 3),
        Err(ShokoError::InvalidData)
    );
}
