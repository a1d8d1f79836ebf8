use shoko::archive::{next_offset, ShokoArchive, ShokoEntry};
use shoko::error::ShokoError;

fn secret() -> Option<Vec<u8>> {
    Some(b"0123456789abcdef0123456789abcdef".to_vec())
}

fn reopen(archive: &ShokoArchive) -> ShokoArchive {
    ShokoArchive::open(archive.file.clone(), secret()).unwrap()
}

fn footer_of(file: &[u8]) -> (u64, u32) {
    let at = file.len() - 14;
    assert_eq!(&file[at + 12..], b"SK");
    (
        u64::from_le_bytes(file[at..at + 8].try_into().unwrap()),
        u32::from_le_bytes(file[at + 8..at + 12].try_into().unwrap()),
    )
}

#[test]
fn test_create_and_write_direct() {
    let mut archive = ShokoArchive::create(secret());
    let content = b"wsg shoko heres some repeats or shi: AAAAAAAAAAAAAAAAAAAAA";
    archive.write_file_direct("test.txt", content, 5).unwrap();
    let reopened = reopen(&archive);
    let extracted = reopened.extract_file("test.txt").unwrap();
    assert_eq!(content.to_vec(), extracted);
}

#[test]
fn test_multi_file_append() {
    let mut archive = ShokoArchive::create(secret());
    archive.write_file_direct("file1.bin", &[1, 2, 3], 0).unwrap();
    archive.write_file_direct("file2.bin", &[4, 5, 6], 9).unwrap();
    let reopened = reopen(&archive);
    assert_eq!(reopened.entries.len(), 2);
    let f1 = reopened.extract_file("file1.bin").unwrap();
    let f2 = reopened.extract_file("file2.bin").unwrap();
    assert_eq!(f1, vec![1, 2, 3]);
    assert_eq!(f2, vec![4, 5, 6]);
}

#[test]
fn test_deletion_and_defrag() {
    let mut archive = ShokoArchive::create(secret());
    archive.write_file_direct("file1.txt", b"some data", 0).unwrap();
    archive
        .write_file_direct("file2.txt", b"more data here", 0)
        .unwrap();
    let size_full = archive.file.len();
    archive.delete_file("file1.txt").unwrap();
    assert_eq!(archive.entries.len(), 1);
    let reopened = reopen(&archive);
    assert_eq!(reopened.entries.len(), 1);
    assert_eq!(reopened.entries[0].path, "file2.txt");
    archive.defrag().unwrap();
    let size_defragged = archive.file.len();
    assert!(
        size_defragged < size_full,
        "Archive should be smaller after deleting a file and defragging"
    );
    let content = archive.extract_file("file2.txt").unwrap();
    assert_eq!(content, b"more data here");
    let reopened = reopen(&archive);
    assert_eq!(reopened.entries.len(), 1);
    assert_eq!(reopened.extract_file("file2.txt").unwrap(), b"more data here");
}

#[test]
fn test_overwrite_integrity() {
    let mut archive = ShokoArchive::create(secret());
    archive
        .write_file_direct("config.toml", b"key = value", 0)
        .unwrap();
    archive
        .write_file_direct("config.toml", b"new_key = long_value_string", 0)
        .unwrap();
    let reopened = reopen(&archive);
    let data = reopened.extract_file("config.toml").unwrap();
    assert_eq!(data, b"new_key = long_value_string");
    assert_eq!(reopened.entries.len(), 1);
}

#[test]
fn fresh_archive_is_the_magic() {
    let archive = ShokoArchive::create(secret());
    assert_eq!(archive.file, b"SHOKO001");
    assert!(archive.entries.is_empty());
    assert_eq!(archive.secret, secret());
    assert_eq!(next_offset(&archive.entries), Ok(8));
}

#[test]
fn file_without_footer_opens_empty() {
    for bytes in [&b""[..], &b"SHOKO001"[..], &b"this is no archive at all, not even close"[..]] {
        let archive = ShokoArchive::open(bytes.to_vec(), secret()).unwrap();
        assert_eq!(archive.entries.len(), 0);
        assert_eq!(archive.file, bytes);
    }
}

#[test]
fn index_that_leaves_the_file_is_an_error() {
    let mut bytes = b"SHOKO001".to_vec();
    bytes.extend_from_slice(&8u64.to_le_bytes());
    bytes.extend_from_slice(&1u32.to_le_bytes());
    bytes.extend_from_slice(b"SK");
    assert_eq!(
        ShokoArchive::open(bytes, secret()).err(),
        Some(ShokoError::UnexpectedEof)
    );
    let mut bytes = b"SHOKO001".to_vec();
    bytes.extend_from_slice(&u64::MAX.to_le_bytes());
    bytes.extend_from_slice(&2u32.to_le_bytes());
    bytes.extend_from_slice(b"SK");
    assert_eq!(
        ShokoArchive::open(bytes, secret()).err(),
        Some(ShokoError::UnexpectedEof)
    );
    let mut bytes = b"SHOKO001".to_vec();
    bytes.extend_from_slice(&u64::MAX.to_le_bytes());
    bytes.extend_from_slice(&0u32.to_le_bytes());
    bytes.extend_from_slice(b"SK");
    assert_eq!(ShokoArchive::open(bytes, secret()).unwrap().entries.len(), 0);
}

#[test]
fn layout_after_writes() {
    let mut archive = ShokoArchive::create(secret());
    archive.write_file_direct("a", &[1, 2, 3], 0).unwrap();
    assert_eq!(&archive.file[..8], b"SHOKO001");
    assert_eq!(archive.entries[0].offset, 8);
    assert_eq!(archive.entries[0].size, 3 + 28);
    assert_eq!(archive.entries[0].compression_level, 0);
    assert_eq!(footer_of(&archive.file), (8 + 31, 1));
    assert_eq!(archive.file.len(), 8 + 31 + (4 + 1 + 17) + 14);

    archive.write_file_direct("bb", &[9u8; 50], 7).unwrap();
    assert_eq!(archive.entries.len(), 2);
    assert_eq!(archive.entries[1].path, "bb");
    assert_eq!(archive.entries[1].offset, 39);
    assert_eq!(archive.entries[1].size, 3 + 28);
    assert_eq!(archive.entries[1].compression_level, 7);
    assert_eq!(footer_of(&archive.file), (70, 2));
    assert_eq!(archive.file.len(), 70 + (4 + 1 + 17) + (4 + 2 + 17) + 14);
    assert_eq!(next_offset(&archive.entries), Ok(70));
}

#[test]
fn overwrite_appends_and_orphans_the_old_blob() {
    let mut archive = ShokoArchive::create(secret());
    archive.write_file_direct("a", b"first", 0).unwrap();
    archive.write_file_direct("b", b"second", 0).unwrap();
    let old_blob = archive.file[8..8 + 33].to_vec();
    archive.write_file_direct("a", b"third!!", 0).unwrap();
    assert_eq!(archive.entries.len(), 2);
    assert_eq!(archive.entries[0].path, "b");
    assert_eq!(archive.entries[1].path, "a");
    assert_eq!(archive.entries[1].offset, 8 + 33 + 34);
    assert_eq!(&archive.file[8..8 + 33], &old_blob[..]);
    assert_eq!(archive.extract_file("a").unwrap(), b"third!!");
    assert_eq!(archive.extract_file("b").unwrap(), b"second");
    let before = archive.file.len();
    archive.defrag().unwrap();
    assert_eq!(archive.file.len(), before - 33);
    assert_eq!(archive.entries[0].offset, 8);
    assert_eq!(archive.entries[1].offset, 8 + 34);
    assert_eq!(archive.extract_file("a").unwrap(), b"third!!");
    assert_eq!(archive.extract_file("b").unwrap(), b"second");
}

#[test]
fn unknown_path_is_not_found() {
    let mut archive = ShokoArchive::create(secret());
    archive.write_file_direct("here", b"x", 0).unwrap();
    let before = archive.file.clone();
    assert_eq!(archive.extract_file("gone"), Err(ShokoError::NotFound));
    assert_eq!(archive.delete_file("gone"), Err(ShokoError::NotFound));
    assert_eq!(archive.file, before);
    assert_eq!(archive.entries.len(), 1);
}

#[test]
fn delete_of_the_last_blob_cuts_the_file() {
    let mut archive = ShokoArchive::create(secret());
    archive.write_file_direct("a", b"one", 0).unwrap();
    archive.write_file_direct("b", b"two", 0).unwrap();
    archive.delete_file("b").unwrap();
    assert_eq!(footer_of(&archive.file), (8 + 31, 1));
    assert_eq!(archive.file.len(), 8 + 31 + 22 + 14);
    archive.delete_file("a").unwrap();
    assert_eq!(footer_of(&archive.file), (8, 0));
    assert_eq!(archive.file.len(), 8 + 14);
    assert_eq!(reopen(&archive).entries.len(), 0);
}

#[test]
fn write_without_a_secret_changes_nothing() {
    let mut archive = ShokoArchive::create(None);
    assert_eq!(
        archive.write_file_direct("a", b"x", 0),
        Err(ShokoError::PermissionDenied)
    );
    assert_eq!(archive.file, b"SHOKO001");
    assert!(archive.entries.is_empty());
    archive.secret = Some(vec![1, 2, 3]);
    assert_eq!(
        archive.write_file_direct("a", b"x", 0),
        Err(ShokoError::InvalidInput)
    );
    archive.secret = secret();
    assert_eq!(archive.write_file_direct("a", b"x", 0), Ok(()));
    archive.secret = Some(b"fedcba9876543210fedcba9876543210".to_vec());
    assert_eq!(archive.extract_file("a"), Err(ShokoError::PermissionDenied));
}

#[test]
fn entries_beyond_an_u64_are_refused() {
    let mut archive = ShokoArchive::create(secret());
    archive.entries.push(ShokoEntry {
        path: "huge".to_string(),
        size: 2,
        offset: u64::MAX - 1,
        compression_level: 0,
    });
    assert_eq!(next_offset(&archive.entries), Err(ShokoError::InvalidData));
    assert_eq!(
        archive.write_file_direct("a", b"x", 0),
        Err(ShokoError::InvalidData)
    );
    assert_eq!(archive.rewrite_index(), Err(ShokoError::InvalidData));
    assert_eq!(archive.file, b"SHOKO001");
}

#[test]
fn write_into_a_file_shorter_than_the_magic_pads_with_zeros() {
    let mut archive = ShokoArchive::open(vec![7, 7], secret()).unwrap();
    archive.write_file_direct("a", b"x", 0).unwrap();
    assert_eq!(&archive.file[..8], &[7, 7, 0, 0, 0, 0, 0, 0]);
    assert_eq!(archive.entries[0].offset, 8);
    assert_eq!(archive.extract_file("a").unwrap(), b"x");
}

#[test]
fn defrag_of_an_empty_archive_leaves_the_magic() {
    let mut archive = ShokoArchive::create(secret());
    archive.write_file_direct("a", b"x", 0).unwrap();
    archive.delete_file("a").unwrap();
    archive.defrag().unwrap();
    assert_eq!(archive.file, b"SHOKO001");
    assert!(archive.entries.is_empty());
}

#[test]
fn defrag_fails_whole_when_a_blob_cannot_be_read() {
    let mut archive = ShokoArchive::create(secret());
    archive.write_file_direct("a", b"one", 0).unwrap();
    archive.write_file_direct("b", b"two", 3).unwrap();
    archive.file[8 + 31 + 20] ^= 1;
    let before = archive.file.clone();
    assert_eq!(archive.defrag(), Err(ShokoError::PermissionDenied));
    assert_eq!(archive.file, before);
    assert_eq!(archive.entries.len(), 2);
}

#[test]
fn paths_stay_unique_over_many_writes() {
    let mut archive = ShokoArchive::create(secret());
    for round in 0..3u8 {
        for name in ["x", "y", "dir/z"] {
            archive.write_file_direct(name, &[round; 10], round).unwrap();
        }
    }
    assert_eq!(archive.entries.len(), 3);
    let reopened = reopen(&archive);
    let paths: Vec<&str> = reopened.entries.iter().map(|e| e.path.as_str()).collect();
    assert_eq!(paths, vec!["x", "y", "dir/z"]);
    for name in ["x", "y", "dir/z"] {
        assert_eq!(reopened.extract_file(name).unwrap(), vec![2u8; 10]);
    }
}

#[test]
fn defrag_keeps_order_paths_and_levels() {
    let mut archive = ShokoArchive::create(secret());
    archive.write_file_direct("one", &[1u8; 40], 2).unwrap();
    archive.write_file_direct("two", &[2u8; 3], 0).unwrap();
    archive.write_file_direct("three", b"abcabc", 9).unwrap();
    archive.write_file_direct("one", &[7u8; 9], 5).unwrap();
    archive.delete_file("two").unwrap();
    archive.defrag().unwrap();
    assert_eq!(archive.entries.len(), 2);
    assert_eq!(archive.entries[0].path, "three");
    assert_eq!(archive.entries[0].compression_level, 9);
    assert_eq!(archive.entries[0].offset, 8);
    assert_eq!(archive.entries[0].size, 2 + 6 + 28);
    assert_eq!(archive.entries[1].path, "one");
    assert_eq!(archive.entries[1].compression_level, 5);
    assert_eq!(archive.entries[1].offset, 8 + 36);
    assert_eq!(archive.entries[1].size, 3 + 28);
    assert_eq!(footer_of(&archive.file), (8 + 36 + 31, 2));
    assert_eq!(
        archive.file.len(),
        8 + 36 + 31 + (4 + 5 + 17) + (4 + 3 + 17) + 14
    );
    assert_eq!(archive.extract_file("three").unwrap(), b"abcabc");
    assert_eq!(archive.extract_file("one").unwrap(), vec![7u8; 9]);
    assert_eq!(archive.extract_file("two"), Err(ShokoError::NotFound));
}

#[test]
fn reopened_archive_has_the_same_entry_table() {
    let mut archive = ShokoArchive::create(secret());
    archive.write_file_direct("dir/a.txt", b"alpha", 1).unwrap();
    archive.write_file_direct("dir/ü.txt", b"beta", 0).unwrap();
    archive.write_file_direct("c", &[], 4).unwrap();
    let reopened = reopen(&archive);
    assert_eq!(reopened.entries.len(), archive.entries.len());
    for (left, right) in reopened.entries.iter().zip(archive.entries.iter()) {
        assert_eq!(left.path, right.path);
        assert_eq!(left.size, right.size);
        assert_eq!(left.offset, right.offset);
        assert_eq!(left.compression_level, right.compression_level);
    }
    assert_eq!(reopened.extract_file("c").unwrap(), Vec::<u8>::new());
    assert_eq!(reopened.extract_file("dir/ü.txt").unwrap(), b"beta");
}

#[test]
fn rewrite_index_leaves_a_valid_trailer() {
    let mut archive = ShokoArchive::create(secret());
    assert_eq!(archive.rewrite_index(), Ok(()));
    assert_eq!(archive.file.len(), 8 + 14);
    assert_eq!(footer_of(&archive.file), (8, 0));
    archive.write_file_direct("a", b"x", 0).unwrap();
    let written = archive.file.clone();
    assert_eq!(archive.rewrite_index(), Ok(()));
    assert_eq!(archive.file, written);
}
