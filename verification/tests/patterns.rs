use shoko::archive::ShokoArchive;
use shoko::error::ShokoError;

fn secret() -> Option<Vec<u8>> {
    Some(b"0123456789abcdef0123456789abcdef".to_vec())
}

fn sample() -> ShokoArchive {
    let mut archive = ShokoArchive::create(secret());
    archive.write_file_direct("logs/today.log", b"test", 0).unwrap();
    archive
        .write_file_direct("logs/yesterday.log", b"test", 0)
        .unwrap();
    archive.write_file_direct("data/db.sqlite", b"test", 0).unwrap();
    archive.write_file_direct("README.md", b"test", 0).unwrap();
    archive
}

#[test]
fn test_glob_matching() {
    let archive = sample();
    let log_matches = archive.match_glob("logs/*.log").unwrap();
    assert_eq!(log_matches.len(), 2);
    assert!(log_matches.contains(&"logs/today.log".to_string()));
    let md_matches = archive.match_glob("*.md").unwrap();
    assert_eq!(md_matches.len(), 1);
    assert_eq!(md_matches[0], "README.md");
}

#[test]
fn matches_come_in_index_order() {
    let archive = sample();
    assert_eq!(
        archive.match_glob("logs/*.log").unwrap(),
        vec!["logs/today.log".to_string(), "logs/yesterday.log".to_string()]
    );
    assert_eq!(archive.match_glob("*").unwrap().len(), 4);
    assert_eq!(archive.match_glob("nothing").unwrap(), Vec::<String>::new());
    assert_eq!(
        archive.match_glob("data/db.sqlite").unwrap(),
        vec!["data/db.sqlite".to_string()]
    );
}

#[test]
fn broken_pattern_is_invalid_input() {
    let archive = sample();
    assert_eq!(archive.match_glob("logs/[a"), Err(ShokoError::InvalidInput));
    assert_eq!(archive.match_glob("a**b"), Err(ShokoError::InvalidInput));
}

#[test]
fn marked_paths_are_selected() {
    let archive = sample();
    assert_eq!(
        archive.select_paths(&vec![true, false, false, true]),
        vec!["logs/today.log".to_string(), "README.md".to_string()]
    );
    assert_eq!(
        archive.select_paths(&vec![false, true]),
        vec!["logs/yesterday.log".to_string()]
    );
    assert_eq!(
        archive.select_paths(&vec![true, true, true, true, true, true]).len(),
        4
    );
    assert_eq!(archive.select_paths(&Vec::new()), Vec::<String>::new());
}
