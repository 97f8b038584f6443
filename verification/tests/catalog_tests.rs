use rinites::catalog::ShardDir;
use rinites::segname::parse_segment_name;
use rinites::CoreError;

#[test]
fn segment_names_are_zero_padded_decimal() {
    let dir = ShardDir { bases: vec![] };
    assert_eq!(dir.path_to_segment(0), "00000000");
    assert_eq!(dir.path_to_segment(123), "00000123");
    assert_eq!(dir.path_to_segment(99999999), "99999999");
    assert_eq!(dir.path_to_segment(1234567890), "1234567890");
}

#[test]
fn segment_names_parse_back() {
    assert_eq!(parse_segment_name("00000000"), Some(0));
    assert_eq!(parse_segment_name("00000123"), Some(123));
    assert_eq!(parse_segment_name("1234567890"), Some(1234567890));
    assert_eq!(parse_segment_name("18446744073709551615"), Some(u64::MAX));

    assert_eq!(parse_segment_name(""), None);
    assert_eq!(parse_segment_name("segment"), None);
    assert_eq!(parse_segment_name("12a4"), None);
    assert_eq!(parse_segment_name("-5"), None);
    assert_eq!(parse_segment_name("18446744073709551616"), None);
    assert_eq!(parse_segment_name("99999999999999999999"), None);
}

#[test]
fn name_round_trip_through_catalog() {
    let dir = ShardDir { bases: vec![] };
    for id in [0u64, 1, 7, 25, 4096, 10_000_000, u64::MAX] {
        let name = dir.path_to_segment(id);
        assert_eq!(parse_segment_name(name.as_str()), Some(id));
    }
}

#[test]
fn from_names_builds_catalog() {
    let names = vec!["00000000".to_string(), "00000025".to_string(), "00000050".to_string()];
    let dir = ShardDir::from_names(&names).unwrap();
    assert_eq!(dir.bases, vec![0, 25, 50]);
}

#[test]
fn from_names_rejects_foreign_files() {
    let names = vec!["00000000".to_string(), "notes.txt".to_string()];
    assert_eq!(ShardDir::from_names(&names).unwrap_err(), CoreError::CorruptCatalog);
}

#[test]
fn latest_and_oldest_segment() {
    let dir = ShardDir { bases: vec![25, 0, 50] };
    assert_eq!(dir.get_latest_segment().unwrap(), 50);
    assert_eq!(dir.get_oldest_segment().unwrap(), 0);

    let empty = ShardDir { bases: vec![] };
    assert_eq!(empty.get_latest_segment().unwrap_err(), CoreError::NotInitialized);
    assert_eq!(empty.get_oldest_segment().unwrap_err(), CoreError::NotInitialized);
}

#[test]
fn find_belonging_segment_picks_greatest_base_not_past() {
    let dir = ShardDir { bases: vec![0, 25, 50] };
    assert_eq!(dir.find_belonging_segment(0), (0, 0));
    assert_eq!(dir.find_belonging_segment(10), (0, 10));
    assert_eq!(dir.find_belonging_segment(25), (25, 0));
    assert_eq!(dir.find_belonging_segment(30), (25, 5));
    assert_eq!(dir.find_belonging_segment(60), (50, 10));
}
