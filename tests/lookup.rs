use hibp::{contains_record, lookup_shard, BreachChecker, LookupError, MAX_SHARD_BYTES};

#[test]
fn test_binary_search_sha1t48() {
    let data: Vec<u8> = vec![
        0x00, 0x00, 0x00, 0x00, 0x00, 0x01, // record 0
        0x00, 0x00, 0x00, 0x00, 0x00, 0x05, // record 1
        0x00, 0x00, 0x00, 0x00, 0x00, 0x10, // record 2
        0xFF, 0xFF, 0xFF, 0xFF, 0xFF, 0xFF, // record 3
    ];

    // Stored records are found.
    assert!(contains_record(&data, &[0x00, 0x00, 0x00, 0x00, 0x00, 0x01]));
    assert!(contains_record(&data, &[0x00, 0x00, 0x00, 0x00, 0x00, 0x05]));
    assert!(contains_record(&data, &[0x00, 0x00, 0x00, 0x00, 0x00, 0x10]));
    assert!(contains_record(&data, &[0xFF, 0xFF, 0xFF, 0xFF, 0xFF, 0xFF]));

    // Others are not.
    assert!(!contains_record(&data, &[0x00, 0x00, 0x00, 0x00, 0x00, 0x00]));
    assert!(!contains_record(&data, &[0x00, 0x00, 0x00, 0x00, 0x00, 0x02]));
    assert!(!contains_record(&data, &[0x00, 0x00, 0x00, 0x00, 0x00, 0xFF]));
    assert!(!contains_record(&data, &[0x00, 0x00, 0x00, 0x00, 0x00, 0x00]));
}

#[test]
fn test_empty_data() {
    let data: Vec<u8> = vec![];
    assert!(!contains_record(&data, &[0x00, 0x00, 0x00, 0x00, 0x00, 0x01]));
}

#[test]
fn test_single_record() {
    let data: Vec<u8> = vec![0x56, 0x78, 0x9A, 0xBC, 0xDE, 0xF0];

    assert!(contains_record(&data, &[0x56, 0x78, 0x9A, 0xBC, 0xDE, 0xF0]));
    assert!(!contains_record(&data, &[0x00, 0x00, 0x00, 0x00, 0x00, 0x00]));
    assert!(!contains_record(&data, &[0xFF, 0xFF, 0xFF, 0xFF, 0xFF, 0xFF]));
}

#[test]
fn test_sha1t64_conversion() {
    // password123 -> SHA1: CBFDAC6008F9CAB4083784CBD1874F76618D2A97
    let checker = BreachChecker::new("data");
    let query = checker.query("password123");
    let path = query.path.as_bytes();
    assert_eq!(&path[path.len() - 9..path.len() - 7], b"CB");
    assert_eq!(&path[path.len() - 7..path.len() - 5], b"FD");
    assert_eq!(query.search_key[0], 0xAC);
    assert_eq!(query.search_key[1], 0x60);
    assert_eq!(query.search_key[2], 0x08);
    assert_eq!(query.search_key[3], 0xF9);
    assert_eq!(query.search_key[4], 0xCA);
    assert_eq!(query.search_key[5], 0xB4);
}

#[test]
fn query_names_shard_file_and_record() {
    let checker = BreachChecker::new("/srv/hibp");
    let query = checker.query("password123");
    assert_eq!(query.path, "/srv/hibp/CBFDA.bin");
    assert_eq!(query.search_key, [0xAC, 0x60, 0x08, 0xF9, 0xCA, 0xB4]);
    assert_eq!(checker.dataset_path(), "/srv/hibp");
}

#[test]
fn query_for_hash_uses_first_eight_bytes() {
    let checker = BreachChecker::new("d");
    let mut hash = [0u8; 20];
    for (i, b) in hash.iter_mut().enumerate() {
        *b = (i as u8) * 0x11;
    }
    let query = checker.query_for_hash(&hash);
    assert_eq!(query.path, "d/00112.bin");
    assert_eq!(query.search_key, [0x22, 0x33, 0x44, 0x55, 0x66, 0x77]);
}

#[test]
fn prefix_hex_and_build_path() {
    let hash = [0xCB, 0xFD, 0xAC, 0x60, 0x08, 0xF9, 0xCA, 0xB4, 0, 0, 0, 0, 0, 0, 0, 0, 0, 0, 0, 0];
    let hex = BreachChecker::prefix_hex(&hash);
    assert_eq!(&hex, b"CBFDA");
    let checker = BreachChecker::new("x/y");
    assert_eq!(checker.build_path(hex), "x/y/CBFDA.bin");
}

fn shard(records: &[[u8; 6]]) -> Vec<u8> {
    records.iter().flat_map(|r| r.iter().copied()).collect()
}

#[test]
fn search_finds_first_middle_last_and_not_beyond_ends() {
    let data = shard(&[
        [0x10, 0, 0, 0, 0, 0],
        [0x20, 0, 0, 0, 0, 0],
        [0x30, 0, 0, 0, 0, 0],
        [0x40, 0, 0, 0, 0, 0],
        [0x50, 0, 0, 0, 0, 0],
    ]);
    assert!(contains_record(&data, &[0x10, 0, 0, 0, 0, 0]));
    assert!(contains_record(&data, &[0x30, 0, 0, 0, 0, 0]));
    assert!(contains_record(&data, &[0x50, 0, 0, 0, 0, 0]));
    assert!(!contains_record(&data, &[0x0F, 0xFF, 0xFF, 0xFF, 0xFF, 0xFF]));
    assert!(!contains_record(&data, &[0x50, 0, 0, 0, 0, 1]));
}

#[test]
fn search_finds_two_records_but_not_values_between() {
    let data = shard(&[
        [0x00, 0x00, 0x00, 0x00, 0x00, 0x01],
        [0x00, 0x00, 0x00, 0x00, 0x01, 0x00],
        [0x00, 0x00, 0x00, 0x01, 0x00, 0x00],
        [0x7F, 0x00, 0x00, 0x00, 0x00, 0x00],
    ]);
    assert!(contains_record(&data, &[0x00, 0x00, 0x00, 0x00, 0x00, 0x01]));
    assert!(contains_record(&data, &[0x00, 0x00, 0x00, 0x01, 0x00, 0x00]));
    assert!(!contains_record(&data, &[0x00, 0x00, 0x00, 0x00, 0x00, 0xFF]));
    assert!(!contains_record(&data, &[0x00, 0x00, 0x00, 0x00, 0xFF, 0xFF]));
    assert!(!contains_record(&data, &[0x10, 0x00, 0x00, 0x00, 0x00, 0x00]));
}

#[test]
fn search_finds_duplicates_and_ignores_a_trailing_partial_record() {
    let mut data = shard(&[
        [1, 1, 1, 1, 1, 1],
        [2, 2, 2, 2, 2, 2],
        [2, 2, 2, 2, 2, 2],
        [3, 3, 3, 3, 3, 3],
    ]);
    assert!(contains_record(&data, &[2, 2, 2, 2, 2, 2]));
    data.extend_from_slice(&[9, 9, 9]);
    assert!(contains_record(&data, &[3, 3, 3, 3, 3, 3]));
    assert!(!contains_record(&data, &[9, 9, 9, 0, 0, 0]));
}

#[test]
fn absent_and_empty_shards_are_not_breached() {
    let key = [1, 2, 3, 4, 5, 6];
    assert_eq!(lookup_shard(None, &key), Ok(false));
    assert_eq!(lookup_shard(Some(&[]), &key), Ok(false));
}

#[test]
fn lookup_shard_searches_content_within_bound() {
    let data = shard(&[[1, 2, 3, 4, 5, 6], [7, 8, 9, 10, 11, 12]]);
    assert_eq!(lookup_shard(Some(&data), &[7, 8, 9, 10, 11, 12]), Ok(true));
    assert_eq!(lookup_shard(Some(&data), &[7, 8, 9, 10, 11, 13]), Ok(false));
}

#[test]
fn lookup_shard_refuses_oversized_shard() {
    let full = vec![0u8; MAX_SHARD_BYTES];
    assert_eq!(lookup_shard(Some(&full), &[0; 6]), Ok(true));
    let over = vec![0u8; MAX_SHARD_BYTES + 6];
    assert_eq!(
        lookup_shard(Some(&over), &[0; 6]),
        Err(LookupError::ShardTooLarge { len: MAX_SHARD_BYTES + 6 })
    );
}
