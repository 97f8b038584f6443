use rinites::controller::{
    GetRecordsResponse, PutRecordsResponse, ShardController, ShardIteratorType,
};
use rinites::record::Record;
use rinites::CoreError;

#[test]
fn get_records_should_just_work_empty() {
    let shac = ShardController::new(1000000, 10);

    let result = shac.get_records(0);
    let expected = GetRecordsResponse { next_shard_iterator: 0, records: vec![] };
    assert_eq!(result, expected);
}

#[test]
fn put_records_should_just_work() {
    let mut shac = ShardController::new(1000000, 10);

    let string_data_1 = base64::encode("meucu_tem_oculos_1".as_bytes());
    let record_1 = Record(string_data_1.clone().into_bytes());

    let result = shac.put_records(record_1.clone()).unwrap();
    let expected = PutRecordsResponse {};
    assert_eq!(result, expected);

    let result = shac.get_records(0);
    let data_len = (string_data_1.as_bytes().len() + 1) as u64;
    let expected = GetRecordsResponse {
        next_shard_iterator: data_len,
        records: vec![record_1.as_string()],
    };
    assert_eq!(result, expected);
}

#[test]
fn round_trip_single_record() {
    // "bWV1Y3U=" is the base64 of "meucu": eight payload bytes plus the
    // newline make nine bytes of log
    let mut shac = ShardController::new(1000000, 10);
    let record = Record("bWV1Y3U=".as_bytes().to_vec());
    shac.put_records(record).unwrap();

    let result = shac.get_records(0);
    assert_eq!(result.records, vec!["bWV1Y3U=".to_string()]);
    assert_eq!(result.next_shard_iterator, 9);
}

#[test]
fn rejection_leaves_store_unchanged() {
    let mut shac = ShardController::new(1000000, 10);
    shac.put_records(Record(base64::encode("before").into_bytes())).unwrap();

    let latest_before = shac.get_shard_iterator(&ShardIteratorType::Latest);
    let dir_before = shac.shard_dir();
    let latest_segment_before = dir_before.get_latest_segment().unwrap();

    let result = shac.put_records(Record("not base64!!".as_bytes().to_vec()));
    assert_eq!(result.unwrap_err(), CoreError::InvalidRecord);

    assert_eq!(shac.get_shard_iterator(&ShardIteratorType::Latest), latest_before);
    let dir_after = shac.shard_dir();
    assert_eq!(dir_after.get_latest_segment().unwrap(), latest_segment_before);
}

#[test]
fn shard_iterator_kinds() {
    let mut shac = ShardController::new(1000000, 10);
    assert_eq!(shac.get_shard_iterator(&ShardIteratorType::Latest), 0);
    assert_eq!(shac.get_shard_iterator(&ShardIteratorType::Oldest), 0);

    let payload = base64::encode("some_data");
    let expected_len = (payload.len() + 1) as u64;
    shac.put_records(Record(payload.into_bytes())).unwrap();
    assert_eq!(shac.get_shard_iterator(&ShardIteratorType::Latest), expected_len);
    assert_eq!(shac.get_shard_iterator(&ShardIteratorType::Oldest), 0);
}

#[test]
fn idempotent_replay_returns_writes_in_order() {
    // a small rollover threshold so the log spans several segments
    let mut shac = ShardController::new(10, 100);
    let mut written: Vec<String> = Vec::new();
    for i in 0..7 {
        let payload = base64::encode(format!("record_number_{}", i));
        written.push(payload.clone());
        shac.put_records(Record(payload.into_bytes())).unwrap();
    }

    // replaying from offset zero returns every record as written, and
    // doing it again returns the same
    for _ in 0..2 {
        let replay = shac.get_records(0);
        assert_eq!(replay.records, written);
    }
}

#[test]
fn iterator_continuity_no_duplicate_no_gap() {
    let mut shac = ShardController::new(25, 2);
    let mut written: Vec<String> = Vec::new();
    for i in 0..9 {
        let payload = base64::encode(format!("rec{}", i));
        written.push(payload.clone());
        shac.put_records(Record(payload.into_bytes())).unwrap();
    }

    // chunk_size is 2: chain scans until the iterator stops advancing; the
    // concatenation must be exactly the records as written
    let mut collected: Vec<String> = Vec::new();
    let mut it = 0u64;
    loop {
        let batch = shac.get_records(it);
        if batch.records.is_empty() {
            assert_eq!(batch.next_shard_iterator, it);
            break;
        }
        assert!(batch.records.len() <= 2);
        collected.extend(batch.records);
        assert!(batch.next_shard_iterator > it);
        it = batch.next_shard_iterator;
    }
    assert_eq!(collected, written);
}

#[test]
fn iterator_past_boundary_yields_empty_batch() {
    let mut shac = ShardController::new(1000000, 10);
    shac.put_records(Record(base64::encode("x").into_bytes())).unwrap();

    let result = shac.get_records(1000);
    assert_eq!(result.records.len(), 0);
    assert_eq!(result.next_shard_iterator, 1000);
}

#[test]
fn concurrent_writer_accounting_totals() {
    // appends are serialized by the writer lock, so any interleaving of N
    // puts lands as N records whose byte total is the sum of each record's
    // serialized length
    let mut shac = ShardController::new(30, 1000);
    let payloads: Vec<String> =
        (0..12).map(|i| base64::encode(format!("writer_{}_payload", i))).collect();
    let mut expected_total = 0u64;
    for p in &payloads {
        expected_total += (p.len() + 1) as u64;
        shac.put_records(Record(p.clone().into_bytes())).unwrap();
    }

    assert_eq!(shac.get_shard_iterator(&ShardIteratorType::Latest), expected_total);
    let recovered = shac.get_records(0);
    assert_eq!(recovered.records.len(), payloads.len());
    assert_eq!(recovered.records, payloads);
}

#[test]
fn rollover_creates_new_latest_segment() {
    let mut shac = ShardController::new(10, 10);
    let payload = base64::encode("0123456789");
    let line_len = (payload.len() + 1) as u64;
    shac.put_records(Record(payload.clone().into_bytes())).unwrap();

    // the cumulative size exceeded the threshold: the new tail starts at
    // the offset right after the byte that crossed it
    let dir = shac.shard_dir();
    assert_eq!(dir.get_latest_segment().unwrap(), line_len);
    assert_eq!(shac.writer.latest_segment, line_len);

    // records are still read back across the boundary
    let replay = shac.get_records(0);
    assert_eq!(replay.records, vec![payload]);
}

#[test]
fn from_segments_replays_existing_log() {
    let seg0: Vec<u8> = b"YWJj\nZGVm\n".to_vec();
    let seg1: Vec<u8> = b"Z2hp\n".to_vec();
    let shac = ShardController::from_segments(vec![seg0, seg1], 10, 10).unwrap();

    assert_eq!(shac.get_shard_iterator(&rinites::controller::ShardIteratorType::Latest), 15);
    let replay = shac.get_records(0);
    assert_eq!(replay.records, vec!["YWJj".to_string(), "ZGVm".to_string(), "Z2hp".to_string()]);
    assert_eq!(replay.next_shard_iterator, 15);
}

#[test]
fn from_segments_rejects_bad_stores() {
    let none: Vec<Vec<u8>> = vec![];
    assert_eq!(
        ShardController::from_segments(none, 10, 10).unwrap_err(),
        CoreError::NotInitialized
    );

    let unterminated: Vec<Vec<u8>> = vec![b"YWJj".to_vec()];
    assert_eq!(
        ShardController::from_segments(unterminated, 10, 10).unwrap_err(),
        CoreError::CorruptCatalog
    );

    let hole: Vec<Vec<u8>> = vec![vec![], b"YWJj\n".to_vec()];
    assert_eq!(
        ShardController::from_segments(hole, 10, 10).unwrap_err(),
        CoreError::CorruptCatalog
    );

    let binary: Vec<Vec<u8>> = vec![vec![0xffu8, b'\n']];
    assert_eq!(
        ShardController::from_segments(binary, 10, 10).unwrap_err(),
        CoreError::CorruptCatalog
    );
}
