use rinites::reader::ShardReader;
use rinites::record::Record;
use rinites::writer::{ShaW, ShardWriter};

#[test]
fn shard_writer2_writes_to_shard() {
    let mut shard_writer = ShardWriter {
        latest_segment: 0,
        segments: vec![vec![]],
        offset: 0,
        max_segment_size: 1000000,
    };
    let string_data = base64::encode("meucu_tem_oculos".as_bytes());
    let record = Record(string_data.clone().into_bytes());

    shard_writer.write(record).unwrap();

    let expected = format!("{}\n", &string_data);
    let res = String::from_utf8(shard_writer.segments[0].clone()).unwrap();
    let string_data_size_in_bytes = string_data.into_bytes().len() as u64;
    let new_offset = shard_writer.offset;
    assert_eq!(res, expected);
    assert_eq!(new_offset, string_data_size_in_bytes + 1)
}

#[test]
fn shard_writer2_writes_to_shard_rolls() {
    let mut shard_writer = ShardWriter {
        latest_segment: 0,
        segments: vec![vec![]],
        offset: 0,
        max_segment_size: 10,
    };
    let original_latest_segment = shard_writer.latest_segment;
    let string_data = base64::encode("meucu_tem_oculos".as_bytes());
    let record = Record(string_data.clone().into_bytes());

    shard_writer.write(record.clone()).unwrap();

    // one line already exceeds the threshold: the segment rolled, and the
    // new tail's base offset is the byte count at which it was exceeded
    let new_latest_segment = shard_writer.latest_segment;
    assert!(original_latest_segment < new_latest_segment);
    let string_data_size_in_bytes = string_data.clone().into_bytes().len() as u64;
    assert_eq!(new_latest_segment, string_data_size_in_bytes + 1); // \n is 1 byte long

    shard_writer.write(record.clone()).unwrap();
    assert_eq!(shard_writer.latest_segment, 2 * (string_data_size_in_bytes + 1));
}

#[test]
fn shard_reader_read_empty() {
    let segments: Vec<Vec<u8>> = vec![vec![]];
    let mut shard_reader = ShardReader {
        segment_id: 0,
        latest_log_offset: 0,
        offset: 0,
        chunk_size: 10,
    };

    let res = shard_reader.read(&segments);
    assert!(res.is_ok());
    assert_eq!(res.unwrap().len(), 0);
}

#[test]
fn shard_reader_read_containing() {
    let mut shard_writer = ShardWriter {
        latest_segment: 0,
        segments: vec![vec![]],
        offset: 0,
        max_segment_size: 100,
    };
    let string_data_1 = base64::encode("meucu_tem_oculos_1".as_bytes());
    let record_1 = Record(string_data_1.clone().into_bytes());

    let _string_data_2 = base64::encode("meucu_tem_oculos_2".as_bytes());
    let record_2 = Record(string_data_1.clone().into_bytes());

    shard_writer.write(record_1.clone()).unwrap();

    shard_writer.write(record_2.clone()).unwrap();

    let segment_id = 0;
    let latest_log_offset = shard_writer.latest_segment + shard_writer.offset;
    let mut shard_reader = ShardReader {
        segment_id,
        latest_log_offset,
        offset: 0,
        chunk_size: 10,
    };

    let res = shard_reader.read(&shard_writer.segments);
    assert!(res.is_ok());
    assert_eq!(res.unwrap(), vec![record_1.clone(), record_2.clone()])
}

#[test]
fn shard_reader_respects_chunk_size() {
    let mut shard_writer = ShardWriter {
        latest_segment: 0,
        segments: vec![vec![]],
        offset: 0,
        max_segment_size: 1000,
    };
    for i in 0..5 {
        let rec = Record(base64::encode(format!("r{}", i)).into_bytes());
        shard_writer.write(rec).unwrap();
    }
    let boundary = shard_writer.latest_segment + shard_writer.offset;

    let mut shard_reader = ShardReader {
        segment_id: 0,
        latest_log_offset: boundary,
        offset: 0,
        chunk_size: 3,
    };
    let first = shard_reader.read(&shard_writer.segments).unwrap();
    assert_eq!(first.len(), 3);

    // the reader's position resumes right after the last record returned
    let second = shard_reader.read(&shard_writer.segments).unwrap();
    assert_eq!(second.len(), 2);
    let mut all = first;
    all.extend(second);
    let expected: Vec<Record> =
        (0..5).map(|i| Record(base64::encode(format!("r{}", i)).into_bytes())).collect();
    assert_eq!(all, expected);
}

#[test]
fn shard_reader_crosses_segments() {
    // threshold 1: every record closes its segment
    let mut shard_writer = ShardWriter {
        latest_segment: 0,
        segments: vec![vec![]],
        offset: 0,
        max_segment_size: 1,
    };
    let payloads: Vec<String> = (0..4).map(|i| base64::encode(format!("seg{}", i))).collect();
    for p in &payloads {
        shard_writer.write(Record(p.clone().into_bytes())).unwrap();
    }
    assert!(shard_writer.segments.len() >= 4);

    let boundary = shard_writer.latest_segment + shard_writer.offset;
    let mut shard_reader = ShardReader {
        segment_id: 0,
        latest_log_offset: boundary,
        offset: 0,
        chunk_size: 100,
    };
    let records = shard_reader.read(&shard_writer.segments).unwrap();
    let expected: Vec<Record> =
        payloads.iter().map(|p| Record(p.clone().into_bytes())).collect();
    assert_eq!(records, expected);
}

#[test]
fn writer_rejects_invalid_record_untouched() {
    let mut shard_writer = ShardWriter {
        latest_segment: 0,
        segments: vec![vec![]],
        offset: 0,
        max_segment_size: 100,
    };
    let res = shard_writer.write(Record(b"spaces are not base64".to_vec()));
    assert_eq!(res.unwrap_err(), rinites::CoreError::InvalidRecord);
    assert_eq!(shard_writer.offset, 0);
    assert_eq!(shard_writer.segments, vec![Vec::<u8>::new()]);
}
