use rinites::record::{assert_recordable, Record};
use rinites::CoreError;

#[test]
fn record_from_copies_payload() {
    let data = b"bWV1Y3U=";
    let record = Record::from(data);
    assert_eq!(record.0, data.to_vec());
}

#[test]
fn record_serialized_appends_delimiter() {
    let record = Record(b"bWV1Y3U=".to_vec());
    assert_eq!(record.serialized(), b"bWV1Y3U=\n".to_vec());
}

#[test]
fn record_as_string_is_the_payload_text() {
    let text = base64::encode("meucu");
    let record = Record(text.clone().into_bytes());
    assert_eq!(record.as_string(), text);
}

#[test]
fn record_from_string_validates() {
    let ok = Record::from_string("bWV1Y3U=".to_string()).unwrap();
    assert_eq!(ok.0, b"bWV1Y3U=".to_vec());

    let err = Record::from_string("not base64!!".to_string()).unwrap_err();
    assert_eq!(err, CoreError::InvalidRecord);
}

#[test]
fn recordable_accepts_what_the_decoder_accepts() {
    // agree with the base64 crate on a few inputs, both ways
    for input in ["bWV1Y3U=", "YWJj", "", "QQ=="] {
        assert!(base64::decode(input).is_ok());
        assert!(assert_recordable(input.as_bytes()).is_ok());
    }
    for input in ["not base64!!", "a b", "abc\n", "????", "ab\u{00e9}"] {
        assert!(base64::decode(input).is_err());
        assert_eq!(
            assert_recordable(input.as_bytes()).unwrap_err(),
            CoreError::InvalidRecord
        );
    }
}
