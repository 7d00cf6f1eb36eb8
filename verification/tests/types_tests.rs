use s3_meta::types::MetaError;
use s3_meta::types::ObjectRecord;

#[test]
fn converting_string_to_error() {
    let message = "My fake access key failed message".to_string();
    let convert = MetaError::from(message.clone());

    assert_eq!(convert.0, message);
}

#[test]
fn converting_str_to_error() {
    let message = "My fake access key failed message";
    let convert = MetaError::from(message);

    assert_eq!(convert.0, message);
}

#[test]
fn building_a_record_from_provider_values() {
    let rec = ObjectRecord::from_parts(
        "folder/file.txt".to_string(),
        42,
        "2013-09-17T18:07:53.000Z",
    )
    .expect("a well-formed record");
    assert_eq!(rec.key, "folder/file.txt");
    assert_eq!(rec.size, 42);
    assert_eq!(rec.last_modified, 1379441273);
}

#[test]
fn rejecting_an_empty_key() {
    assert!(ObjectRecord::from_parts(String::new(), 1, "2013-09-17T18:07:53Z").is_none());
}

#[test]
fn rejecting_a_malformed_timestamp() {
    assert!(ObjectRecord::from_parts("k".to_string(), 1, "yesterday").is_none());
}
