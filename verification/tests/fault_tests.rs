use s3_meta::fault::translate;
use s3_meta::types::MetaError;

#[test]
fn passing_a_plain_message_through() {
    let message = "connection refused";
    assert_eq!(translate(message), message);
}

#[test]
fn extracting_a_fault_message() {
    let body = r#"<?xml version="1.0" encoding="UTF-8"?><Error><Code>InvalidAccessKeyId</Code><Message>Access Denied</Message><RequestId>abc</RequestId></Error>"#;
    assert_eq!(translate(body), "Access Denied");
}

#[test]
fn extracting_a_fault_message_into_an_error() {
    let message = "My fake access key failed message".to_string();
    let body = format!(
        r#"<?xml version="1.0" encoding="UTF-8"?>
                <Error>
                    <Code>InvalidAccessKeyId</Code>
                    <Message>{}</Message>
                </Error>"#,
        message
    );
    let converted = MetaError::from_fault(&body);
    assert_eq!(converted.0, message);
}

#[test]
fn decoding_entities_in_a_fault_message() {
    let body = r#"<?xml version="1.0"?><Error><Message>a &lt;b&gt; &amp; &apos;c&quot;</Message></Error>"#;
    assert_eq!(translate(body), "a <b> & 'c\"");
}

#[test]
fn falling_back_on_a_truncated_document() {
    let body = r#"<?xml version="1.0"?><Error><Message>half open"#;
    assert_eq!(translate(body), body);
}

#[test]
fn falling_back_without_a_message_element() {
    let body = r#"<?xml version="1.0"?><Error><Code>Oops</Code></Error>"#;
    assert_eq!(translate(body), body);
}

#[test]
fn falling_back_on_an_unknown_entity() {
    let body = r#"<?xml version="1.0"?><Error><Message>bad &unknown; text</Message></Error>"#;
    assert_eq!(translate(body), body);
}

#[test]
fn skipping_a_self_closing_message_tag() {
    let body = r#"<?xml version="1.0"?><Error><Message/><Message>real</Message></Error>"#;
    assert_eq!(translate(body), "real");
}

#[test]
fn reading_a_message_tag_with_attributes() {
    let body = r#"<?xml version="1.0"?><Error><Message lang="en">hi</Message></Error>"#;
    assert_eq!(translate(body), "hi");
}
