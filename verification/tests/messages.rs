use jdepp_rs::{Error, NulByteError, ParseError};

#[test]
fn engine_error_messages() {
    assert_eq!(Error::NullInstance.to_string(), "failed to create Jdepp instance (null)");
    assert_eq!(Error::SentenceNull.to_string(), "jdepp returned null Sentence");
    assert_eq!(Error::SentenceStrNull.to_string(), "sentence_str returned null");
}

#[test]
fn nul_error_message_gives_the_position() {
    let e = Error::Nul(NulByteError { position: 3, bytes: b"abc\0d".to_vec() });
    assert_eq!(e.to_string(), "nul byte in string: nul byte found in provided data at position: 3");
    let e = Error::Nul(NulByteError { position: 0, bytes: vec![0] });
    assert_eq!(e.to_string(), "nul byte in string: nul byte found in provided data at position: 0");
    let e = Error::Nul(NulByteError { position: 1204, bytes: vec![] });
    assert_eq!(e.to_string(), "nul byte in string: nul byte found in provided data at position: 1204");
    let e = Error::Nul(NulByteError { position: usize::MAX, bytes: vec![] });
    assert_eq!(
        e.to_string(),
        format!("nul byte in string: nul byte found in provided data at position: {}", usize::MAX)
    );
}

#[test]
fn parse_error_messages() {
    assert_eq!(ParseError::NoChunks.to_string(), "no chunks found");
    assert_eq!(
        ParseError::UnexpectedTokenLine { line: "猫\t名詞".to_string() }.to_string(),
        "token line before any chunk: 猫\t名詞"
    );
    assert_eq!(
        ParseError::InvalidChunkHeader { line: "* x".to_string() }.to_string(),
        "invalid chunk header: * x"
    );
    assert_eq!(
        ParseError::InvalidHead { line: "* 1 D".to_string() }.to_string(),
        "invalid head in chunk header: * 1 D"
    );
    assert_eq!(
        ParseError::Jdepp(Error::SentenceNull).to_string(),
        "jdepp error: jdepp returned null Sentence"
    );
}
