use jdepp_rs::{parse_cabocha_like, parse_jdepp_output, Chunk, Error, ParseError, ParsedSentence, Token};

fn tok(surface: &str, feature: &str) -> Token {
    Token { surface: surface.to_string(), feature: feature.to_string() }
}

fn parsed(output: &str) -> ParsedSentence {
    match parse_cabocha_like(output) {
        Ok(s) => s,
        Err(e) => panic!("unexpected error: {:?}", e),
    }
}

const SAMPLE: &str = "* 0 2D\n\
吾輩\t名詞,普通名詞,*,*,吾輩,わがはい,代表表記:我が輩/わがはい カテゴリ:人\n\
は\t助詞,副助詞,*,*,は,は,*\n\
* 1 2D\n\
猫\t名詞,普通名詞,*,*,猫,ねこ,*\n\
* 2 -1D\n\
である\t判定詞,*,判定詞,デアル列基本形,だ,である,*\n\
。\t特殊,句点,*,*,。,。,*\n\
EOS\n";

#[test]
fn sample_sentence_is_parsed_chunk_by_chunk() {
    let s = parsed(SAMPLE);
    let expected = ParsedSentence {
        chunks: vec![
            Chunk {
                id: 0,
                head: 2,
                dep_type: Some('D'),
                tokens: vec![
                    tok("吾輩", "名詞,普通名詞,*,*,吾輩,わがはい,代表表記:我が輩/わがはい カテゴリ:人"),
                    tok("は", "助詞,副助詞,*,*,は,は,*"),
                ],
            },
            Chunk { id: 1, head: 2, dep_type: Some('D'), tokens: vec![tok("猫", "名詞,普通名詞,*,*,猫,ねこ,*")] },
            Chunk {
                id: 2,
                head: -1,
                dep_type: Some('D'),
                tokens: vec![
                    tok("である", "判定詞,*,判定詞,デアル列基本形,だ,である,*"),
                    tok("。", "特殊,句点,*,*,。,。,*"),
                ],
            },
        ],
    };
    assert_eq!(s, expected);
}

#[test]
fn header_names_id_head_and_type() {
    let s = parsed("* 1 4D\n");
    assert_eq!(s.chunks.len(), 1);
    assert_eq!(s.chunks[0].id, 1);
    assert_eq!(s.chunks[0].head, 4);
    assert_eq!(s.chunks[0].dep_type, Some('D'));
    assert!(s.chunks[0].tokens.is_empty());
}

#[test]
fn root_chunk_has_head_minus_one() {
    let s = parsed("* 4 -1D\n");
    assert_eq!(s.chunks[0].id, 4);
    assert_eq!(s.chunks[0].head, -1);
}

#[test]
fn probability_after_at_is_ignored() {
    let with_prob = parsed("* 1 4D@0.98\n");
    let without = parsed("* 1 4D\n");
    assert_eq!(with_prob, without);
    assert_eq!(with_prob.chunks[0].head, 4);
    assert_eq!(with_prob.chunks[0].dep_type, Some('D'));
}

#[test]
fn last_header_field_is_the_dependency() {
    // The last field is taken as the dependency, whatever precedes it.
    let s = parsed("* 3 0/1 5D\n");
    assert_eq!(s.chunks[0].id, 3);
    assert_eq!(s.chunks[0].head, 5);
    match parse_cabocha_like("* 3 5D 0/1 1.234\n") {
        Err(ParseError::InvalidHead { line }) => assert_eq!(line, "* 3 5D 0/1 1.234"),
        other => panic!("unexpected: {:?}", other),
    }
}

#[test]
fn signs_are_read_as_str_parse_reads_them() {
    let s = parsed("* +7 +2A\n");
    assert_eq!(s.chunks[0].id, 7);
    assert_eq!(s.chunks[0].head, 2);
    assert_eq!(s.chunks[0].dep_type, Some('A'));
    assert!(matches!(parse_cabocha_like("* -7 2D\n"), Err(ParseError::InvalidChunkHeader { .. })));
}

#[test]
fn extreme_heads() {
    let min = format!("* 0 {}D\n", isize::MIN);
    assert_eq!(parsed(&min).chunks[0].head, isize::MIN);
    let max = format!("* 0 {}D\n", isize::MAX);
    assert_eq!(parsed(&max).chunks[0].head, isize::MAX);
    let below = format!("* 0 -{}0D\n", isize::MAX);
    assert!(matches!(parse_cabocha_like(&below), Err(ParseError::InvalidHead { .. })));
    let id = format!("* {} 0D\n", usize::MAX);
    assert_eq!(parsed(&id).chunks[0].id, usize::MAX);
    let big = format!("* {}0 0D\n", usize::MAX);
    assert!(matches!(parse_cabocha_like(&big), Err(ParseError::InvalidChunkHeader { .. })));
}

#[test]
fn non_ascii_dependency_type() {
    let s = parsed("* 0 -1あ\n");
    assert_eq!(s.chunks[0].head, -1);
    assert_eq!(s.chunks[0].dep_type, Some('あ'));
    assert!(matches!(parse_cabocha_like("* 0 あ\n"), Err(ParseError::InvalidHead { .. })));
}

#[test]
fn comments_and_blank_lines_are_skipped() {
    let text = "# S-ID: 1\n\n* 0 -1D\n   \n# note\n猫\t名詞\n\nEOS\n";
    let s = parsed(text);
    assert_eq!(s, parsed("* 0 -1D\n猫\t名詞\nEOS\n"));
}

#[test]
fn nothing_after_eos_is_read() {
    let head = "* 0 -1D\n猫\t名詞\n";
    let full = format!("{}EOS\nthis is not read\n* broken\n", head);
    assert_eq!(parsed(&full), parsed(head));
    let with_spaces = format!("{}EOS  \n* 9 9D\n", head);
    assert_eq!(parsed(&with_spaces), parsed(head));
}

#[test]
fn crlf_line_endings_read_as_lf() {
    let lf = "* 0 -1D\n猫\t名詞,普通名詞\nEOS\n";
    let crlf = "* 0 -1D\r\n猫\t名詞,普通名詞\r\nEOS\r\n";
    assert_eq!(parsed(lf), parsed(crlf));
}

#[test]
fn token_without_feature() {
    let s = parsed("* 0 -1D\n猫\n");
    assert_eq!(s.chunks[0].tokens, vec![tok("猫", "")]);
}

#[test]
fn token_split_at_first_whitespace_of_any_kind() {
    let s = parsed("* 0 -1D\n猫\u{3000}名詞 普通名詞  \na b\tc\n  lead\n");
    assert_eq!(
        s.chunks[0].tokens,
        vec![tok("猫", "名詞 普通名詞"), tok("a", "b\tc"), tok("", "lead")]
    );
}

#[test]
fn surfaces_hold_no_whitespace_and_features_are_trimmed() {
    let s = parsed(SAMPLE);
    for c in &s.chunks {
        assert!(c.dep_type.is_some());
        for t in &c.tokens {
            assert!(!t.surface.chars().any(char::is_whitespace));
            assert_eq!(t.feature.trim(), t.feature);
        }
    }
}

#[test]
fn no_chunks() {
    assert!(matches!(parse_cabocha_like(""), Err(ParseError::NoChunks)));
    assert!(matches!(parse_cabocha_like("EOS\n"), Err(ParseError::NoChunks)));
    assert!(matches!(parse_cabocha_like("# only a comment\n\n"), Err(ParseError::NoChunks)));
    assert!(matches!(parse_cabocha_like("EOS\n* 0 -1D\n"), Err(ParseError::NoChunks)));
}

#[test]
fn token_line_before_any_chunk() {
    match parse_cabocha_like("猫\t名詞   \n* 0 -1D\n") {
        Err(ParseError::UnexpectedTokenLine { line }) => assert_eq!(line, "猫\t名詞"),
        other => panic!("unexpected: {:?}", other),
    }
}

#[test]
fn invalid_chunk_headers() {
    for text in ["*\n", "* 1\n", "*1D\n", "* x 2D\n", "* 1.0 2D\n"] {
        match parse_cabocha_like(text) {
            Err(ParseError::InvalidChunkHeader { line }) => assert_eq!(line, text.trim_end()),
            other => panic!("unexpected for {:?}: {:?}", text, other),
        }
    }
}

#[test]
fn invalid_heads() {
    for text in ["* 1 D\n", "* 1 xD\n", "* 1 @0.5\n", "* 1 2\n", "* 1 -D\n", "* 1 +D\n", "* 1 D@9D\n"] {
        match parse_cabocha_like(text) {
            Err(ParseError::InvalidHead { line }) => assert_eq!(line, text.trim_end()),
            other => panic!("unexpected for {:?}: {:?}", text, other),
        }
    }
}

#[test]
fn error_stops_at_first_bad_line() {
    match parse_cabocha_like("* 0 -1D\n* bad\n* 1 xD\n") {
        Err(ParseError::InvalidChunkHeader { line }) => assert_eq!(line, "* bad"),
        other => panic!("unexpected: {:?}", other),
    }
}

#[test]
fn engine_output_is_parsed() {
    let direct = parsed(SAMPLE);
    match parse_jdepp_output(Ok(SAMPLE.to_string())) {
        Ok(s) => assert_eq!(s, direct),
        Err(e) => panic!("unexpected error: {:?}", e),
    }
    assert!(matches!(parse_jdepp_output(Ok(String::new())), Err(ParseError::NoChunks)));
}

#[test]
fn engine_errors_are_passed_on() {
    assert!(matches!(
        parse_jdepp_output(Err(Error::SentenceNull)),
        Err(ParseError::Jdepp(Error::SentenceNull))
    ));
    assert!(matches!(
        parse_jdepp_output(Err(Error::SentenceStrNull)),
        Err(ParseError::Jdepp(Error::SentenceStrNull))
    ));
}
