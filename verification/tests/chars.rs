use skald::scanner::chars::{
    build_char_flags, is_anchor_char, is_blank_or_break, is_break, is_digit, is_flow, is_indicator,
    is_whitespace, CHAR_FLAGS, FLAG_ALPHA, FLAG_ANCHOR, FLAG_BREAK, FLAG_DIGIT, FLAG_FLOW,
    FLAG_INDICATOR, FLAG_WHITESPACE,
};

#[test]
fn whitespace_classification() {
    assert!(is_whitespace(b' '));
    assert!(is_whitespace(b'\t'));
    assert!(!is_whitespace(b'a'));
    assert!(!is_whitespace(b'\n'));
}

#[test]
fn break_classification() {
    assert!(is_break(b'\n'));
    assert!(is_break(b'\r'));
    assert!(!is_break(b' '));
}

#[test]
fn blank_or_break_classification() {
    assert!(is_blank_or_break(b' '));
    assert!(is_blank_or_break(b'\t'));
    assert!(is_blank_or_break(b'\n'));
    assert!(is_blank_or_break(b'\r'));
    assert!(!is_blank_or_break(b'a'));
}

#[test]
fn flow_indicators() {
    for b in [b'{', b'}', b'[', b']', b','] {
        assert!(is_flow(b), "expected flow indicator: {}", b as char);
    }
    assert!(!is_flow(b'-'));
}

#[test]
fn yaml_indicators() {
    for b in b"-?:,[]{}#&*!|>'\"%@`" {
        assert!(is_indicator(*b), "expected indicator: {}", *b as char);
    }
    assert!(!is_indicator(b'a'));
}

#[test]
fn anchor_chars() {
    assert!(is_anchor_char(b'a'));
    assert!(is_anchor_char(b'Z'));
    assert!(is_anchor_char(b'0'));
    assert!(is_anchor_char(b'-'));
    assert!(is_anchor_char(b'_'));
    assert!(!is_anchor_char(b' '));
    assert!(!is_anchor_char(b':'));
}

#[test]
fn digit_classification() {
    for b in b'0'..=b'9' {
        assert!(is_digit(b));
    }
    assert!(!is_digit(b'a'));
}

#[test]
fn multi_flag_bytes() {
    assert!(is_indicator(b'-'));
    assert!(is_anchor_char(b'-'));
    assert!(is_indicator(b','));
    assert!(is_flow(b','));
}

#[test]
fn table_size() {
    assert_eq!(CHAR_FLAGS.len(), 256);
}

#[test]
fn const_fn_body_runtime_evaluation_matches_table() {
    let runtime_table = build_char_flags();
    assert_eq!(runtime_table, CHAR_FLAGS);
}

#[test]
fn exhaustive_byte_classification() {
    for b in 0u8..=255 {
        let actual = CHAR_FLAGS[b as usize];

        let mut expected = 0u8;
        if b == b' ' || b == b'\t' {
            expected |= FLAG_WHITESPACE;
        }
        if b == b'\n' || b == b'\r' {
            expected |= FLAG_BREAK;
        }
        if b.is_ascii_digit() {
            expected |= FLAG_DIGIT;
        }
        if b.is_ascii_alphabetic() {
            expected |= FLAG_ALPHA;
        }
        if matches!(b, b'{' | b'}' | b'[' | b']' | b',') {
            expected |= FLAG_FLOW;
        }
        if matches!(
            b,
            b'-' | b'?'
                | b':'
                | b','
                | b'['
                | b']'
                | b'{'
                | b'}'
                | b'#'
                | b'&'
                | b'*'
                | b'!'
                | b'|'
                | b'>'
                | b'\''
                | b'"'
                | b'%'
                | b'@'
                | b'`'
        ) {
            expected |= FLAG_INDICATOR;
        }
        if b.is_ascii_alphanumeric() || b == b'-' || b == b'_' {
            expected |= FLAG_ANCHOR;
        }

        assert_eq!(
            actual, expected,
            "byte {b:#04x} ({:?}) classification mismatch",
            b as char
        );
    }
}
