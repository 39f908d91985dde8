use skald::scanner::swar::{
    find_line_end, find_plain_scalar_end_block, find_plain_scalar_end_flow, has_value, has_zero,
    match_offset, skip_spaces_tabs,
};

fn scalar_skip_spaces_tabs(bytes: &[u8], offset: usize) -> usize {
    let mut i = offset;
    while i < bytes.len() {
        let b = bytes[i];
        if b != b' ' && b != b'\t' {
            break;
        }
        i += 1;
    }
    i - offset
}

fn scalar_find_line_end(bytes: &[u8], offset: usize) -> usize {
    let mut i = offset;
    while i < bytes.len() {
        if bytes[i] == b'\n' || bytes[i] == b'\r' {
            break;
        }
        i += 1;
    }
    i - offset
}

fn scalar_find_plain_end_block(bytes: &[u8], offset: usize) -> usize {
    let mut i = offset;
    while i < bytes.len() {
        let b = bytes[i];
        if matches!(b, b'\n' | b'\r' | b' ' | b'\t' | b'#' | b':') {
            break;
        }
        i += 1;
    }
    i - offset
}

fn scalar_find_plain_end_flow(bytes: &[u8], offset: usize) -> usize {
    let mut i = offset;
    while i < bytes.len() {
        let b = bytes[i];
        if matches!(
            b,
            b'\n' | b'\r' | b' ' | b'\t' | b'#' | b':' | b'{' | b'}' | b'[' | b']' | b','
        ) {
            break;
        }
        i += 1;
    }
    i - offset
}

#[test]
fn empty_input_returns_zero() {
    assert_eq!(skip_spaces_tabs(&[], 0), 0);
    assert_eq!(find_line_end(&[], 0), 0);
    assert_eq!(find_plain_scalar_end_block(&[], 0), 0);
    assert_eq!(find_plain_scalar_end_flow(&[], 0), 0);
}

#[test]
fn skip_spaces_tabs_matches_scalar_all_bytes() {
    for b in 0u8..=255 {
        let input = [b];
        let swar = skip_spaces_tabs(&input, 0);
        let scalar = scalar_skip_spaces_tabs(&input, 0);
        assert_eq!(swar, scalar, "byte {b:#04x}");
    }
}

#[test]
fn find_line_end_matches_scalar_all_bytes() {
    for b in 0u8..=255 {
        let input = [b];
        let swar = find_line_end(&input, 0);
        let scalar = scalar_find_line_end(&input, 0);
        assert_eq!(swar, scalar, "byte {b:#04x}");
    }
}

#[test]
fn find_plain_end_block_matches_scalar_all_bytes() {
    for b in 0u8..=255 {
        let input = [b];
        let swar = find_plain_scalar_end_block(&input, 0);
        let scalar = scalar_find_plain_end_block(&input, 0);
        assert_eq!(swar, scalar, "byte {b:#04x}");
    }
}

#[test]
fn find_plain_end_flow_matches_scalar_all_bytes() {
    for b in 0u8..=255 {
        let input = [b];
        let swar = find_plain_scalar_end_flow(&input, 0);
        let scalar = scalar_find_plain_end_flow(&input, 0);
        assert_eq!(swar, scalar, "byte {b:#04x}");
    }
}

#[test]
fn skip_spaces_tabs_short() {
    let cases: &[(&[u8], usize, usize)] = &[
        (b" ", 0, 1),
        (b"\t", 0, 1),
        (b"  \t ", 0, 4),
        (b"  a", 0, 2),
        (b"\t\tb", 0, 2),
        (b"abc", 0, 0),
        (b"   \n", 0, 3),   // stops at newline
        (b"\t \r\n", 0, 2), // stops at CR
    ];
    for &(input, off, expected) in cases {
        let got = skip_spaces_tabs(input, off);
        let ref_got = scalar_skip_spaces_tabs(input, off);
        assert_eq!(got, expected, "input={input:?} off={off}");
        assert_eq!(got, ref_got, "swar/scalar mismatch for {input:?}");
    }
}

#[test]
fn find_line_end_short() {
    let cases: &[(&[u8], usize, usize)] = &[
        (b"\n", 0, 0),
        (b"\r", 0, 0),
        (b"abc\n", 0, 3),
        (b"abc\r\n", 0, 3),
        (b"abcdefg", 0, 7),
        (b"abc", 2, 1),
    ];
    for &(input, off, expected) in cases {
        let got = find_line_end(input, off);
        let ref_got = scalar_find_line_end(input, off);
        assert_eq!(got, expected, "input={input:?} off={off}");
        assert_eq!(got, ref_got, "swar/scalar mismatch for {input:?}");
    }
}

#[test]
fn find_plain_end_block_short() {
    let cases: &[(&[u8], usize, usize)] = &[
        (b"hello", 0, 5),
        (b"hello world", 0, 5),
        (b"hello\nworld", 0, 5),
        (b"key: value", 0, 3),
        (b"foo#bar", 0, 3),
        (b"abcdefgh", 0, 8),
        (b"abcdefgh!", 0, 9),
    ];
    for &(input, off, expected) in cases {
        let swar = find_plain_scalar_end_block(input, off);
        let scalar = scalar_find_plain_end_block(input, off);
        assert_eq!(swar, scalar, "swar/scalar mismatch {input:?} off={off}");
        assert_eq!(swar, expected, "input={input:?} off={off}");
    }
}

#[test]
fn exactly_8_bytes_no_stop() {
    let input = b"abcdefgh";
    assert_eq!(skip_spaces_tabs(input, 0), 0);
    assert_eq!(find_line_end(input, 0), 8);
    assert_eq!(find_plain_scalar_end_block(input, 0), 8);
    assert_eq!(find_plain_scalar_end_flow(input, 0), 8);
}

#[test]
fn exactly_8_spaces() {
    let input = b"        ";
    assert_eq!(skip_spaces_tabs(input, 0), 8);
    assert_eq!(scalar_skip_spaces_tabs(input, 0), 8);
}

#[test]
fn multi_word_no_stop() {
    let input = b"abcdefghijklmnopqrstuvwxyz";
    assert_eq!(find_line_end(input, 0), 26);
    assert_eq!(find_plain_scalar_end_block(input, 0), 26);
    assert_eq!(find_plain_scalar_end_flow(input, 0), 26);
}

#[test]
fn multi_word_stop_in_second_word() {
    let input = b"abcdefgh:rest";
    let swar = find_plain_scalar_end_block(input, 0);
    let scalar = scalar_find_plain_end_block(input, 0);
    assert_eq!(swar, scalar);
    assert_eq!(swar, 8);
}

#[test]
fn stop_at_every_position_in_two_words() {
    let stoppers = [b'\n', b'\r', b' ', b'\t', b'#', b':'];
    for stopper in stoppers {
        for pos in 0usize..16 {
            let mut input: Vec<u8> = b"abcdefghijklmnop".to_vec();
            input[pos] = stopper;
            let swar = find_plain_scalar_end_block(&input, 0);
            let scalar = scalar_find_plain_end_block(&input, 0);
            assert_eq!(
                swar, scalar,
                "stopper={stopper:#04x} pos={pos}: swar={swar} scalar={scalar}"
            );
            assert_eq!(swar, pos, "stop at pos={pos} stopper={stopper:#04x}");
        }
    }
}

#[test]
fn flow_stoppers_at_every_position() {
    let stoppers = [b'{', b'}', b'[', b']', b','];
    for stopper in stoppers {
        for pos in 0usize..16 {
            let mut input: Vec<u8> = b"abcdefghijklmnop".to_vec();
            input[pos] = stopper;
            let swar = find_plain_scalar_end_flow(&input, 0);
            let scalar = scalar_find_plain_end_flow(&input, 0);
            assert_eq!(
                swar, scalar,
                "stopper={stopper:#04x} pos={pos}: swar={swar} scalar={scalar}"
            );
            assert_eq!(swar, pos);
        }
    }
}

#[test]
fn non_zero_offset() {
    let input = b"   hello world";
    assert_eq!(skip_spaces_tabs(input, 3), 0);
    assert_eq!(find_line_end(input, 8), 6);

    for off in 0..input.len() {
        assert_eq!(
            skip_spaces_tabs(input, off),
            scalar_skip_spaces_tabs(input, off),
            "skip_spaces_tabs offset={off}"
        );
        assert_eq!(
            find_line_end(input, off),
            scalar_find_line_end(input, off),
            "find_line_end offset={off}"
        );
        assert_eq!(
            find_plain_scalar_end_block(input, off),
            scalar_find_plain_end_block(input, off),
            "plain_end_block offset={off}"
        );
    }
}

#[test]
fn all_spaces_and_tabs_large() {
    let mut input = vec![b' '; 100];
    for i in (0..100).step_by(3) {
        input[i] = b'\t';
    }
    assert_eq!(
        skip_spaces_tabs(&input, 0),
        scalar_skip_spaces_tabs(&input, 0)
    );
    assert_eq!(skip_spaces_tabs(&input, 0), 100);
}

#[test]
fn has_zero_detects_zero_byte() {
    let word = u64::from_le_bytes([b'A', b'A', b'A', 0, b'A', b'A', b'A', b'A']);
    let mask = has_zero(word);
    let expected_bit_pos = 3 * 8 + 7;
    assert_ne!(mask, 0);
    assert!(mask & (1u64 << expected_bit_pos) != 0, "mask={mask:#018x}");
}

#[test]
fn has_value_detects_colon() {
    let word = u64::from_le_bytes([b'h', b'e', b'l', b'l', b'o', b':', b'1', b'2']);
    let mask = has_value(word, b':');
    let expected_bit_pos = 5 * 8 + 7;
    assert_ne!(mask, 0);
    assert!(mask & (1u64 << expected_bit_pos) != 0, "mask={mask:#018x}");
}

#[test]
fn match_offset_first_byte() {
    let mask: u64 = 0x80;
    assert_eq!(match_offset(mask), 0);
}

#[test]
fn match_offset_last_byte() {
    let mask: u64 = 0x80_00_00_00_00_00_00_00;
    assert_eq!(match_offset(mask), 7);
}

#[test]
fn match_offset_no_match() {
    assert_eq!(match_offset(0), 8);
}

#[test]
fn equivalence_on_yaml_fragment() {
    let input =
        b"apiVersion: apps/v1\nkind: Deployment\nmetadata:\n  name: my-app\n  namespace: default\n";
    for off in 0..input.len() {
        assert_eq!(
            find_plain_scalar_end_block(input, off),
            scalar_find_plain_end_block(input, off),
            "plain_end_block off={off}"
        );
        assert_eq!(
            find_line_end(input, off),
            scalar_find_line_end(input, off),
            "find_line_end off={off}"
        );
        assert_eq!(
            skip_spaces_tabs(input, off),
            scalar_skip_spaces_tabs(input, off),
            "skip_spaces_tabs off={off}"
        );
    }
}
