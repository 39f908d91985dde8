//! Bitflag-based character classification for YAML scanning.
//!
//! Each byte has a set of properties, held as the bits of one `u8`.
use vstd::prelude::*;

verus! {

// The ASCII bytes that the scanner tells apart.
pub const TAB: u8 = 0x09;

pub const LF: u8 = 0x0a;

pub const CR: u8 = 0x0d;

pub const SPACE: u8 = 0x20;

pub const BANG: u8 = 0x21;

pub const DQUOTE: u8 = 0x22;

pub const HASH: u8 = 0x23;

pub const PERCENT: u8 = 0x25;

pub const AMP: u8 = 0x26;

pub const SQUOTE: u8 = 0x27;

pub const STAR: u8 = 0x2a;

pub const PLUS: u8 = 0x2b;

pub const COMMA: u8 = 0x2c;

pub const DASH: u8 = 0x2d;

pub const DOT: u8 = 0x2e;

pub const SLASH: u8 = 0x2f;

pub const ZERO: u8 = 0x30;

pub const NINE: u8 = 0x39;

pub const COLON: u8 = 0x3a;

pub const LT: u8 = 0x3c;

pub const GT: u8 = 0x3e;

pub const QUESTION: u8 = 0x3f;

pub const AT: u8 = 0x40;

pub const UPPER_A: u8 = 0x41;

pub const UPPER_Z: u8 = 0x5a;

pub const LBRACKET: u8 = 0x5b;

pub const BACKSLASH: u8 = 0x5c;

pub const RBRACKET: u8 = 0x5d;

pub const UNDERSCORE: u8 = 0x5f;

pub const BACKTICK: u8 = 0x60;

pub const LOWER_A: u8 = 0x61;

pub const LOWER_Z: u8 = 0x7a;

pub const LBRACE: u8 = 0x7b;

pub const PIPE: u8 = 0x7c;

pub const RBRACE: u8 = 0x7d;

/// Whitespace: space (0x20) or tab (0x09).
pub const FLAG_WHITESPACE: u8 = 1;

/// Line break: LF (0x0A) or CR (0x0D).
pub const FLAG_BREAK: u8 = 2;

/// ASCII digit: 0-9.
pub const FLAG_DIGIT: u8 = 4;

/// ASCII letter: a-z, A-Z.
pub const FLAG_ALPHA: u8 = 8;

/// YAML flow indicator: `{`, `}`, `[`, `]`, `,`.
pub const FLAG_FLOW: u8 = 16;

/// YAML indicator character (structural meaning in YAML).
pub const FLAG_INDICATOR: u8 = 32;

/// Valid in anchor/alias names: alphanumeric + `-` + `_`.
pub const FLAG_ANCHOR: u8 = 64;

/// Blank: whitespace or line break.
pub const FLAG_BLANK_OR_BREAK: u8 = 3;

/// Character classification table.
pub const CHAR_FLAGS: [u8; 256] = [
    0, 0, 0, 0, 0, 0, 0, 0, 0, 1, 2, 0, 0, 2, 0, 0,
    0, 0, 0, 0, 0, 0, 0, 0, 0, 0, 0, 0, 0, 0, 0, 0,
    1, 32, 32, 32, 0, 32, 32, 32, 0, 0, 32, 0, 48, 96, 0, 0,
    68, 68, 68, 68, 68, 68, 68, 68, 68, 68, 32, 0, 0, 0, 32, 32,
    32, 72, 72, 72, 72, 72, 72, 72, 72, 72, 72, 72, 72, 72, 72, 72,
    72, 72, 72, 72, 72, 72, 72, 72, 72, 72, 72, 48, 0, 48, 0, 64,
    32, 72, 72, 72, 72, 72, 72, 72, 72, 72, 72, 72, 72, 72, 72, 72,
    72, 72, 72, 72, 72, 72, 72, 72, 72, 72, 72, 48, 32, 48, 0, 0,
    0, 0, 0, 0, 0, 0, 0, 0, 0, 0, 0, 0, 0, 0, 0, 0,
    0, 0, 0, 0, 0, 0, 0, 0, 0, 0, 0, 0, 0, 0, 0, 0,
    0, 0, 0, 0, 0, 0, 0, 0, 0, 0, 0, 0, 0, 0, 0, 0,
    0, 0, 0, 0, 0, 0, 0, 0, 0, 0, 0, 0, 0, 0, 0, 0,
    0, 0, 0, 0, 0, 0, 0, 0, 0, 0, 0, 0, 0, 0, 0, 0,
    0, 0, 0, 0, 0, 0, 0, 0, 0, 0, 0, 0, 0, 0, 0, 0,
    0, 0, 0, 0, 0, 0, 0, 0, 0, 0, 0, 0, 0, 0, 0, 0,
    0, 0, 0, 0, 0, 0, 0, 0, 0, 0, 0, 0, 0, 0, 0, 0,
];

/// Space or tab.
pub open spec fn whitespace(b: u8) -> bool {
    b == SPACE || b == TAB
}

/// LF or CR.
pub open spec fn line_break(b: u8) -> bool {
    b == LF || b == CR
}

/// Whitespace or a line break.
pub open spec fn blank(b: u8) -> bool {
    whitespace(b) || line_break(b)
}

/// An ASCII digit.
pub open spec fn ascii_digit(b: u8) -> bool {
    ZERO <= b <= NINE
}

/// An ASCII letter.
pub open spec fn letter(b: u8) -> bool {
    (LOWER_A <= b <= LOWER_Z) || (UPPER_A <= b <= UPPER_Z)
}

/// One of `{`, `}`, `[`, `]`, `,`.
pub open spec fn flow(b: u8) -> bool {
    b == LBRACE || b == RBRACE || b == LBRACKET || b == RBRACKET || b == COMMA
}

/// One of ``-?:,[]{}#&*!|>'"%@` ``.
pub open spec fn indicator(b: u8) -> bool {
    flow(b) || b == DASH || b == QUESTION || b == COLON || b == HASH || b == AMP || b == STAR
        || b == BANG || b == PIPE || b == GT || b == SQUOTE || b == DQUOTE || b == PERCENT || b
        == AT || b == BACKTICK
}

/// A letter, a digit, `-` or `_`.
pub open spec fn anchor_char(b: u8) -> bool {
    letter(b) || ascii_digit(b) || b == DASH || b == UNDERSCORE
}

/// All properties of a byte, one bit each.
pub open spec fn char_flags(b: u8) -> u8 {
    (if whitespace(b) { FLAG_WHITESPACE } else { 0u8 }) | (if line_break(b) {
        FLAG_BREAK
    } else {
        0u8
    }) | (if ascii_digit(b) { FLAG_DIGIT } else { 0u8 }) | (if letter(b) {
        FLAG_ALPHA
    } else {
        0u8
    }) | (if flow(b) { FLAG_FLOW } else { 0u8 }) | (if indicator(b) {
        FLAG_INDICATOR
    } else {
        0u8
    }) | (if anchor_char(b) { FLAG_ANCHOR } else { 0u8 })
}

/// Computes the classification table from the properties themselves.
pub fn build_char_flags() -> (table: [u8; 256])
    ensures
        forall|i: int| 0 <= i < 256 ==> #[trigger] table[i] == char_flags(i as u8),
{
    let mut table: [u8; 256] = [0u8; 256];
    let mut i: usize = 0;
    while i < 256
        invariant
            i <= 256,
            forall|j: int| 0 <= j < i ==> #[trigger] table[j] == char_flags(j as u8),
        decreases 256 - i,
    {
        table[i] = flags_of(i as u8);
        i += 1;
    }
    table
}

/// Computes the properties of one byte.
fn flags_of(b: u8) -> (r: u8)
    ensures
        r == char_flags(b),
{
    let ws: u8 = if b == SPACE || b == TAB { FLAG_WHITESPACE } else { 0 };
    let brk: u8 = if b == LF || b == CR { FLAG_BREAK } else { 0 };
    let digit: u8 = if b >= ZERO && b <= NINE { FLAG_DIGIT } else { 0 };
    let alpha: u8 = if (b >= LOWER_A && b <= LOWER_Z) || (b >= UPPER_A && b <= UPPER_Z) { FLAG_ALPHA } else { 0 };
    let flow: u8 = if b == LBRACE || b == RBRACE || b == LBRACKET || b == RBRACKET || b == COMMA { FLAG_FLOW } else { 0 };
    let indicator: u8 = if flow != 0 || b == DASH || b == QUESTION || b == COLON || b == HASH || b == AMP
        || b == STAR || b == BANG || b == PIPE || b == GT || b == SQUOTE || b == DQUOTE || b == PERCENT
        || b == AT || b == BACKTICK { FLAG_INDICATOR } else { 0 };
    let anchor: u8 = if alpha != 0 || digit != 0 || b == DASH || b == UNDERSCORE { FLAG_ANCHOR } else { 0 };
    ws | brk | digit | alpha | flow | indicator | anchor
}

/// Returns `true` if the byte has the given flag(s).
#[must_use]
pub fn is(b: u8, flags: u8) -> (r: bool)
    ensures
        r == (char_flags(b) & flags != 0),
{
    proof {
        law_table_classifies(b);
    }
    CHAR_FLAGS[b as usize] & flags != 0
}

/// Returns `true` if the byte is a YAML whitespace (space or tab).
#[must_use]
pub fn is_whitespace(b: u8) -> (r: bool)
    ensures
        r == whitespace(b),
{
    proof {
        assert((char_flags(b) & FLAG_WHITESPACE != 0) == whitespace(b)) by (bit_vector);
    }
    is(b, FLAG_WHITESPACE)
}

/// Returns `true` if the byte is a line break (LF or CR).
#[must_use]
pub fn is_break(b: u8) -> (r: bool)
    ensures
        r == line_break(b),
{
    proof {
        assert((char_flags(b) & FLAG_BREAK != 0) == line_break(b)) by (bit_vector);
    }
    is(b, FLAG_BREAK)
}

/// Returns `true` if the byte is blank (whitespace or line break).
#[must_use]
pub fn is_blank_or_break(b: u8) -> (r: bool)
    ensures
        r == blank(b),
{
    proof {
        assert((char_flags(b) & FLAG_BLANK_OR_BREAK != 0) == blank(b)) by (bit_vector);
    }
    is(b, FLAG_BLANK_OR_BREAK)
}

/// Returns `true` if the byte is a flow indicator.
#[must_use]
pub fn is_flow(b: u8) -> (r: bool)
    ensures
        r == flow(b),
{
    proof {
        assert((char_flags(b) & FLAG_FLOW != 0) == flow(b)) by (bit_vector);
    }
    is(b, FLAG_FLOW)
}

/// Returns `true` if the byte is a YAML indicator.
#[must_use]
pub fn is_indicator(b: u8) -> (r: bool)
    ensures
        r == indicator(b),
{
    proof {
        assert((char_flags(b) & FLAG_INDICATOR != 0) == indicator(b)) by (bit_vector);
    }
    is(b, FLAG_INDICATOR)
}

/// Returns `true` if the byte is valid in an anchor or alias name.
#[must_use]
pub fn is_anchor_char(b: u8) -> (r: bool)
    ensures
        r == anchor_char(b),
{
    proof {
        assert((char_flags(b) & FLAG_ANCHOR != 0) == anchor_char(b)) by (bit_vector);
    }
    is(b, FLAG_ANCHOR)
}

/// Returns `true` if the byte is an ASCII digit.
#[must_use]
pub fn is_digit(b: u8) -> (r: bool)
    ensures
        r == ascii_digit(b),
{
    proof {
        assert((char_flags(b) & FLAG_DIGIT != 0) == ascii_digit(b)) by (bit_vector);
    }
    is(b, FLAG_DIGIT)
}

/// The properties of a byte as a sum: no two flags share a bit.
proof fn lemma_flags_sum(b: u8)
    ensures
        char_flags(b) == (if whitespace(b) { 1int } else { 0 }) + (if line_break(b) { 2int } else { 0 })
            + (if ascii_digit(b) { 4int } else { 0 }) + (if letter(b) { 8int } else { 0 }) + (if flow(b) {
            16int
        } else {
            0
        }) + (if indicator(b) { 32int } else { 0 }) + (if anchor_char(b) { 64int } else { 0 }),
{
    let r = char_flags(b);
    assert(char_flags(b) == (if whitespace(b) { 1u8 } else { 0u8 }) + (if line_break(b) { 2u8 } else { 0u8 })
        + (if ascii_digit(b) { 4u8 } else { 0u8 }) + (if letter(b) { 8u8 } else { 0u8 }) + (if flow(b) {
        16u8
    } else {
        0u8
    }) + (if indicator(b) { 32u8 } else { 0u8 }) + (if anchor_char(b) { 64u8 } else { 0u8 })) by (bit_vector);
}

/// The table holds the properties of every byte.
#[verifier::rlimit(60)]
pub proof fn law_table_classifies(b: u8)
    ensures
        CHAR_FLAGS[b as int] == char_flags(b),
{
    lemma_flags_sum(b);
}

} // verus!
