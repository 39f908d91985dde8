//! SWAR (SIMD-Within-A-Register) structural-byte scan helpers.
//!
//! Processes 8 bytes at a time using `u64` bit tricks to locate the first byte
//! matching a set of structural characters.
//!
//! # Position accounting
//!
//! All helpers return a **byte count** (how many bytes the caller may skip),
//! not a transformed value.  The caller advances its offset/column by that count.
//! Newlines are never skipped by these helpers.
use crate::scanner::chars::{
    flow, line_break, whitespace, COLON, COMMA, CR, HASH, LBRACE, LBRACKET, LF, RBRACE, RBRACKET,
    SPACE, TAB,
};
use vstd::prelude::*;
use vstd::std_specs::bits::axiom_u64_trailing_zeros;

verus! {

/// Byte lane `k` of a word, counted from the least significant end.
pub open spec fn lane(word: u64, k: u64) -> u64 {
    (word >> (8 * k) as u64) & 0xff
}

/// Whether bit `8 k + 7` of a mask is set.
pub open spec fn flagged(mask: u64, k: u64) -> bool {
    (mask >> (8 * k + 7) as u64) & 1 == 1
}

/// Whether a mask has no bit outside the high bits of its lanes.
pub open spec fn is_mask(mask: u64) -> bool {
    mask & 0x7f7f_7f7f_7f7f_7f7f == 0
}

/// The first index from `lo` on at which `stop` holds, or the length.
pub open spec fn first_from(b: Seq<u8>, lo: int, stop: spec_fn(u8) -> bool) -> int
    decreases b.len() - lo,
{
    if lo >= b.len() || stop(b[lo]) {
        lo
    } else {
        first_from(b, lo + 1, stop)
    }
}

/// `first_from` is where `stop` first holds.
pub proof fn lemma_first_from(b: Seq<u8>, lo: int, stop: spec_fn(u8) -> bool)
    requires
        0 <= lo <= b.len(),
    ensures
        lo <= first_from(b, lo, stop) <= b.len(),
        forall|i: int| lo <= i < first_from(b, lo, stop) ==> !stop(#[trigger] b[i]),
        first_from(b, lo, stop) < b.len() ==> stop(b[first_from(b, lo, stop)]),
    decreases b.len() - lo,
{
    if lo < b.len() && !stop(b[lo]) {
        lemma_first_from(b, lo + 1, stop);
    }
}

/// A position before which `stop` never holds does not hide the first stop.
pub proof fn lemma_first_from_skip(b: Seq<u8>, lo: int, mid: int, stop: spec_fn(u8) -> bool)
    requires
        0 <= lo <= mid <= b.len(),
        forall|i: int| lo <= i < mid ==> !stop(#[trigger] b[i]),
    ensures
        first_from(b, lo, stop) == first_from(b, mid, stop),
    decreases mid - lo,
{
    if lo < mid {
        lemma_first_from_skip(b, lo + 1, mid, stop);
    }
}

/// The bytes that can end a plain scalar in block context.
pub open spec fn block_stop(b: u8) -> bool {
    line_break(b) || whitespace(b) || b == HASH || b == COLON
}

/// The bytes that can end a plain scalar in flow context.
pub open spec fn flow_stop(b: u8) -> bool {
    block_stop(b) || flow(b)
}

/// Broadcasts a single byte `v` into all 8 byte lanes of a `u64`.
pub fn broadcast_byte(v: u8) -> (r: u64)
    ensures
        forall|k: u64| k < 8 ==> #[trigger] lane(r, k) == v,
{
    let w: u64 = v as u64;
    proof {
        assert(w * 0x0101_0101_0101_0101 <= 0xffff_ffff_ffff_ffff) by (bit_vector)
            requires
                w < 256,
        ;
    }
    let r: u64 = w * 0x0101_0101_0101_0101;
    proof {
        assert forall|k: u64| k < 8 implies #[trigger] lane(r, k) == v by {
            assert(lane(r, k) == w) by (bit_vector)
                requires
                    w < 256,
                    k < 8,
                    r == w * 0x0101_0101_0101_0101,
            ;
        }
    }
    r
}

/// Returns a mask with the high bit set in each byte lane that is zero.
pub fn has_zero(word: u64) -> (r: u64)
    ensures
        is_mask(r),
        forall|k: u64| k < 8 ==> #[trigger] flagged(r, k) == (lane(word, k) == 0),
{
    let low: u64 = word & 0x7f7f_7f7f_7f7f_7f7f;
    proof {
        assert(low + 0x7f7f_7f7f_7f7f_7f7f <= 0xffff_ffff_ffff_ffff) by (bit_vector)
            requires
                low == word & 0x7f7f_7f7f_7f7f_7f7f,
        ;
    }
    let sum: u64 = low + 0x7f7f_7f7f_7f7f_7f7f;
    let r: u64 = !(sum | word) & 0x8080_8080_8080_8080;
    proof {
        assert(is_mask(r)) by (bit_vector)
            requires
                r == !(sum | word) & 0x8080_8080_8080_8080,
        ;
        assert forall|k: u64| k < 8 implies #[trigger] flagged(r, k) == (lane(word, k) == 0) by {
            assert(flagged(r, k) == (lane(word, k) == 0)) by (bit_vector)
                requires
                    k < 8,
                    low == word & 0x7f7f_7f7f_7f7f_7f7f,
                    sum == low + 0x7f7f_7f7f_7f7f_7f7f,
                    r == !(sum | word) & 0x8080_8080_8080_8080,
            ;
        }
    }
    r
}

/// Returns a mask with the high bit set in each byte lane equal to `v`.
pub fn has_value(word: u64, v: u8) -> (r: u64)
    ensures
        is_mask(r),
        forall|k: u64| k < 8 ==> #[trigger] flagged(r, k) == (lane(word, k) == v),
{
    let all = broadcast_byte(v);
    let x: u64 = word ^ all;
    let r = has_zero(x);
    proof {
        assert forall|k: u64| k < 8 implies #[trigger] flagged(r, k) == (lane(word, k) == v) by {
            assert(lane(all, k) == v);
            assert((lane(x, k) == 0) == (lane(word, k) == lane(all, k))) by (bit_vector)
                requires
                    k < 8,
                    x == word ^ all,
            ;
        }
    }
    r
}

/// Number of leading bytes (from LSB end) in a SWAR match mask with no match.
///
/// Given a mask from `has_zero`/`has_value` (high bit set per matching lane),
/// returns the index of the first matching byte.  Returns 8 if no match.
pub fn match_offset(mask: u64) -> (r: usize)
    requires
        is_mask(mask),
    ensures
        r <= 8,
        r == 8 <==> mask == 0,
        r < 8 ==> flagged(mask, r as u64),
        forall|k: u64| k < r ==> !#[trigger] flagged(mask, k),
{
    let z: u32 = mask.trailing_zeros();
    proof {
        axiom_u64_trailing_zeros(mask);
        let zz = z as u64;
        if z < 64 {
            assert(zz % 8 == 7) by (bit_vector)
                requires
                    is_mask(mask),
                    zz < 64,
                    (mask >> zz) & 1 == 1,
            ;
        }
        assert forall|k: u64| k < z / 8 implies !#[trigger] flagged(mask, k) by {
            let j = (8 * k + 7) as u64;
            assert((mask >> j) & 1u64 == 0u64);
        }
    }
    (z / 8) as usize
}

/// Joining two masks joins what they flag.
proof fn lemma_or_masks(a: u64, b: u64)
    requires
        is_mask(a),
        is_mask(b),
    ensures
        is_mask(a | b),
        forall|k: u64| k < 8 ==> #[trigger] flagged(a | b, k) == (flagged(a, k) || flagged(b, k)),
{
    assert(is_mask(a | b)) by (bit_vector)
        requires
            is_mask(a),
            is_mask(b),
    ;
    assert forall|k: u64| k < 8 implies #[trigger] flagged(a | b, k) == (flagged(a, k) || flagged(
        b,
        k,
    )) by {
        assert(flagged(a | b, k) == (flagged(a, k) || flagged(b, k))) by (bit_vector)
            requires
                k < 8,
        ;
    }
}

/// The mask that flags what `a` or `b` flags.
fn either(a: u64, b: u64) -> (r: u64)
    requires
        is_mask(a),
        is_mask(b),
    ensures
        is_mask(r),
        forall|k: u64| k < 8 ==> #[trigger] flagged(r, k) == (flagged(a, k) || flagged(b, k)),
{
    proof {
        lemma_or_masks(a, b);
    }
    a | b
}

/// The mask that flags what `a` does not flag.
fn neither(a: u64) -> (r: u64)
    requires
        is_mask(a),
    ensures
        is_mask(r),
        forall|k: u64| k < 8 ==> #[trigger] flagged(r, k) == !flagged(a, k),
{
    let r: u64 = !a & 0x8080_8080_8080_8080;
    proof {
        assert(is_mask(r)) by (bit_vector)
            requires
                r == !a & 0x8080_8080_8080_8080,
        ;
        assert forall|k: u64| k < 8 implies #[trigger] flagged(r, k) == !flagged(a, k) by {
            assert(flagged(r, k) == !flagged(a, k)) by (bit_vector)
                requires
                    k < 8,
                    r == !a & 0x8080_8080_8080_8080,
            ;
        }
    }
    r
}

/// Load 8 bytes from `bytes[offset..offset+8]` as a little-endian `u64`.
pub fn load_u64_le(bytes: &[u8], offset: usize) -> (r: u64)
    requires
        offset + 8 <= bytes@.len(),
    ensures
        forall|k: u64| k < 8 ==> #[trigger] lane(r, k) == bytes@[offset + k],
{
    let b0: u64 = bytes[offset] as u64;
    let b1: u64 = bytes[offset + 1] as u64;
    let b2: u64 = bytes[offset + 2] as u64;
    let b3: u64 = bytes[offset + 3] as u64;
    let b4: u64 = bytes[offset + 4] as u64;
    let b5: u64 = bytes[offset + 5] as u64;
    let b6: u64 = bytes[offset + 6] as u64;
    let b7: u64 = bytes[offset + 7] as u64;
    let r: u64 = b0 | (b1 << 8) | (b2 << 16) | (b3 << 24) | (b4 << 32) | (b5 << 40) | (b6 << 48)
        | (b7 << 56);
    proof {
        assert(lane(r, 0) == b0 && lane(r, 1) == b1 && lane(r, 2) == b2 && lane(r, 3) == b3 && lane(
            r,
            4,
        ) == b4 && lane(r, 5) == b5 && lane(r, 6) == b6 && lane(r, 7) == b7) by (bit_vector)
            requires
                b0 < 256,
                b1 < 256,
                b2 < 256,
                b3 < 256,
                b4 < 256,
                b5 < 256,
                b6 < 256,
                b7 < 256,
                r == b0 | (b1 << 8) | (b2 << 16) | (b3 << 24) | (b4 << 32) | (b5 << 40) | (b6 << 48)
                    | (b7 << 56),
        ;
        assert forall|k: u64| k < 8 implies #[trigger] lane(r, k) == bytes@[offset + k] by {
            assert(k == 0 || k == 1 || k == 2 || k == 3 || k == 4 || k == 5 || k == 6 || k == 7);
        }
    }
    r
}

/// A mask that flags the lanes on which `stop` holds tells the first stop.
proof fn lemma_stop_mask(b: Seq<u8>, i: int, word: u64, mask: u64, r: int, stop: spec_fn(u8) -> bool)
    requires
        0 <= i,
        i + 8 <= b.len(),
        forall|k: u64| k < 8 ==> #[trigger] lane(word, k) == b[i + k],
        forall|k: u64| k < 8 ==> #[trigger] flagged(mask, k) == stop(b[i + k]),
        0 <= r <= 8,
        r < 8 ==> flagged(mask, r as u64),
        forall|k: u64| k < r ==> !#[trigger] flagged(mask, k),
    ensures
        first_from(b, i, stop) == if r < 8 { i + r } else { first_from(b, i + 8, stop) },
{
    assert forall|j: int| i <= j < i + r implies !stop(#[trigger] b[j]) by {
        let k = (j - i) as u64;
        assert(!flagged(mask, k));
    }
    lemma_first_from_skip(b, i, i + r, stop);
}

/// Find the first byte in `bytes[offset..]` that is not a space (0x20) or
/// tab (0x09).
///
/// Returns the number of leading space/tab bytes relative to `offset`.
/// If all remaining bytes are spaces/tabs, returns `bytes.len() - offset`.
#[must_use]
pub fn skip_spaces_tabs(bytes: &[u8], offset: usize) -> (r: usize)
    requires
        offset <= bytes@.len(),
    ensures
        offset + r == first_from(bytes@, offset as int, |b: u8| !whitespace(b)),
{
    let ghost stop = |b: u8| !whitespace(b);
    let mut i: usize = offset;
    let end: usize = bytes.len();
    while end - i >= 8
        invariant
            offset <= i <= end == bytes@.len(),
            stop == (|b: u8| !whitespace(b)),
            first_from(bytes@, offset as int, stop) == first_from(bytes@, i as int, stop),
        decreases end - i,
    {
        let word = load_u64_le(bytes, i);
        let blanks = either(has_value(word, SPACE), has_value(word, TAB));
        let mask = neither(blanks);
        let skip = match_offset(mask);
        proof {
            assert forall|k: u64| k < 8 implies #[trigger] flagged(mask, k) == stop(bytes@[i + k]) by {
                assert(lane(word, k) == bytes@[i + k]);
            }
            lemma_stop_mask(bytes@, i as int, word, mask, skip as int, stop);
            lemma_first_from(bytes@, i as int, stop);
        }
        if mask != 0 {
            return i + skip - offset;
        }
        i += 8;
    }
    while i < end
        invariant
            offset <= i <= end == bytes@.len(),
            stop == (|b: u8| !whitespace(b)),
            first_from(bytes@, offset as int, stop) == first_from(bytes@, i as int, stop),
        decreases end - i,
    {
        let b = bytes[i];
        if b != SPACE && b != TAB {
            return i - offset;
        }
        i += 1;
    }
    end - offset
}

/// Find the first line-break byte (`\n` or `\r`) in `bytes[offset..]`.
///
/// Returns the number of bytes before the first line break, or
/// `bytes.len() - offset` if no break is found.
#[must_use]
pub fn find_line_end(bytes: &[u8], offset: usize) -> (r: usize)
    requires
        offset <= bytes@.len(),
    ensures
        offset + r == first_from(bytes@, offset as int, |b: u8| line_break(b)),
{
    let ghost stop = |b: u8| line_break(b);
    let mut i: usize = offset;
    let end: usize = bytes.len();
    while end - i >= 8
        invariant
            offset <= i <= end == bytes@.len(),
            stop == (|b: u8| line_break(b)),
            first_from(bytes@, offset as int, stop) == first_from(bytes@, i as int, stop),
        decreases end - i,
    {
        let word = load_u64_le(bytes, i);
        let mask = either(has_value(word, LF), has_value(word, CR));
        let skip = match_offset(mask);
        proof {
            assert forall|k: u64| k < 8 implies #[trigger] flagged(mask, k) == stop(bytes@[i + k]) by {
                assert(lane(word, k) == bytes@[i + k]);
            }
            lemma_stop_mask(bytes@, i as int, word, mask, skip as int, stop);
            lemma_first_from(bytes@, i as int, stop);
        }
        if mask != 0 {
            return i + skip - offset;
        }
        i += 8;
    }
    while i < end
        invariant
            offset <= i <= end == bytes@.len(),
            stop == (|b: u8| line_break(b)),
            first_from(bytes@, offset as int, stop) == first_from(bytes@, i as int, stop),
        decreases end - i,
    {
        let b = bytes[i];
        if b == LF || b == CR {
            return i - offset;
        }
        i += 1;
    }
    end - offset
}

/// The mask of the lanes that can end a plain scalar in block context.
fn block_stop_mask(word: u64) -> (r: u64)
    ensures
        is_mask(r),
        forall|k: u64| k < 8 ==> #[trigger] flagged(r, k) == block_stop(lane(word, k) as u8),
{
    let breaks = either(has_value(word, LF), has_value(word, CR));
    let blanks = either(has_value(word, SPACE), has_value(word, TAB));
    let marks = either(has_value(word, HASH), has_value(word, COLON));
    let r = either(either(breaks, blanks), marks);
    proof {
        assert forall|k: u64| k < 8 implies #[trigger] flagged(r, k) == block_stop(
            lane(word, k) as u8,
        ) by {
            assert(lane(word, k) < 256) by (bit_vector);
            assert(flagged(breaks, k) == line_break(lane(word, k) as u8));
            assert(flagged(blanks, k) == whitespace(lane(word, k) as u8));
        }
    }
    r
}

/// The mask of the lanes that hold a flow indicator.
fn flow_mask(word: u64) -> (r: u64)
    ensures
        is_mask(r),
        forall|k: u64| k < 8 ==> #[trigger] flagged(r, k) == flow(lane(word, k) as u8),
{
    let braces = either(has_value(word, LBRACE), has_value(word, RBRACE));
    let brackets = either(has_value(word, LBRACKET), has_value(word, RBRACKET));
    let r = either(either(braces, brackets), has_value(word, COMMA));
    proof {
        assert forall|k: u64| k < 8 implies #[trigger] flagged(r, k) == flow(lane(word, k) as u8) by {
            assert(lane(word, k) < 256) by (bit_vector);
            assert(flagged(braces, k) == (lane(word, k) == LBRACE || lane(word, k) == RBRACE));
            assert(flagged(brackets, k) == (lane(word, k) == LBRACKET || lane(word, k) == RBRACKET));
        }
    }
    r
}

/// Find the first structural byte ending a plain scalar in block context.
///
/// Stops at: `\n`, `\r`, ` `, `\t`, `#`, `:`.
///
/// The `:` case is a conservative hint — the caller must verify that the
/// byte after the colon is a blank/break/EOF before treating it as a value
/// indicator.
///
/// Returns number of bytes that are safe to skip (relative to `offset`).
#[must_use]
pub fn find_plain_scalar_end_block(bytes: &[u8], offset: usize) -> (r: usize)
    requires
        offset <= bytes@.len(),
    ensures
        offset + r == first_from(bytes@, offset as int, |b: u8| block_stop(b)),
{
    let ghost stop = |b: u8| block_stop(b);
    let mut i: usize = offset;
    let end: usize = bytes.len();
    while end - i >= 8
        invariant
            offset <= i <= end == bytes@.len(),
            stop == (|b: u8| block_stop(b)),
            first_from(bytes@, offset as int, stop) == first_from(bytes@, i as int, stop),
        decreases end - i,
    {
        let word = load_u64_le(bytes, i);
        let mask = block_stop_mask(word);
        let skip = match_offset(mask);
        proof {
            assert forall|k: u64| k < 8 implies #[trigger] flagged(mask, k) == stop(bytes@[i + k]) by {
                assert(lane(word, k) == bytes@[i + k]);
            }
            lemma_stop_mask(bytes@, i as int, word, mask, skip as int, stop);
            lemma_first_from(bytes@, i as int, stop);
        }
        if mask != 0 {
            return i + skip - offset;
        }
        i += 8;
    }
    while i < end
        invariant
            offset <= i <= end == bytes@.len(),
            stop == (|b: u8| block_stop(b)),
            first_from(bytes@, offset as int, stop) == first_from(bytes@, i as int, stop),
        decreases end - i,
    {
        let b = bytes[i];
        if b == LF || b == CR || b == SPACE || b == TAB || b == HASH || b == COLON {
            return i - offset;
        }
        i += 1;
    }
    end - offset
}

/// Find the first structural byte ending a plain scalar in flow context.
///
/// Same as [`find_plain_scalar_end_block`] plus the flow indicators
/// `{`, `}`, `[`, `]`, `,`.
#[must_use]
pub fn find_plain_scalar_end_flow(bytes: &[u8], offset: usize) -> (r: usize)
    requires
        offset <= bytes@.len(),
    ensures
        offset + r == first_from(bytes@, offset as int, |b: u8| flow_stop(b)),
{
    let ghost stop = |b: u8| flow_stop(b);
    let mut i: usize = offset;
    let end: usize = bytes.len();
    while end - i >= 8
        invariant
            offset <= i <= end == bytes@.len(),
            stop == (|b: u8| flow_stop(b)),
            first_from(bytes@, offset as int, stop) == first_from(bytes@, i as int, stop),
        decreases end - i,
    {
        let word = load_u64_le(bytes, i);
        let mask = either(block_stop_mask(word), flow_mask(word));
        let skip = match_offset(mask);
        proof {
            assert forall|k: u64| k < 8 implies #[trigger] flagged(mask, k) == stop(bytes@[i + k]) by {
                assert(lane(word, k) == bytes@[i + k]);
            }
            lemma_stop_mask(bytes@, i as int, word, mask, skip as int, stop);
            lemma_first_from(bytes@, i as int, stop);
        }
        if mask != 0 {
            return i + skip - offset;
        }
        i += 8;
    }
    while i < end
        invariant
            offset <= i <= end == bytes@.len(),
            stop == (|b: u8| flow_stop(b)),
            first_from(bytes@, offset as int, stop) == first_from(bytes@, i as int, stop),
        decreases end - i,
    {
        let b = bytes[i];
        if b == LF || b == CR || b == SPACE || b == TAB || b == HASH || b == COLON || b == LBRACE || b
            == RBRACE || b == LBRACKET || b == RBRACKET || b == COMMA {
            return i - offset;
        }
        i += 1;
    }
    end - offset
}

} // verus!
