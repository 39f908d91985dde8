//! Block scalar headers, and how the indentation of a block scalar is found.
use crate::scanner::block::{after_header, auto_indent, header, probe};
use crate::scanner::cursor::{lemma_run, run_end, stops, Cur, Until};
use crate::scanner::folding::{one_line, times};
use vstd::prelude::*;

verus! {

proof fn lemma_probe_spaces(b: Seq<u8>, i: int, n: nat, width: nat, widest: nat)
    requires
        0 <= i,
        i + n <= b.len(),
        forall|k: int| i <= k < i + n ==> #[trigger] b[k] == 0x20,
    ensures
        probe(b, i, width, widest) == probe(b, i + n, width + n, widest),
    decreases n,
{
    if n > 0 {
        assert(b[i] == 0x20);
        lemma_probe_spaces(b, i + 1, (n - 1) as nat, width + 1, widest);
    }
}

/// The first line with text in it sets the indentation of a block scalar, unless what
/// stands around the scalar asks for more. A line of more spaces in front of it is an
/// error.
pub proof fn law_indentation_is_found(
    pre: Seq<u8>,
    m: nat,
    k: nat,
    x: u8,
    rest: Seq<u8>,
    c: Cur,
    least: nat,
)
    requires
        c.offset == pre.len(),
        k > 0,
        x != 0x20,
        x != 0x0a,
        x != 0x0d,
    ensures
        ({
            let b = pre + times(0x20, m) + seq![0x0a] + times(0x20, k) + seq![x] + rest;
            let r = auto_indent(b, c, least);
            if m > k {
                r is Err
            } else {
                r == Ok::<nat, crate::error::ErrorView>(
                    if k > least {
                        k
                    } else {
                        least
                    },
                )
            }
        }),
        ({
            let b = pre + times(0x20, k) + seq![x] + rest;
            auto_indent(b, c, least) == Ok::<nat, crate::error::ErrorView>(
                if k > least {
                    k
                } else {
                    least
                },
            )
        }),
{
    let f = pre.len() as int;
    let b = pre + times(0x20, m) + seq![0x0a] + times(0x20, k) + seq![x] + rest;
    assert forall|i: int| f <= i < f + m implies #[trigger] b[i] == 0x20 by {}
    assert forall|i: int| f + m + 1 <= i < f + m + 1 + k implies #[trigger] b[i] == 0x20 by {}
    assert(b[f + m] == 0x0a);
    assert(b[f + m + 1 + k] == x);
    lemma_probe_spaces(b, f, m, 0, 0);
    assert(probe(b, f + m, m, 0) == probe(b, f + m + 1, 0, m));
    lemma_probe_spaces(b, f + m + 1, k, 0, m);
    assert(probe(b, f + m + 1 + k, k, m) == (f + m + 1 + k, k, m));
    let d = pre + times(0x20, k) + seq![x] + rest;
    assert forall|i: int| f <= i < f + k implies #[trigger] d[i] == 0x20 by {}
    assert(d[f + k] == x);
    lemma_probe_spaces(d, f, k, 0, 0);
    assert(probe(d, f + k, k, 0) == (f + k, k, 0nat));
}

/// The header of a block scalar holds a digit for the indentation and a sign for the last
/// line breaks, in either order; `-` strips, `+` keeps, and without a sign one line break
/// is left.
pub proof fn law_header_indicators(pre: Seq<u8>, digit: u8, sign: u8, rest: Seq<u8>, c: Cur)
    requires
        c.offset == pre.len(),
        0x31 <= digit <= 0x39,
        sign == 0x2b || sign == 0x2d,
    ensures
        ({
            let chomp: int = if sign == 0x2b {
                1
            } else {
                -1
            };
            let h = header(pre + seq![digit, sign, 0x0a] + rest, c);
            let i = header(pre + seq![sign, digit, 0x0a] + rest, c);
            &&& h.chomp == chomp && h.explicit == Some((digit - 0x30) as nat) && h.cur.offset
                == c.offset + 2
            &&& i.chomp == chomp && i.explicit == Some((digit - 0x30) as nat) && i.cur.offset
                == c.offset + 2
        }),
        ({
            let h = header(pre + seq![digit, 0x0a] + rest, c);
            h.chomp == 0 && h.explicit == Some((digit - 0x30) as nat) && h.cur.offset == c.offset
                + 1
        }),
        ({
            let h = header(pre + seq![0x0a] + rest, c);
            h.chomp == 0 && h.explicit is None && h.cur.offset == c.offset
        }),
{
    let f = pre.len() as int;
    let a = pre + seq![digit, sign, 0x0a] + rest;
    assert(a[f] == digit && a[f + 1] == sign);
    let b = pre + seq![sign, digit, 0x0a] + rest;
    assert(b[f] == sign && b[f + 1] == digit);
    let d = pre + seq![digit, 0x0a] + rest;
    assert(d[f] == digit && d[f + 1] == 0x0a);
    let e = pre + seq![0x0a] + rest;
    assert(e[f] == 0x0a);
}

proof fn lemma_over(b: Seq<u8>, lo: int, hi: int, u: Until)
    requires
        0 <= lo <= hi < b.len(),
        forall|i: int| lo <= i < hi ==> !stops(u, #[trigger] b[i]),
        stops(u, b[hi]),
    ensures
        run_end(b, lo, u) == hi,
    decreases hi - lo,
{
    lemma_run(b, lo, u);
    if lo < hi {
        assert(!stops(u, b[lo]));
        lemma_over(b, lo + 1, hi, u);
    }
}

/// Spaces and a comment may follow the header; the content starts on the next line.
pub proof fn law_header_takes_a_comment(
    pre: Seq<u8>,
    said: Seq<u8>,
    rest: Seq<u8>,
    c: Cur,
)
    requires
        c.offset == pre.len(),
        one_line(said),
    ensures
        after_header(pre + seq![0x20, 0x23] + said + seq![0x0a] + rest, c).offset == c.offset + 3
            + said.len(),
        after_header(pre + seq![0x0a] + rest, c).offset == c.offset + 1,
{
    let f = pre.len() as int;
    let b = pre + seq![0x20, 0x23] + said + seq![0x0a] + rest;
    let g = f + 2 + said.len();
    assert(b[f] == 0x20 && b[f + 1] == 0x23 && b[g] == 0x0a);
    assert forall|i: int| f + 2 <= i < g implies #[trigger] b[i] == said[i - f - 2] by {}
    lemma_over(b, f, f + 1, Until::NotWhitespace);
    lemma_over(b, f + 1, g, Until::Break);
    let d = pre + seq![0x0a] + rest;
    assert(d[f] == 0x0a);
    lemma_over(d, f, f, Until::NotWhitespace);
}

} // verus!
