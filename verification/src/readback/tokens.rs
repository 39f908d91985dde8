//! The tokens of a node, and that they are what a scanner finds in its text.
use crate::emitter::scalar::blanks;
use crate::node::NodeView;
use crate::readback::scan::{
    at, kinds_of, legible, lemma_close, lemma_comma, lemma_fetch, lemma_flow_colon, lemma_gap,
    lemma_open, lemma_scalar, lemma_seated, lemma_stands, lemma_stands_char, scalar_text, seated,
    stands, starts_token, word_stop,
};
use crate::readback::shape::{
    comma, flow_entries, flow_items, in_line, inline_text, lemma_readable_inline, readable,
};
use crate::scanner::model::{Fail, Scan};
use crate::scanner::token::TokenKindView;
use crate::types::ScalarStyle;
use vstd::prelude::*;

verus! {

/// The tokens of a node.
pub open spec fn tokens_of(n: NodeView) -> Seq<TokenKindView>
    decreases n,
{
    match n {
        NodeView::Scalar { value, style, .. } => seq![TokenKindView::Scalar { value, style }],
        NodeView::Sequence { items, .. } => if in_line(n) {
            seq![TokenKindView::FlowSequenceStart] + flow_item_tokens(items, items.len()) + seq![
                TokenKindView::FlowSequenceEnd,
            ]
        } else {
            seq![TokenKindView::BlockSequenceStart] + block_item_tokens(items, items.len()) + seq![
                TokenKindView::BlockEnd,
            ]
        },
        NodeView::Mapping { entries, .. } => if in_line(n) {
            seq![TokenKindView::FlowMappingStart] + flow_entry_tokens(entries, entries.len())
                + seq![TokenKindView::FlowMappingEnd]
        } else {
            seq![TokenKindView::BlockMappingStart] + block_entry_tokens(entries, entries.len())
                + seq![TokenKindView::BlockEnd]
        },
    }
}

/// The token between two entries of a flow collection.
pub open spec fn comma_token(k: nat) -> Seq<TokenKindView> {
    if k > 1 {
        seq![TokenKindView::FlowEntry]
    } else {
        seq![]
    }
}

/// The tokens of a key and its value.
pub open spec fn pair_tokens(entry: (NodeView, NodeView)) -> Seq<TokenKindView>
    decreases entry,
{
    seq![TokenKindView::Key] + tokens_of(entry.0) + seq![TokenKindView::Value] + tokens_of(entry.1)
}

/// The tokens of the first `k` items of a flow sequence.
pub open spec fn flow_item_tokens(items: Seq<NodeView>, k: nat) -> Seq<TokenKindView>
    decreases items, k,
{
    if 0 < k <= items.len() {
        flow_item_tokens(items, (k - 1) as nat) + (comma_token(k) + tokens_of(items[k - 1]))
    } else {
        seq![]
    }
}

/// The tokens of the first `k` entries of a flow mapping.
pub open spec fn flow_entry_tokens(entries: Seq<(NodeView, NodeView)>, k: nat) -> Seq<TokenKindView>
    decreases entries, k,
{
    if 0 < k <= entries.len() {
        flow_entry_tokens(entries, (k - 1) as nat) + (comma_token(k) + pair_tokens(entries[k - 1]))
    } else {
        seq![]
    }
}

/// The tokens of the first `k` items of a block sequence.
pub open spec fn block_item_tokens(items: Seq<NodeView>, k: nat) -> Seq<TokenKindView>
    decreases items, k,
{
    if 0 < k <= items.len() {
        block_item_tokens(items, (k - 1) as nat) + (seq![TokenKindView::BlockEntry] + tokens_of(
            items[k - 1],
        ))
    } else {
        seq![]
    }
}

/// The tokens of the first `k` entries of a block mapping.
pub open spec fn block_entry_tokens(entries: Seq<(NodeView, NodeView)>, k: nat) -> Seq<
    TokenKindView,
>
    decreases entries, k,
{
    if 0 < k <= entries.len() {
        block_entry_tokens(entries, (k - 1) as nat) + pair_tokens(entries[k - 1])
    } else {
        seq![]
    }
}

/// The state after so many pieces of input are scanned; nothing where one fails or none
/// is left.
pub open spec fn fetched(s: Scan, k: nat) -> Option<Scan>
    decreases k,
{
    if k == 0 {
        Some(s)
    } else {
        match s.fetch() {
            Ok((t, true)) => fetched(t, (k - 1) as nat),
            _ => None,
        }
    }
}

/// Scanning on.
pub proof fn lemma_fetched(s: Scan, j: nat, t: Scan, k: nat)
    requires
        fetched(s, j) == Some(t),
    ensures
        fetched(s, j + k) == fetched(t, k),
    decreases j,
{
    if j > 0 {
        if let Ok((u, true)) = s.fetch() {
            lemma_fetched(u, (j - 1) as nat, t, k);
        }
    }
}

/// Scanning one more piece.
pub proof fn lemma_fetched_one(s: Scan, j: nat, t: Scan, u: Scan)
    requires
        fetched(s, j) == Some(t),
        t.fetch() == Ok::<(Scan, bool), Fail>((u, true)),
    ensures
        fetched(s, j + 1) == Some(u),
{
    lemma_fetched(s, j, t, 1);
    assert(fetched(u, 0) == Some(u));
    reveal_with_fuel(fetched, 2);
}

/// So many spaces.
pub open spec fn spaced(all: Seq<char>, k: int, j: nat) -> bool {
    &&& 0 <= k
    &&& k + j <= all.len()
    &&& forall|i: int| k <= i < k + j ==> #[trigger] all[i] == ' '
}

/// Where spaces stand.
pub proof fn lemma_spaced(all: Seq<char>, k: int, j: nat)
    requires
        stands(all, k, blanks(j)),
    ensures
        spaced(all, k, j),
{
    assert forall|i: int| k <= i < k + j implies #[trigger] all[i] == ' ' by {
        lemma_stands_char(all, k, blanks(j), i - k);
    }
}

// ─── In flow collections ────────────────────────────────────────────

/// From one state in a flow collection to another, with some tokens more.
pub open spec fn flowed(s: Scan, t: Scan, more: Seq<TokenKindView>) -> bool {
    &&& t.flows == s.flows
    &&& t.indent == s.indent
    &&& t.indents == s.indents
    &&& t.doc_line == s.doc_line
    &&& t.cur.line == s.cur.line
    &&& kinds_of(t.tokens) == kinds_of(s.tokens) + more
}

proof fn lemma_flow_seat(s: Scan, all: Seq<char>, k: int, j: nat) -> (g: Scan)
    requires
        at(s, all, k),
        s.flows.len() > 0,
        spaced(all, k, j),
        k + j < all.len(),
        starts_token(all[k + j]),
    ensures
        s.fetch() == match seated(g).dispatch() {
            Ok(u) => Ok::<(Scan, bool), Fail>((u, true)),
            Err(f) => Err(f),
        },
        at(seated(g), all, k + j),
        seated(g).flows == s.flows,
        seated(g).tokens == s.tokens,
        seated(g).indent == s.indent,
        seated(g).indents == s.indents,
        seated(g).doc_line == s.doc_line,
        seated(g).cur.line == s.cur.line,
        seated(g).allow == s.allow,
        seated(g).keys.len() == s.keys.len(),
        !s.flows.last() ==> seated(g).keys.last() == s.keys.last(),
{
    lemma_gap(s, all, k, j);
    let g = Scan { cur: s.cur.to(s.cur.offset + j), after_indicator: false, ..s };
    lemma_fetch(s, g, all, k + j);
    lemma_seated(g, all, k + j);
    g
}

proof fn lemma_flow_scalar(s: Scan, all: Seq<char>, k: int, j: nat, v: Seq<char>, style: ScalarStyle) -> (t:
    Scan)
    requires
        at(s, all, k),
        s.flows.len() > 0,
        spaced(all, k, j),
        legible(v, style),
        stands(all, k + j, scalar_text(v, style)),
        word_stop(all, k + j + scalar_text(v, style).len(), true),
    ensures
        s.fetch() == Ok::<(Scan, bool), Fail>((t, true)),
        at(t, all, k + j + scalar_text(v, style).len()),
        flowed(s, t, seq![TokenKindView::Scalar { value: v, style }]),
        s.allow ==> t.keys.last().possible && t.keys.last().index == s.tokens.len(),
{
    lemma_stands_char(all, k + j, scalar_text(v, style), 0);
    let g = lemma_flow_seat(s, all, k, j);
    let p = seated(g);
    let t = lemma_scalar(p, all, k + j, v, style);
    assert(kinds_of(t.tokens) =~= kinds_of(s.tokens) + seq![TokenKindView::Scalar { value: v, style }]);
    t
}

/// A node in a flow collection.
proof fn lemma_flow_node(s: Scan, all: Seq<char>, k: int, j: nat, n: NodeView) -> (r: (nat, Scan))
    requires
        at(s, all, k),
        s.flows.len() > 0,
        spaced(all, k, j),
        readable(n, true),
        stands(all, k + j, inline_text(n)),
        word_stop(all, k + j + inline_text(n).len(), true),
    ensures
        fetched(s, r.0) == Some(r.1),
        at(r.1, all, k + j + inline_text(n).len()),
        flowed(s, r.1, tokens_of(n)),
    decreases n, 1nat, 0nat,
{
    lemma_readable_inline(n);
    match n {
        NodeView::Scalar { value, style, .. } => {
            let t = lemma_flow_scalar(s, all, k, j, value, style);
            assert(fetched(s, 0) == Some(s));
            lemma_fetched_one(s, 0, s, t);
            (1nat, t)
        },
        _ => {
            lemma_bracket(all, k + j, n);
            let g = lemma_flow_seat(s, all, k, j);
            let (steps, t) = lemma_flow_collection(seated(g), all, k + j, n);
            lemma_first_step(s, seated(g), steps, t);
            assert(flowed(s, t, tokens_of(n)));
            (steps, t)
        },
    }
}

/// A collection in its line starts with a bracket.
pub proof fn lemma_bracket(all: Seq<char>, k: int, n: NodeView)
    requires
        !(n is Scalar),
        stands(all, k, inline_text(n)),
    ensures
        k < all.len(),
        all[k] == if n is Sequence {
            '['
        } else {
            '{'
        },
{
    lemma_stands_char(all, k, inline_text(n), 0);
}

/// What is reached from a seated state is reached from before the gap.
pub proof fn lemma_first_step(s: Scan, p: Scan, steps: nat, t: Scan)
    requires
        s.fetch() == match p.dispatch() {
            Ok(u) => Ok::<(Scan, bool), Fail>((u, true)),
            Err(f) => Err(f),
        },
        steps > 0,
        p.dispatch() matches Ok(u) && fetched(u, (steps - 1) as nat) == Some(t),
    ensures
        fetched(s, steps) == Some(t),
{
}

/// A collection in its line, from its seated state on.
pub proof fn lemma_flow_collection(p: Scan, all: Seq<char>, k: int, n: NodeView) -> (r: (nat, Scan))
    requires
        at(p, all, k),
        !(n is Scalar),
        in_line(n),
        readable(n, false),
        stands(all, k, inline_text(n)),
    ensures
        r.0 > 0,
        p.dispatch() matches Ok(u) && fetched(u, (r.0 - 1) as nat) == Some(r.1),
        at(r.1, all, k + inline_text(n).len()),
        flowed(p, r.1, tokens_of(n)),
        !r.1.allow,
    decreases n, 0nat, 1nat, 0nat,
{
    let is_sequence = n is Sequence;
    lemma_bracket(all, k, n);
    let u = lemma_open(p, all, k, is_sequence);
    let open = if is_sequence {
        '['
    } else {
        '{'
    };
    let close = if is_sequence {
        ']'
    } else {
        '}'
    };
    let inside = if is_sequence {
        flow_items(n->items, n->items.len())
    } else {
        flow_entries(n->entries, n->entries.len())
    };
    assert(inline_text(n) =~= seq![open] + (inside + seq![close]));
    lemma_stands(all, k, seq![open], inside + seq![close]);
    lemma_stands(all, k + 1, inside, seq![close]);
    lemma_stands_char(all, k + 1 + inside.len(), seq![close], 0);
    let (steps, t) = if is_sequence {
        lemma_flow_items(u, all, k + 1, n, n->items.len())
    } else {
        lemma_flow_entries(u, all, k + 1, n, n->entries.len())
    };
    let e = k + 1 + inside.len();
    assert(spaced(all, e, 0));
    let g = lemma_flow_seat(t, all, e, 0);
    let v = lemma_close(seated(g), all, e, is_sequence);
    lemma_fetched_one(u, steps, t, v);
    assert(v.flows =~= p.flows);
    assert(kinds_of(v.tokens) =~= kinds_of(p.tokens) + tokens_of(n));
    (steps + 2, v)
}

/// The first `m` items of a flow sequence.
proof fn lemma_flow_items(s: Scan, all: Seq<char>, k: int, n: NodeView, m: nat) -> (r: (nat, Scan))
    requires
        at(s, all, k),
        s.flows.len() > 0,
        n is Sequence,
        in_line(n),
        readable(n, false),
        m <= n->items.len(),
        stands(all, k, flow_items(n->items, m)),
        m > 0 ==> word_stop(all, k + flow_items(n->items, m).len(), true),
    ensures
        fetched(s, r.0) == Some(r.1),
        at(r.1, all, k + flow_items(n->items, m).len()),
        flowed(s, r.1, flow_item_tokens(n->items, m)),
    decreases n, 0nat, 0nat, m,
{
    let items = n->items;
    if m == 0 {
        assert(kinds_of(s.tokens) + flow_item_tokens(items, 0) =~= kinds_of(s.tokens));
        (0nat, s)
    } else {
        let item = items[m - 1];
        assert(readable(item, true));
        let before = flow_items(items, (m - 1) as nat);
        lemma_stands(all, k, before, comma(m) + inline_text(item));
        let at1 = k + before.len();
        lemma_stands(all, at1, comma(m), inline_text(item));
        if m > 1 {
            lemma_stands_char(all, at1, comma(m), 0);
            lemma_stands_char(all, at1, comma(m), 1);
        }
        let (steps, t) = lemma_flow_items(s, all, k, n, (m - 1) as nat);
        let (steps1, t1, j) = lemma_flow_comma(t, all, at1, m);
        let (steps2, t2) = lemma_flow_node(t1, all, at1 + comma(m).len() - j, j, item);
        lemma_fetched(s, steps, t, steps1);
        lemma_fetched(s, steps + steps1, t1, steps2);
        assert(kinds_of(t2.tokens) =~= kinds_of(s.tokens) + flow_item_tokens(items, m));
        (steps + steps1 + steps2, t2)
    }
}

/// What stands between two entries of a flow collection.
proof fn lemma_flow_comma(s: Scan, all: Seq<char>, k: int, m: nat) -> (r: (nat, Scan, nat))
    requires
        at(s, all, k),
        s.flows.len() > 0,
        m > 0,
        m > 1 ==> k + 1 < all.len() && all[k] == ',' && all[k + 1] == ' ',
    ensures
        fetched(s, r.0) == Some(r.1),
        r.2 <= comma(m).len(),
        at(r.1, all, k + comma(m).len() - r.2),
        spaced(all, k + comma(m).len() - r.2, r.2),
        flowed(s, r.1, comma_token(m)),
        m > 1 || s.allow ==> r.1.allow,
{
    if m > 1 {
        assert(spaced(all, k, 0));
        let g = lemma_flow_seat(s, all, k, 0);
        let t = lemma_comma(seated(g), all, k);
        assert(fetched(s, 0) == Some(s));
        lemma_fetched_one(s, 0, s, t);
        assert(kinds_of(t.tokens) =~= kinds_of(s.tokens) + comma_token(m));
        (1nat, t, 1nat)
    } else {
        assert(kinds_of(s.tokens) =~= kinds_of(s.tokens) + comma_token(m));
        (0nat, s, 0nat)
    }
}

/// The first `m` entries of a flow mapping.
proof fn lemma_flow_entries(s: Scan, all: Seq<char>, k: int, n: NodeView, m: nat) -> (r: (nat, Scan))
    requires
        at(s, all, k),
        s.flows.len() > 0,
        !s.flows.last(),
        s.allow,
        n is Mapping,
        in_line(n),
        readable(n, false),
        m <= n->entries.len(),
        stands(all, k, flow_entries(n->entries, m)),
        m > 0 ==> word_stop(all, k + flow_entries(n->entries, m).len(), true),
    ensures
        fetched(s, r.0) == Some(r.1),
        at(r.1, all, k + flow_entries(n->entries, m).len()),
        flowed(s, r.1, flow_entry_tokens(n->entries, m)),
        m == 0 ==> r.1 == s,
    decreases n, 0nat, 0nat, m,
{
    let entries = n->entries;
    if m == 0 {
        assert(kinds_of(s.tokens) + flow_entry_tokens(entries, 0) =~= kinds_of(s.tokens));
        (0nat, s)
    } else {
        let entry = entries[m - 1];
        assert(entry.0 is Scalar && readable(entry.0, true) && readable(entry.1, true));
        let before = flow_entries(entries, (m - 1) as nat);
        let key = inline_text(entry.0);
        let value = inline_text(entry.1);
        let c = comma(m);
        assert(c + key + seq![':', ' '] + value =~= c + (key + (seq![':', ' '] + value)));
        lemma_stands(all, k, before, c + (key + (seq![':', ' '] + value)));
        let at1 = k + before.len();
        lemma_stands(all, at1, c, key + (seq![':', ' '] + value));
        lemma_stands(all, at1 + c.len(), key, seq![':', ' '] + value);
        let at2 = at1 + c.len() + key.len();
        lemma_stands(all, at2, seq![':', ' '], value);
        lemma_stands_char(all, at2, seq![':', ' '], 0);
        lemma_stands_char(all, at2, seq![':', ' '], 1);
        if m > 1 {
            lemma_stands_char(all, at1, c, 0);
            lemma_stands_char(all, at1, c, 1);
        }
        let (steps, t) = lemma_flow_entries(s, all, k, n, (m - 1) as nat);
        let (steps1, t1, j) = lemma_flow_comma(t, all, at1, m);
        assert(t1.allow);
        let (steps2, t2) = lemma_flow_key(t1, all, at1 + c.len() - j, j, entry.0);
        let (steps3, t3) = lemma_flow_node(t2, all, at2 + 1, 1, entry.1);
        lemma_fetched(s, steps, t, steps1);
        lemma_fetched(s, steps + steps1, t1, steps2);
        lemma_fetched(s, steps + steps1 + steps2, t2, steps3);
        let pair = seq![TokenKindView::Key] + tokens_of(entry.0) + seq![TokenKindView::Value]
            + tokens_of(entry.1);
        assert(pair_tokens(entry) == pair);
        let done = flow_entry_tokens(entries, (m - 1) as nat);
        assert(flow_entry_tokens(entries, m) == done + (comma_token(m) + pair));
        assert(kinds_of(t3.tokens) =~= kinds_of(s.tokens) + (done + (comma_token(m) + pair)));
        (steps + steps1 + steps2 + steps3, t3)
    }
}

/// A key of a flow mapping with its colon.
proof fn lemma_flow_key(s: Scan, all: Seq<char>, k: int, j: nat, n: NodeView) -> (r: (nat, Scan))
    requires
        at(s, all, k),
        s.flows.len() > 0,
        !s.flows.last(),
        s.allow,
        spaced(all, k, j),
        n is Scalar,
        readable(n, true),
        stands(all, k + j, inline_text(n)),
        k + j + inline_text(n).len() + 1 < all.len(),
        all[k + j + inline_text(n).len()] == ':',
        all[k + j + inline_text(n).len() + 1] == ' ',
    ensures
        fetched(s, r.0) == Some(r.1),
        at(r.1, all, k + j + inline_text(n).len() + 1),
        flowed(
            s,
            r.1,
            seq![TokenKindView::Key] + tokens_of(n) + seq![TokenKindView::Value],
        ),
{
    let value = n->value;
    let style = n->Scalar_style;
    let t = lemma_flow_scalar(s, all, k, j, value, style);
    let e = k + j + inline_text(n).len();
    assert(spaced(all, e, 0));
    assert(kinds_of(t.tokens).len() == kinds_of(s.tokens).len() + 1);
    let g = lemma_flow_seat(t, all, e, 0);
    let u = lemma_flow_colon(seated(g), all, e, s.tokens.len() as int);
    assert(fetched(s, 0) == Some(s));
    lemma_fetched_one(s, 0, s, t);
    lemma_fetched_one(s, 1, t, u);
    assert(kinds_of(u.tokens) =~= kinds_of(s.tokens) + (seq![TokenKindView::Key] + tokens_of(n)
        + seq![TokenKindView::Value]));
    (2nat, u)
}

} // verus!
