//! The tokens of block collections, and those of a whole document.
use crate::emitter::scalar::blanks;
use crate::node::NodeView;
use crate::readback::literal::{feeds, lemma_literal, lines_text, literal_text};
use crate::readback::scan::{
    at, deep, ends, kinds_of, lemma_colon, lemma_dash, lemma_end, lemma_end_marker, lemma_fetch,
    lemma_gap, lemma_gap_line, lemma_marker_bytes, lemma_off, lemma_off_end, lemma_plain_line,
    lemma_scalar, lemma_seated, lemma_stands, lemma_stands_char, lemma_start_marker, lemma_unroll,
    seated, stands, starts_token, token_at,
};
use crate::readback::shape::{
    block_entries, block_items, block_text, in_line, inline_text, item_text, margin, readable,
    root_text, tall, value_text,
};
use crate::readback::tokens::{
    block_entry_tokens, block_item_tokens, fetched, lemma_fetched,
    lemma_fetched_one, lemma_first_step, lemma_flow_collection, lemma_spaced, pair_tokens, spaced,
    tokens_of,
};
use crate::scanner::cursor::MAX_INPUT;
use crate::scanner::model::{Fail, Scan};
use crate::scanner::token::TokenKindView;
use vstd::prelude::*;
use vstd::utf8::*;

verus! {

/// The scanner stands in block context, with `d` block collections open.
pub open spec fn set(s: Scan, all: Seq<char>, k: int, d: nat) -> bool {
    at(s, all, k) && s.in_block() && deep(s, d) && s.doc_line < s.cur.line
}

/// Behind a gap the collections further in are closed.
proof fn lemma_block_seat(g: Scan, all: Seq<char>, k: int, d: nat, e: nat)
    requires
        set(g, all, k, d),
        e <= d,
        e > 0 ==> 2 * e - 2 <= g.cur.column,
        e < d ==> g.cur.column < 2 * e,
    ensures
        set(seated(g), all, k, e),
        seated(g).cur == g.cur,
        seated(g).allow == g.allow,
        seated(g).keys == g.stale_keys().keys,
        kinds_of(seated(g).tokens) == kinds_of(g.tokens) + ends((d - e) as nat),
{
    lemma_seated(g, all, k);
    lemma_unroll(g.stale_keys(), d, e, g.cur.column);
}

/// The line behind the line break at `e` starts with `m` spaces and a token, or the text
/// ends there.
pub open spec fn line_follows(all: Seq<char>, e: int, m: nat) -> bool {
    &&& 0 <= e < all.len()
    &&& all[e] == '\n'
    &&& spaced(all, e + 1, m)
    &&& token_at(all, e + 1 + m)
}

/// The scanner stands in front of the line break at `e`, or behind it and the spaces of
/// the next line.
pub open spec fn rested(t: Scan, all: Seq<char>, e: int, d: nat, m: nat) -> bool {
    ||| set(t, all, e, d)
    ||| set(t, all, e + 1 + m, d) && t.cur.column == m && t.allow
}

/// The text goes on so that a plain scalar ends at the line break at `e`: the next line does
/// not stand further in than what is open, nothing follows, or the document ends.
pub open spec fn line_ends(all: Seq<char>, e: int, m: nat, d: nat) -> bool {
    ||| d > 0 && m <= 2 * d - 2
    ||| e + 1 + m == all.len()
    ||| m == 0 && stands(all, e + 1, seq!['.', '.', '.', '\n'])
}

/// A node in its line, in block context, from the gap in front of it on.
proof fn lemma_line_node(s: Scan, g: Scan, all: Seq<char>, k: int, n: NodeView, d: nat, m: nat) -> (r: (
    nat,
    Scan,
))
    requires
        s.started,
        s.skip_gap(false) == Ok::<Scan, Fail>(g),
        set(g, all, k, d),
        in_line(n),
        !tall(n),
        readable(n, false),
        stands(all, k, inline_text(n)),
        line_follows(all, k + inline_text(n).len(), m),
        line_ends(all, k + inline_text(n).len(), m, d),
        d > 0 ==> 2 * d - 2 <= g.cur.column,
    ensures
        fetched(s, r.0) == Some(r.1),
        rested(r.1, all, k + inline_text(n).len(), d, m),
        kinds_of(r.1.tokens) == kinds_of(g.tokens) + tokens_of(n),
{
    lemma_stands_char(all, k, inline_text(n), 0);
    lemma_fetch(s, g, all, k);
    lemma_block_seat(g, all, k, d, d);
    let p = seated(g);
    assert(kinds_of(g.tokens) + ends(0) =~= kinds_of(g.tokens));
    match n {
        NodeView::Scalar { value, style, .. } => {
            let t = if style is Plain {
                let e = k + inline_text(n).len();
                if m == 0 && stands(all, e + 1, seq!['.', '.', '.', '\n']) {
                    lemma_marker_bytes(all, e + 1, '.');
                }
                lemma_plain_line(p, all, k, value, m)
            } else {
                lemma_scalar(p, all, k, value, style)
            };
            assert(fetched(s, 0) == Some(s));
            lemma_fetched_one(s, 0, s, t);
            assert(kinds_of(t.tokens) =~= kinds_of(g.tokens) + tokens_of(n));
            (1nat, t)
        },
        _ => {
            let (steps, t) = lemma_flow_collection(p, all, k, n);
            lemma_first_step(s, p, steps, t);
            (steps, t)
        },
    }
}

/// A literal scalar in block context, from the gap in front of it on.
proof fn lemma_tall_node(
    s: Scan,
    g: Scan,
    all: Seq<char>,
    k: int,
    n: NodeView,
    width: nat,
    z: nat,
    d: nat,
    m: nat,
) -> (t: Scan)
    requires
        s.started,
        s.skip_gap(false) == Ok::<Scan, Fail>(g),
        set(g, all, k, d),
        tall(n),
        readable(n, false),
        0 < z,
        stands(all, k, literal_text(n->Scalar_value, width, z)),
        line_follows(all, k + literal_text(n->Scalar_value, width, z).len() - 1, m),
        m < width,
        d > 0 ==> 2 * d - 2 <= g.cur.column && 2 * d - 2 < width,
    ensures
        fetched(s, 1) == Some(t),
        rested(t, all, k + literal_text(n->Scalar_value, width, z).len() - 1, d, m),
        t.started,
        kinds_of(t.tokens) == kinds_of(g.tokens) + tokens_of(n),
{
    let v = n->Scalar_value;
    lemma_stands_char(all, k, literal_text(v, width, z), 0);
    lemma_fetch(s, g, all, k);
    lemma_block_seat(g, all, k, d, d);
    let p = seated(g);
    assert(kinds_of(g.tokens) + ends(0) =~= kinds_of(g.tokens));
    let t = lemma_literal(p, all, k, v, width, z, m);
    assert(fetched(s, 0) == Some(s));
    lemma_fetched_one(s, 0, s, t);
    assert(kinds_of(t.tokens) =~= kinds_of(g.tokens) + tokens_of(n));
    t
}

/// A new line in block context, up to a token on it.
proof fn lemma_new_line(s: Scan, all: Seq<char>, k: int, n: nat, d: nat) -> (g: Scan)
    requires
        rested(s, all, k, d, n),
        line_follows(all, k, n),
    ensures
        s.skip_gap(false) == Ok::<Scan, Fail>(g),
        set(g, all, k + 1 + n, d),
        g.allow,
        g.cur.column == n,
        g.tokens == s.tokens,
{
    if set(s, all, k, d) {
        lemma_gap_line(s, all, k, n);
    } else {
        lemma_gap(s, all, k + 1 + n, 0);
    }
    s.skip_gap(false)->Ok_0
}

/// What a node behind a `- ` or a `:` leaves: the scanner at the line break that ends it,
/// and perhaps collections that are still open.
spec fn left(
    s: Scan,
    t: Scan,
    all: Seq<char>,
    k: int,
    level: nat,
    d: nat,
    m: nat,
    more: Seq<TokenKindView>,
) -> bool {
    &&& rested(t, all, k, d, m)
    &&& t.started
    &&& level <= d
    &&& kinds_of(t.tokens) + ends((d - level) as nat) == kinds_of(s.tokens) + more
}

/// An item of a block sequence, from the gap in front of its dash on.
proof fn lemma_item(
    s: Scan,
    g: Scan,
    all: Seq<char>,
    k: int,
    item: NodeView,
    level: nat,
    d: nat,
    m: nat,
) -> (r: (nat, Scan, nat))
    requires
        s.started,
        s.skip_gap(false) == Ok::<Scan, Fail>(g),
        set(g, all, k, d),
        g.allow,
        g.cur.column == 2 * level,
        level <= d,
        readable(item, false),
        stands(all, k, seq!['-', ' '] + item_text(item, level)),
        line_follows(all, k + 1 + item_text(item, level).len(), m),
        m <= 2 * level,
    ensures
        fetched(s, r.0) == Some(r.1),
        left(
            g,
            r.1,
            all,
            k + 1 + item_text(item, level).len(),
            level + 1,
            r.2,
            m,
            (if d == level {
                seq![TokenKindView::BlockSequenceStart]
            } else {
                ends((d - level - 1) as nat)
            }) + (seq![TokenKindView::BlockEntry] + tokens_of(item)),
        ),
    decreases item, 2nat, 0nat,
{
    let dash = seq!['-', ' '];
    lemma_stands(all, k, dash, item_text(item, level));
    lemma_stands_char(all, k, dash, 0);
    lemma_stands_char(all, k, dash, 1);
    lemma_fetch(s, g, all, k);
    let e: nat = if d == level {
        level
    } else {
        level + 1
    };
    lemma_block_seat(g, all, k, d, e);
    let p = seated(g);
    let t = lemma_dash(p, all, k, e);
    assert(fetched(s, 0) == Some(s));
    lemma_fetched_one(s, 0, s, t);
    let head = (if d == level {
        seq![TokenKindView::BlockSequenceStart]
    } else {
        ends((d - level - 1) as nat)
    }).push(TokenKindView::BlockEntry);
    assert(kinds_of(t.tokens) =~= kinds_of(g.tokens) + head);
    assert(spaced(all, k + 1, 1));
    let text = item_text(item, level);
    if tall(item) {
        let width = 2 * level + 2;
        lemma_stands_char(all, k + 2, text, 0);
        lemma_gap(t, all, k + 1, 1);
        let h = t.skip_gap(false)->Ok_0;
        let u = lemma_tall_node(t, h, all, k + 2, item, width, 2, level + 1, m);
        lemma_fetched(s, 1, t, 1);
        assert(kinds_of(u.tokens) + ends(0) =~= kinds_of(g.tokens) + (head.drop_last() + (seq![
            TokenKindView::BlockEntry,
        ] + tokens_of(item))));
        assert(head.drop_last() =~= if d == level {
            seq![TokenKindView::BlockSequenceStart]
        } else {
            ends((d - level - 1) as nat)
        });
        (2nat, u, level + 1)
    } else if in_line(item) {
        lemma_stands(all, k + 2, inline_text(item), seq!['\n']);
        lemma_stands_char(all, k + 2 + inline_text(item).len(), seq!['\n'], 0);
        lemma_stands_char(all, k + 2, inline_text(item), 0);
        lemma_gap(t, all, k + 1, 1);
        let h = t.skip_gap(false)->Ok_0;
        let (steps, u) = lemma_line_node(t, h, all, k + 2, item, level + 1, m);
        lemma_fetched(s, 1, t, steps);
        assert(kinds_of(u.tokens) + ends(0) =~= kinds_of(g.tokens) + (head.drop_last() + (seq![
            TokenKindView::BlockEntry,
        ] + tokens_of(item))));
        assert(head.drop_last() =~= if d == level {
            seq![TokenKindView::BlockSequenceStart]
        } else {
            ends((d - level - 1) as nat)
        });
        (steps + 1, u, level + 1)
    } else {
        lemma_block_start(all, k + 2, item, level + 1);
        lemma_gap(t, all, k + 1, 1);
        let h = t.skip_gap(false)->Ok_0;
        let (steps, u, f) = lemma_block_node(t, h, all, k + 2, item, level + 1, m);
        lemma_fetched(s, 1, t, steps);
        assert(kinds_of(g.tokens) + head + tokens_of(item) =~= kinds_of(g.tokens) + (
        head.drop_last() + (seq![TokenKindView::BlockEntry] + tokens_of(item))));
        assert(head.drop_last() =~= if d == level {
            seq![TokenKindView::BlockSequenceStart]
        } else {
            ends((d - level - 1) as nat)
        });
        (steps + 1, u, f)
    }
}

/// A block collection starts with a dash or a quote.
proof fn lemma_block_start(all: Seq<char>, k: int, n: NodeView, level: nat)
    requires
        !in_line(n),
        readable(n, false),
        stands(all, k, block_text(n, level)),
    ensures
        0 <= k < all.len(),
        starts_token(all[k]),
        block_text(n, level).len() > 0,
{
    if n is Sequence {
        lemma_items_start(n->items, n->items.len(), level);
    } else {
        let entries = n->entries;
        assert(entries[0].0 is Scalar && !tall(entries[0].0) && readable(entries[0].0, false));
        lemma_entries_start(entries, entries.len(), level);
    }
    lemma_stands_char(all, k, block_text(n, level), 0);
}

proof fn lemma_items_start(items: Seq<NodeView>, m: nat, level: nat)
    requires
        0 < m <= items.len(),
    ensures
        block_items(items, m, level).len() > 0,
        block_items(items, m, level)[0] == '-',
    decreases m,
{
    if m > 1 {
        lemma_items_start(items, (m - 1) as nat, level);
    } else {
        assert(block_items(items, 0, level) =~= Seq::<char>::empty());
    }
}

proof fn lemma_entries_start(entries: Seq<(NodeView, NodeView)>, m: nat, level: nat)
    requires
        0 < m <= entries.len(),
        entries[0].0 is Scalar,
        !tall(entries[0].0),
        readable(entries[0].0, false),
    ensures
        block_entries(entries, m, level).len() > 0,
        starts_token(block_entries(entries, m, level)[0]),
    decreases m,
{
    if m > 1 {
        lemma_entries_start(entries, (m - 1) as nat, level);
    } else {
        assert(block_entries(entries, 0, level) =~= Seq::<char>::empty());
        let text = inline_text(entries[0].0);
        assert(text.len() > 0 && starts_token(text[0]));
    }
}

/// The text of a literal scalar ends with a line feed.
proof fn lemma_literal_end(v: Seq<char>, width: nat, z: nat)
    requires
        0 < z,
    ensures
        literal_text(v, width, z).len() > 1,
        literal_text(v, width, z).last() == '\n',
        literal_text(v, width, z)[0] == '|',
{
    let body = lines_text(v, 0, blanks(width)) + feeds(z);
    assert(feeds(z).last() == '\n');
    assert(body.last() == '\n');
    assert(literal_text(v, width, z).last() == body.last());
}

/// The text of a block collection ends with a line feed.
proof fn lemma_block_end(n: NodeView, level: nat)
    requires
        !in_line(n),
    ensures
        block_text(n, level).len() > 0,
        block_text(n, level).last() == '\n',
    decreases n, 1nat,
{
    if n is Sequence {
        lemma_items_end(n->items, n->items.len(), level);
    } else {
        lemma_entries_end(n->entries, n->entries.len(), level);
    }
}

proof fn lemma_items_end(items: Seq<NodeView>, m: nat, level: nat)
    requires
        0 < m <= items.len(),
    ensures
        block_items(items, m, level).len() > 0,
        block_items(items, m, level).last() == '\n',
    decreases items, 0nat,
{
    let item = items[m - 1];
    if tall(item) {
        lemma_literal_end(item->Scalar_value, 2 * level + 2, 2);
    } else if !in_line(item) {
        lemma_block_end(item, level + 1);
    }
    let text = item_text(item, level);
    assert(text.len() > 0 && text.last() == '\n');
    assert(block_items(items, m, level).last() == text.last());
}

proof fn lemma_entries_end(entries: Seq<(NodeView, NodeView)>, m: nat, level: nat)
    requires
        0 < m <= entries.len(),
    ensures
        block_entries(entries, m, level).len() > 0,
        block_entries(entries, m, level).last() == '\n',
    decreases entries, 0nat,
{
    let v = entries[m - 1].1;
    if tall(v) {
        lemma_literal_end(v->Scalar_value, 2 * level + 2, 2);
    } else if !in_line(v) {
        lemma_block_end(v, level + 1);
    }
    let text = value_text(v, level);
    assert(text.len() > 0 && text.last() == '\n');
    assert(block_entries(entries, m, level).last() == text.last());
}

/// The first `m` items of a block sequence.
proof fn lemma_items(
    s: Scan,
    g: Scan,
    all: Seq<char>,
    k: int,
    n: NodeView,
    level: nat,
    m: nat,
    w: nat,
) -> (r: (nat, Scan, nat))
    requires
        s.started,
        s.skip_gap(false) == Ok::<Scan, Fail>(g),
        set(g, all, k, level),
        g.allow,
        g.cur.column == 2 * level,
        n is Sequence,
        readable(n, false),
        n->Sequence_style is Block,
        0 < m <= n->items.len(),
        stands(all, k, block_items(n->items, m, level)),
        line_follows(all, k + block_items(n->items, m, level).len() - 1, w),
        w <= 2 * level,
    ensures
        fetched(s, r.0) == Some(r.1),
        left(
            g,
            r.1,
            all,
            k + block_items(n->items, m, level).len() - 1,
            level + 1,
            r.2,
            w,
            seq![TokenKindView::BlockSequenceStart] + block_item_tokens(n->items, m),
        ),
    decreases n, 0nat, m,
{
    let items = n->items;
    let item = items[m - 1];
    assert(readable(item, false));
    let before = block_items(items, (m - 1) as nat, level);
    let rest = seq!['-', ' '] + item_text(item, level);
    assert(margin(m, level) + seq!['-', ' '] + item_text(item, level) =~= margin(m, level) + rest);
    lemma_stands(all, k, before, margin(m, level) + rest);
    let k1 = k + before.len();
    lemma_stands(all, k1, margin(m, level), rest);
    let done = block_item_tokens(items, (m - 1) as nat);
    let more = seq![TokenKindView::BlockEntry] + tokens_of(item);
    assert(block_item_tokens(items, m) == done + more);
    if m == 1 {
        assert(before =~= Seq::<char>::empty());
        assert(done =~= Seq::<TokenKindView>::empty());
        assert(done + more =~= more);
        let (steps, t, d) = lemma_item(s, g, all, k, item, level, level, w);
        (steps, t, d)
    } else {
        lemma_spaced(all, k1, 2 * level);
        lemma_stands_char(all, k1 + 2 * level, rest, 0);
        lemma_items_end(n->items, (m - 1) as nat, level);
        lemma_stands_char(all, k, before, before.len() - 1);
        let (steps, t, d) = lemma_items(s, g, all, k, n, level, (m - 1) as nat, 2 * level);
        let h = lemma_new_line(t, all, k1 - 1, 2 * level, d);
        let (steps1, u, e) = lemma_item(t, h, all, k1 + 2 * level, item, level, d, w);
        lemma_fetched(s, steps, t, steps1);
        let start = seq![TokenKindView::BlockSequenceStart];
        assert(kinds_of(h.tokens) + (ends((d - level - 1) as nat) + more) =~= kinds_of(h.tokens)
            + ends((d - level - 1) as nat) + more);
        assert(kinds_of(g.tokens) + (start + done) + more =~= kinds_of(g.tokens) + (start + (done
            + more)));
        (steps + steps1, u, e)
    }
}

/// An entry of a block mapping, from the gap in front of its key on.
proof fn lemma_entry(
    s: Scan,
    g: Scan,
    all: Seq<char>,
    k: int,
    entry: (NodeView, NodeView),
    level: nat,
    d: nat,
    m: nat,
) -> (r: (nat, Scan, nat))
    requires
        s.started,
        s.skip_gap(false) == Ok::<Scan, Fail>(g),
        set(g, all, k, d),
        g.allow,
        g.cur.column == 2 * level,
        level <= d,
        entry.0 is Scalar,
        !tall(entry.0),
        readable(entry.0, false),
        readable(entry.1, false),
        stands(all, k, inline_text(entry.0) + seq![':'] + value_text(entry.1, level)),
        line_follows(
            all,
            k + inline_text(entry.0).len() + value_text(entry.1, level).len(),
            m,
        ),
        m <= 2 * level,
    ensures
        fetched(s, r.0) == Some(r.1),
        left(
            g,
            r.1,
            all,
            k + inline_text(entry.0).len() + value_text(entry.1, level).len(),
            level + 1,
            r.2,
            m,
            (if d == level {
                seq![TokenKindView::BlockMappingStart]
            } else {
                ends((d - level - 1) as nat)
            }) + pair_tokens(entry),
        ),
    decreases entry, 2nat, 0nat,
{
    let key = inline_text(entry.0);
    let text = value_text(entry.1, level);
    let head = if d == level {
        seq![TokenKindView::BlockMappingStart]
    } else {
        ends((d - level - 1) as nat)
    };
    let first = seq![TokenKindView::Key] + tokens_of(entry.0) + seq![TokenKindView::Value];
    assert(pair_tokens(entry) == first + tokens_of(entry.1));
    lemma_stands(all, k, key + seq![':'], text);
    lemma_stands(all, k, key, seq![':']);
    lemma_stands_char(all, k + key.len(), seq![':'], 0);
    let k1 = k + key.len() + 1;
    lemma_value_head(entry.1, level);
    lemma_stands_char(all, k1, text, 0);
    let t = lemma_key(s, g, all, k, entry.0, level, d);
    assert(kinds_of(t.tokens) =~= kinds_of(g.tokens) + (head + first));
    let v = entry.1;
    if tall(v) {
        let width = 2 * level + 2;
        let body = literal_text(v->Scalar_value, width, 2);
        lemma_stands(all, k1, seq![' '], body);
        assert(spaced(all, k1, 1));
        lemma_stands_char(all, k1 + 1, body, 0);
        lemma_gap(t, all, k1, 1);
        let h = t.skip_gap(false)->Ok_0;
        let u = lemma_tall_node(t, h, all, k1 + 1, v, width, 2, level + 1, m);
        lemma_fetched(s, 2, t, 1);
        assert(kinds_of(u.tokens) + ends(0) =~= kinds_of(g.tokens) + (head + pair_tokens(entry)));
        (3nat, u, level + 1)
    } else if in_line(v) {
        assert(text =~= seq![' '] + (inline_text(v) + seq!['\n']));
        lemma_stands(all, k1, seq![' '], inline_text(v) + seq!['\n']);
        lemma_stands(all, k1 + 1, inline_text(v), seq!['\n']);
        lemma_stands_char(all, k1 + 1 + inline_text(v).len(), seq!['\n'], 0);
        assert(spaced(all, k1, 1));
        lemma_stands_char(all, k1 + 1, inline_text(v), 0);
        lemma_gap(t, all, k1, 1);
        let h = t.skip_gap(false)->Ok_0;
        let (steps, u) = lemma_line_node(t, h, all, k1 + 1, v, level + 1, m);
        lemma_fetched(s, 2, t, steps);
        assert(kinds_of(u.tokens) + ends(0) =~= kinds_of(g.tokens) + (head + pair_tokens(entry)));
        (steps + 2, u, level + 1)
    } else {
        let body = block_text(v, level + 1);
        assert(text =~= seq!['\n'] + (blanks(2 * level + 2) + body));
        lemma_stands(all, k1, seq!['\n'], blanks(2 * level + 2) + body);
        lemma_stands(all, k1 + 1, blanks(2 * level + 2), body);
        lemma_spaced(all, k1 + 1, 2 * level + 2);
        lemma_block_start(all, k1 + 1 + 2 * level + 2, v, level + 1);
        let h = lemma_new_line(t, all, k1, 2 * level + 2, level + 1);
        let (steps, u, f) = lemma_block_node(
            t,
            h,
            all,
            k1 + 1 + 2 * level + 2,
            v,
            level + 1,
            m,
        );
        lemma_fetched(s, 2, t, steps);
        assert(kinds_of(g.tokens) + (head + first) + tokens_of(v) =~= kinds_of(g.tokens) + (head
            + pair_tokens(entry)));
        (steps + 2, u, f)
    }
}

/// The text behind a `:` starts with a space or a line break.
proof fn lemma_value_head(v: NodeView, level: nat)
    ensures
        value_text(v, level).len() > 0,
        value_text(v, level)[0] == ' ' || value_text(v, level)[0] == '\n',
{
}

/// A key of a block mapping with its colon.
proof fn lemma_key(s: Scan, g: Scan, all: Seq<char>, k: int, key: NodeView, level: nat, d: nat) -> (t:
    Scan)
    requires
        s.started,
        s.skip_gap(false) == Ok::<Scan, Fail>(g),
        set(g, all, k, d),
        g.allow,
        g.cur.column == 2 * level,
        level <= d,
        key is Scalar,
        !tall(key),
        readable(key, false),
        stands(all, k, inline_text(key)),
        k + inline_text(key).len() + 1 < all.len(),
        all[k + inline_text(key).len()] == ':',
        ({
            let c = all[k + inline_text(key).len() + 1];
            c == ' ' || c == '\n'
        }),
    ensures
        fetched(s, 2) == Some(t),
        set(t, all, k + inline_text(key).len() + 1, level + 1),
        t.cur.column >= 2 * level,
        kinds_of(t.tokens) == kinds_of(g.tokens) + ((if d == level {
            seq![TokenKindView::BlockMappingStart]
        } else {
            ends((d - level - 1) as nat)
        }) + (seq![TokenKindView::Key] + tokens_of(key) + seq![TokenKindView::Value])),
{
    let text = inline_text(key);
    lemma_stands_char(all, k, text, 0);
    lemma_fetch(s, g, all, k);
    let e: nat = if d == level {
        level
    } else {
        level + 1
    };
    lemma_block_seat(g, all, k, d, e);
    let p = seated(g);
    let value = key->value;
    let style = key->Scalar_style;
    let u = lemma_scalar(p, all, k, value, style);
    assert(fetched(s, 0) == Some(s));
    lemma_fetched_one(s, 0, s, u);
    let k1 = k + text.len();
    assert(spaced(all, k1, 0));
    lemma_gap(u, all, k1, 0);
    let h = Scan { cur: u.cur.to(u.cur.offset + 0), after_indicator: false, ..u };
    lemma_fetch(u, h, all, k1);
    lemma_off(all, k, 0);
    assert(h.keys[0].pos == p.pos());
    assert(h.keys[0].pos.line == h.cur.line);
    assert(h.keys[0].column() == 2 * level);
    assert(h.stale_keys().keys =~= h.keys);
    lemma_block_seat(h, all, k1, e, e);
    let q = seated(h);
    let i = p.tokens.len() as int;
    assert(kinds_of(h.tokens) + ends(0) =~= kinds_of(u.tokens));
    assert(kinds_of(q.tokens).len() == q.tokens.len());
    let t = lemma_colon(q, all, k1, e, i);
    lemma_fetched_one(s, 1, u, t);
    let base = kinds_of(p.tokens);
    assert(tokens_of(key) == seq![TokenKindView::Scalar { value, style }]);
    assert(base.push(TokenKindView::Scalar { value, style }).insert(i, TokenKindView::Key).push(
        TokenKindView::Value,
    ) =~= base + (seq![TokenKindView::Key] + tokens_of(key) + seq![TokenKindView::Value]));
    assert(base.push(TokenKindView::Scalar { value, style }).insert(i, TokenKindView::Key).insert(
        i,
        TokenKindView::BlockMappingStart,
    ).push(TokenKindView::Value) =~= base + (seq![TokenKindView::BlockMappingStart] + (seq![
        TokenKindView::Key,
    ] + tokens_of(key) + seq![TokenKindView::Value])));
    assert(kinds_of(t.tokens) =~= kinds_of(g.tokens) + ((if d == level {
        seq![TokenKindView::BlockMappingStart]
    } else {
        ends((d - level - 1) as nat)
    }) + (seq![TokenKindView::Key] + tokens_of(key) + seq![TokenKindView::Value])));
    t
}

/// The first `m` entries of a block mapping.
proof fn lemma_entries(
    s: Scan,
    g: Scan,
    all: Seq<char>,
    k: int,
    n: NodeView,
    level: nat,
    m: nat,
    w: nat,
) -> (r: (nat, Scan, nat))
    requires
        s.started,
        s.skip_gap(false) == Ok::<Scan, Fail>(g),
        set(g, all, k, level),
        g.allow,
        g.cur.column == 2 * level,
        n is Mapping,
        readable(n, false),
        n->Mapping_style is Block,
        0 < m <= n->entries.len(),
        stands(all, k, block_entries(n->entries, m, level)),
        line_follows(all, k + block_entries(n->entries, m, level).len() - 1, w),
        w <= 2 * level,
    ensures
        fetched(s, r.0) == Some(r.1),
        left(
            g,
            r.1,
            all,
            k + block_entries(n->entries, m, level).len() - 1,
            level + 1,
            r.2,
            w,
            seq![TokenKindView::BlockMappingStart] + block_entry_tokens(n->entries, m),
        ),
    decreases n, 0nat, m,
{
    let entries = n->entries;
    let entry = entries[m - 1];
    assert(entry.0 is Scalar && !tall(entry.0) && readable(entry.0, false) && readable(
        entry.1,
        false,
    ));
    let before = block_entries(entries, (m - 1) as nat, level);
    let rest = inline_text(entry.0) + seq![':'] + value_text(entry.1, level);
    assert(margin(m, level) + inline_text(entry.0) + seq![':'] + value_text(entry.1, level)
        =~= margin(m, level) + rest);
    lemma_stands(all, k, before, margin(m, level) + rest);
    let k1 = k + before.len();
    lemma_stands(all, k1, margin(m, level), rest);
    let done = block_entry_tokens(entries, (m - 1) as nat);
    let more = pair_tokens(entry);
    assert(block_entry_tokens(entries, m) == done + more);
    if m == 1 {
        assert(before =~= Seq::<char>::empty());
        assert(done =~= Seq::<TokenKindView>::empty());
        assert(done + more =~= more);
        let (steps, t, d) = lemma_entry(s, g, all, k, entry, level, level, w);
        (steps, t, d)
    } else {
        lemma_spaced(all, k1, 2 * level);
        assert(inline_text(entry.0).len() > 0 && starts_token(inline_text(entry.0)[0]));
        lemma_stands_char(all, k1 + 2 * level, rest, 0);
        lemma_entries_end(n->entries, (m - 1) as nat, level);
        lemma_stands_char(all, k, before, before.len() - 1);
        let (steps, t, d) = lemma_entries(s, g, all, k, n, level, (m - 1) as nat, 2 * level);
        let h = lemma_new_line(t, all, k1 - 1, 2 * level, d);
        let (steps1, u, e) = lemma_entry(t, h, all, k1 + 2 * level, entry, level, d, w);
        lemma_fetched(s, steps, t, steps1);
        let start = seq![TokenKindView::BlockMappingStart];
        assert(kinds_of(h.tokens) + (ends((d - level - 1) as nat) + more) =~= kinds_of(h.tokens)
            + ends((d - level - 1) as nat) + more);
        assert(kinds_of(g.tokens) + (start + done) + more =~= kinds_of(g.tokens) + (start + (done
            + more)));
        (steps + steps1, u, e)
    }
}

/// A block collection that is not empty, from the gap in front of it on.
proof fn lemma_block_node(
    s: Scan,
    g: Scan,
    all: Seq<char>,
    k: int,
    n: NodeView,
    level: nat,
    m: nat,
) -> (r: (nat, Scan, nat))
    requires
        s.started,
        s.skip_gap(false) == Ok::<Scan, Fail>(g),
        set(g, all, k, level),
        g.allow,
        g.cur.column == 2 * level,
        !in_line(n),
        readable(n, false),
        stands(all, k, block_text(n, level)),
        line_follows(all, k + block_text(n, level).len() - 1, m),
        m <= 2 * level,
    ensures
        fetched(s, r.0) == Some(r.1),
        left(g, r.1, all, k + block_text(n, level).len() - 1, level, r.2, m, tokens_of(n)),
    decreases n, 1nat, 0nat,
{
    let (steps, t, d) = if n is Sequence {
        lemma_items(s, g, all, k, n, level, n->items.len(), m)
    } else {
        lemma_entries(s, g, all, k, n, level, n->entries.len(), m)
    };
    let end = seq![TokenKindView::BlockEnd];
    let inside = if n is Sequence {
        seq![TokenKindView::BlockSequenceStart] + block_item_tokens(n->items, n->items.len())
    } else {
        seq![TokenKindView::BlockMappingStart] + block_entry_tokens(n->entries, n->entries.len())
    };
    assert(tokens_of(n) == inside + end);
    assert(kinds_of(t.tokens) + ends((d - level) as nat) =~= kinds_of(t.tokens) + ends(
        (d - level - 1) as nat,
    ) + end);
    assert(kinds_of(g.tokens) + inside + end =~= kinds_of(g.tokens) + (inside + end));
    (steps, t, d)
}

/// The text of a root starts with a token.
proof fn lemma_root_start(n: NodeView)
    requires
        readable(n, false),
    ensures
        root_text(n).len() > 0,
        starts_token(root_text(n)[0]),
        root_text(n).last() == '\n',
{
    let all = root_text(n);
    if tall(n) {
        lemma_literal_end(n->Scalar_value, 2, 1);
    } else if in_line(n) {
        assert(inline_text(n).len() > 0 && starts_token(inline_text(n)[0]));
    } else {
        assert(all.subrange(0, all.len() as int) =~= all);
        assert(stands(all, 0, block_text(n, 0)));
        lemma_block_start(all, 0, n, 0);
        lemma_block_end(n, 0);
    }
}

/// The root of a document, from the gap in front of it on.
proof fn lemma_root_scanned(s: Scan, g: Scan, all: Seq<char>, k: int, n: NodeView) -> (r: (
    nat,
    Scan,
    nat,
))
    requires
        s.started,
        s.skip_gap(false) == Ok::<Scan, Fail>(g),
        set(g, all, k, 0),
        g.allow,
        g.cur.column == 0,
        readable(n, false),
        stands(all, k, root_text(n)),
        ({
            let e = k + root_text(n).len();
            e == all.len() || stands(all, e, seq!['.', '.', '.', '\n'])
        }),
    ensures
        fetched(s, r.0) == Some(r.1),
        left(g, r.1, all, k + root_text(n).len() - 1, 0, r.2, 0, tokens_of(n)),
        line_follows(all, k + root_text(n).len() - 1, 0),
{
    let text = root_text(n);
    let last = k + text.len() - 1;
    lemma_root_start(n);
    lemma_stands_char(all, k, text, text.len() - 1);
    if last + 1 < all.len() {
        lemma_stands_char(all, last + 1, seq!['.', '.', '.', '\n'], 0);
    }
    assert(spaced(all, last + 1, 0));
    if tall(n) {
        let t = lemma_tall_node(s, g, all, k, n, 2, 1, 0, 0);
        assert(kinds_of(t.tokens) + ends(0) =~= kinds_of(t.tokens));
        (1nat, t, 0nat)
    } else if in_line(n) {
        lemma_stands(all, k, inline_text(n), seq!['\n']);
        let (steps, t) = lemma_line_node(s, g, all, k, n, 0, 0);
        assert(kinds_of(t.tokens) + ends(0) =~= kinds_of(t.tokens));
        (steps, t, 0nat)
    } else {
        lemma_block_node(s, g, all, k, n, 0, 0)
    }
}

/// The start of the stream.
proof fn lemma_stream_started(all: Seq<char>, limits: crate::limits::ResourceLimits) -> (s: Scan)
    requires
        encode_utf8(all).len() <= MAX_INPUT,
        encode_utf8(all).len() <= limits.max_document_size,
        all.len() > 0,
        starts_token(all[0]),
    ensures
        fetched(Scan::fresh(encode_utf8(all), limits, false), 1) == Some(s),
        set(s, all, 0, 0),
        s.allow,
        s.cur.column == 0,
        kinds_of(s.tokens) == seq![TokenKindView::StreamStart],
{
    let s0 = Scan::fresh(encode_utf8(all), limits, false);
    let s = s0.stream_start();
    lemma_off_end(all);
    crate::readback::scan::lemma_byte(all, 0);
    assert(s0.fetch() == Ok::<(Scan, bool), Fail>((s, true))) by {
        reveal(Scan::fetch);
    }
    assert(s.indents =~= Seq::new(
        0,
        |i: int|
            if i == 0 {
                -1int
            } else {
                2 * i - 2
            },
    ));
    assert(kinds_of(s.tokens) =~= seq![TokenKindView::StreamStart]);
    assert(fetched(s0, 0) == Some(s0));
    lemma_fetched_one(s0, 0, s0, s);
    s
}

/// The text of a document, with or without markers around its root.
pub open spec fn marked_text(n: NodeView, explicit: bool) -> Seq<char> {
    if explicit {
        seq!['-', '-', '-', '\n'] + root_text(n) + seq!['.', '.', '.', '\n']
    } else {
        root_text(n)
    }
}

/// The tokens of a document, with or without markers around its root.
pub open spec fn document_tokens(n: NodeView, explicit: bool) -> Seq<TokenKindView> {
    if explicit {
        seq![TokenKindView::StreamStart, TokenKindView::DocumentStart] + tokens_of(n) + seq![
            TokenKindView::DocumentEnd,
            TokenKindView::StreamEnd,
        ]
    } else {
        seq![TokenKindView::StreamStart] + tokens_of(n) + seq![TokenKindView::StreamEnd]
    }
}

/// The pieces of the text of a document are scanned to its tokens.
pub proof fn lemma_document_scanned(n: NodeView, explicit: bool, limits: crate::limits::ResourceLimits) -> (r: (
    nat,
    Scan,
))
    requires
        readable(n, false),
        encode_utf8(marked_text(n, explicit)).len() <= MAX_INPUT,
        encode_utf8(marked_text(n, explicit)).len() <= limits.max_document_size,
    ensures
        fetched(Scan::fresh(encode_utf8(marked_text(n, explicit)), limits, false), r.0) == Some(
            r.1,
        ),
        r.1.ended,
        r.1.keys.len() == 1,
        !r.1.keys[0].possible,
        kinds_of(r.1.tokens) == document_tokens(n, explicit),
{
    if explicit {
        lemma_marked_scanned(n, limits)
    } else {
        lemma_bare_scanned(n, limits)
    }
}

proof fn lemma_bare_scanned(n: NodeView, limits: crate::limits::ResourceLimits) -> (r: (nat, Scan))
    requires
        readable(n, false),
        encode_utf8(root_text(n)).len() <= MAX_INPUT,
        encode_utf8(root_text(n)).len() <= limits.max_document_size,
    ensures
        fetched(Scan::fresh(encode_utf8(root_text(n)), limits, false), r.0) == Some(r.1),
        r.1.ended,
        r.1.keys.len() == 1,
        !r.1.keys[0].possible,
        kinds_of(r.1.tokens) == document_tokens(n, false),
{
    let all = root_text(n);
    let s0 = Scan::fresh(encode_utf8(all), limits, false);
    lemma_root_start(n);
    let s = lemma_stream_started(all, limits);
    assert(spaced(all, 0, 0));
    lemma_gap(s, all, 0, 0);
    let g = s.skip_gap(false)->Ok_0;
    assert(all.subrange(0, all.len() as int) =~= all);
    let (steps, t, d) = lemma_root_scanned(s, g, all, 0, n);
    lemma_fetched(s0, 1, s, steps);
    let h = lemma_new_line(t, all, all.len() - 1, 0, d);
    let u = lemma_end(t, h, all, d);
    lemma_fetched_one(s0, 1 + steps, t, u);
    assert(kinds_of(h.tokens) + ends(d).push(TokenKindView::StreamEnd) =~= kinds_of(h.tokens)
        + ends(d) + seq![TokenKindView::StreamEnd]);
    assert(kinds_of(g.tokens) + tokens_of(n) + seq![TokenKindView::StreamEnd] =~= document_tokens(
        n,
        false,
    ));
    (2 + steps, u)
}

/// The marker in front of a document, and the line break behind it.
proof fn lemma_marked_start(s: Scan, all: Seq<char>) -> (r: (Scan, Scan))
    requires
        set(s, all, 0, 0),
        s.cur.column == 0,
        stands(all, 0, seq!['-', '-', '-', '\n']),
        4 < all.len(),
        starts_token(all[4]),
    ensures
        s.fetch() == Ok::<(Scan, bool), Fail>((r.0, true)),
        r.0.started,
        r.0.skip_gap(false) == Ok::<Scan, Fail>(r.1),
        set(r.1, all, 4, 0),
        r.1.allow,
        r.1.cur.column == 0,
        kinds_of(r.1.tokens) == kinds_of(s.tokens).push(TokenKindView::DocumentStart),
{
    lemma_marker_bytes(all, 0, '-');
    assert(spaced(all, 0, 0));
    lemma_gap(s, all, 0, 0);
    let g = s.skip_gap(false)->Ok_0;
    lemma_fetch(s, g, all, 0);
    lemma_block_seat(g, all, 0, 0, 0);
    assert(kinds_of(g.tokens) + ends(0) =~= kinds_of(g.tokens));
    let a = lemma_start_marker(seated(g), all, 0);
    assert(spaced(all, 4, 0));
    lemma_gap_line(a, all, 3, 0);
    (a, a.skip_gap(false)->Ok_0)
}

/// The marker behind a document, and the end of the stream.
proof fn lemma_marked_end(t: Scan, all: Seq<char>, e: int, d: nat) -> (r: (Scan, Scan))
    requires
        rested(t, all, e - 1, d, 0),
        t.started,
        line_follows(all, e - 1, 0),
        stands(all, e, seq!['.', '.', '.', '\n']),
        e + 4 == all.len(),
    ensures
        t.fetch() == Ok::<(Scan, bool), Fail>((r.0, true)),
        r.0.fetch() == Ok::<(Scan, bool), Fail>((r.1, true)),
        r.1.ended,
        r.1.keys.len() == 1,
        !r.1.keys[0].possible,
        kinds_of(r.1.tokens) == kinds_of(t.tokens) + ends(d) + seq![
            TokenKindView::DocumentEnd,
            TokenKindView::StreamEnd,
        ],
{
    lemma_marker_bytes(all, e, '.');
    let i = lemma_new_line(t, all, e - 1, 0, d);
    lemma_fetch(t, i, all, e);
    let f: nat = if d == 0 {
        0
    } else {
        1
    };
    lemma_block_seat(i, all, e, d, f);
    let c = lemma_end_marker(seated(i), all, e, f);
    assert(spaced(all, e + 4, 0));
    lemma_gap_line(c, all, e + 3, 0);
    let x = c.skip_gap(false)->Ok_0;
    let u = lemma_end(c, x, all, 0);
    assert(kinds_of(c.tokens) =~= kinds_of(t.tokens) + ends(d) + seq![TokenKindView::DocumentEnd]);
    assert(kinds_of(u.tokens) =~= kinds_of(t.tokens) + ends(d) + seq![
        TokenKindView::DocumentEnd,
        TokenKindView::StreamEnd,
    ]);
    (c, u)
}

proof fn lemma_marked_scanned(n: NodeView, limits: crate::limits::ResourceLimits) -> (r: (nat, Scan))
    requires
        readable(n, false),
        encode_utf8(marked_text(n, true)).len() <= MAX_INPUT,
        encode_utf8(marked_text(n, true)).len() <= limits.max_document_size,
    ensures
        fetched(Scan::fresh(encode_utf8(marked_text(n, true)), limits, false), r.0) == Some(r.1),
        r.1.ended,
        r.1.keys.len() == 1,
        !r.1.keys[0].possible,
        kinds_of(r.1.tokens) == document_tokens(n, true),
{
    let all = marked_text(n, true);
    let start = seq!['-', '-', '-', '\n'];
    let end = seq!['.', '.', '.', '\n'];
    let text = root_text(n);
    let s0 = Scan::fresh(encode_utf8(all), limits, false);
    lemma_root_start(n);
    assert(all.subrange(0, all.len() as int) =~= all);
    assert(all =~= start + (text + end));
    assert(stands(all, 0, start + (text + end)));
    lemma_stands(all, 0, start, text + end);
    lemma_stands(all, 4, text, end);
    lemma_stands_char(all, 4, text, 0);
    lemma_stands_char(all, 0, start, 0);
    let s = lemma_stream_started(all, limits);
    let (a, h) = lemma_marked_start(s, all);
    lemma_fetched_one(s0, 1, s, a);
    let (steps, t, d) = lemma_root_scanned(a, h, all, 4, n);
    lemma_fetched(s0, 2, a, steps);
    let (c, u) = lemma_marked_end(t, all, 4 + text.len() as int, d);
    lemma_fetched_one(s0, 2 + steps, t, c);
    lemma_fetched_one(s0, 3 + steps, c, u);
    let tail = seq![TokenKindView::DocumentEnd, TokenKindView::StreamEnd];
    assert(kinds_of(u.tokens) == kinds_of(h.tokens) + tokens_of(n) + tail);
    assert(kinds_of(u.tokens) =~= document_tokens(n, true));
    (4 + steps, u)
}

} // verus!
