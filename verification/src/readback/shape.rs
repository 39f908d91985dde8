//! The text of a node, piece by piece, and that it is what the emitter writes.
use crate::emitter::scalar::blanks;
use crate::emitter::sink::{fresh_frame, Frame, Sink};
use crate::emitter::{
    document_text, write_order, written, written_entries, written_items, EmitterConfig,
};
use crate::node::NodeView;
use crate::readback::literal::{
    feeds, lemma_literal_feeds, lemma_literal_text, lines_text, literal_text, upright,
};
use crate::readback::scan::{legible, scalar_text, word_char};
use crate::types::CollectionStyle;
use vstd::prelude::*;

verus! {

/// Whether a node is written in its line: a scalar, a flow collection or an empty one.
pub open spec fn in_line(n: NodeView) -> bool {
    match n {
        NodeView::Scalar { .. } => true,
        NodeView::Sequence { items, style, .. } => style is Flow || items.len() == 0,
        NodeView::Mapping { entries, style, .. } => style is Flow || entries.len() == 0,
    }
}

/// Whether a node is written over several lines though it is a scalar.
pub open spec fn tall(n: NodeView) -> bool {
    n is Scalar && n->Scalar_style is Literal
}

/// Nodes whose text is read back: no tags, legible scalars, or upright literal ones outside
/// of flow collections, legible keys, and only flow collections in flow collections. No
/// collection is larger than a document may be.
pub open spec fn readable(n: NodeView, in_flow: bool) -> bool
    decreases n,
{
    &&& n.tag() is None
    &&& match n {
        NodeView::Scalar { value, style, .. } => legible(value, style) || (!in_flow
            && style is Literal && upright(value)),
        NodeView::Sequence { items, style, .. } => (in_flow ==> style is Flow) && items.len()
            <= 1_000_000 && forall|i: int|
            0 <= i < items.len() ==> readable(#[trigger] items[i], style is Flow),
        NodeView::Mapping { entries, style, .. } => (in_flow ==> style is Flow) && entries.len()
            <= 1_000_000 && forall|i: int|
            0 <= i < entries.len() ==> (#[trigger] entries[i]).0 is Scalar && !tall(entries[i].0)
                && readable(
                entries[i].0,
                style is Flow,
            ) && readable(entries[i].1, style is Flow),
    }
}

/// The text of a node in its line.
pub open spec fn inline_text(n: NodeView) -> Seq<char>
    decreases n,
{
    match n {
        NodeView::Scalar { value, style, .. } => scalar_text(value, style),
        NodeView::Sequence { items, .. } => seq!['['] + flow_items(items, items.len()) + seq![']'],
        NodeView::Mapping { entries, .. } => seq!['{'] + flow_entries(entries, entries.len())
            + seq!['}'],
    }
}

/// What separates two entries of a flow collection.
pub open spec fn comma(k: nat) -> Seq<char> {
    if k > 1 {
        seq![',', ' ']
    } else {
        seq![]
    }
}

/// The text of the first `k` items of a flow sequence.
pub open spec fn flow_items(items: Seq<NodeView>, k: nat) -> Seq<char>
    decreases items, k,
{
    if 0 < k <= items.len() {
        flow_items(items, (k - 1) as nat) + (comma(k) + inline_text(items[k - 1]))
    } else {
        seq![]
    }
}

/// The text of the first `k` entries of a flow mapping.
pub open spec fn flow_entries(entries: Seq<(NodeView, NodeView)>, k: nat) -> Seq<char>
    decreases entries, k,
{
    if 0 < k <= entries.len() {
        flow_entries(entries, (k - 1) as nat) + (comma(k) + inline_text(entries[k - 1].0) + seq![
            ':',
            ' ',
        ] + inline_text(entries[k - 1].1))
    } else {
        seq![]
    }
}

/// The text of a block collection that is not empty, from its first indicator or key on.
pub open spec fn block_text(n: NodeView, level: nat) -> Seq<char>
    decreases n, 0int,
{
    match n {
        NodeView::Scalar { .. } => seq![],
        NodeView::Sequence { items, .. } => block_items(items, items.len(), level),
        NodeView::Mapping { entries, .. } => block_entries(entries, entries.len(), level),
    }
}

/// The text behind the `- ` of an entry.
pub open spec fn item_text(n: NodeView, level: nat) -> Seq<char>
    decreases n, 1int,
{
    if tall(n) {
        literal_text(n->Scalar_value, 2 * level + 2, 2)
    } else if in_line(n) {
        inline_text(n) + seq!['\n']
    } else {
        block_text(n, level + 1)
    }
}

/// The text behind the `:` of a key.
pub open spec fn value_text(n: NodeView, level: nat) -> Seq<char>
    decreases n, 1int,
{
    if tall(n) {
        seq![' '] + literal_text(n->Scalar_value, 2 * level + 2, 2)
    } else if in_line(n) {
        seq![' '] + inline_text(n) + seq!['\n']
    } else {
        seq!['\n'] + blanks(2 * level + 2) + block_text(n, level + 1)
    }
}

/// The indentation of the `k`th entry; the first stands where the collection does.
pub open spec fn margin(k: nat, level: nat) -> Seq<char> {
    if k > 1 {
        blanks(2 * level)
    } else {
        seq![]
    }
}

/// The text of the first `k` items of a block sequence.
pub open spec fn block_items(items: Seq<NodeView>, k: nat, level: nat) -> Seq<char>
    decreases items, k,
{
    if 0 < k <= items.len() {
        block_items(items, (k - 1) as nat, level) + (margin(k, level) + seq!['-', ' '] + item_text(
            items[k - 1],
            level,
        ))
    } else {
        seq![]
    }
}

/// The text of the first `k` entries of a block mapping.
pub open spec fn block_entries(entries: Seq<(NodeView, NodeView)>, k: nat, level: nat) -> Seq<char>
    decreases entries, k,
{
    if 0 < k <= entries.len() {
        block_entries(entries, (k - 1) as nat, level) + (margin(k, level) + inline_text(
            entries[k - 1].0,
        ) + seq![':'] + value_text(entries[k - 1].1, level))
    } else {
        seq![]
    }
}

/// The text of a document with the given root.
pub open spec fn root_text(n: NodeView) -> Seq<char> {
    if tall(n) {
        literal_text(n->Scalar_value, 2, 1)
    } else if in_line(n) {
        inline_text(n) + seq!['\n']
    } else {
        block_text(n, 0)
    }
}

/// Whether what is written now stands in a flow collection.
spec fn in_flow(s: Sink) -> bool {
    s.stack.len() > 0 && s.stack.last().style is Flow
}

/// Whether a key of a block mapping is written now.
spec fn at_key(s: Sink) -> bool {
    s.stack.len() > 0 && s.stack.last().style is Block && s.stack.last().expect_key
}

/// Whether a value of a block mapping is written now.
spec fn at_value(s: Sink) -> bool {
    s.stack.len() > 0 && s.stack.last().style is Block && !s.stack.last().expect_key
        && s.stack.last().pending is MapValue
}

spec fn lead(s: Sink) -> Seq<char> {
    if at_value(s) {
        seq![' ']
    } else {
        seq![]
    }
}

spec fn trail(s: Sink) -> Seq<char> {
    if in_flow(s) || at_key(s) {
        seq![]
    } else {
        seq!['\n']
    }
}

/// Nothing is pending in a flow collection.
spec fn calm(s: Sink) -> bool {
    in_flow(s) ==> s.stack.last().pending is Nothing
}

/// Writing a node leaves the open collections alone, but for what was pending.
spec fn kept(s: Sink, w: Sink) -> bool {
    &&& w.tag == s.tag
    &&& w.indent == s.indent
    &&& w.stack.len() == s.stack.len()
    &&& forall|i: int| 0 <= i < s.stack.len() - 1 ==> #[trigger] w.stack[i] == s.stack[i]
    &&& s.stack.len() > 0 ==> {
        let (f, g) = (s.stack.last(), w.stack.last());
        &&& g.style == f.style
        &&& g.filled == f.filled
        &&& g.suppress_first_indent == f.suppress_first_indent
        &&& g.open_deferred == f.open_deferred
        &&& f.style is Block ==> !g.expect_key
        &&& f.style is Flow ==> g.pending == f.pending
    }
}

proof fn lemma_scalar_written(n: NodeView, s: Sink)
    requires
        n is Scalar,
        !tall(n),
        readable(n, in_flow(s)),
        s.tag is None,
    ensures
        written(n, s, false).text == s.text + lead(s) + inline_text(n) + trail(s),
        kept(s, written(n, s, false)),
{
    let w = written(n, s, false);
    let text = inline_text(n);
    assert(text.len() > 0 && text.last() != '\n') by {
        if n->Scalar_style is Plain {
            assert(n->value[n->value.len() - 1] == ' ' || word_char(n->value.last()));
        }
    }
    assert(w.text =~= s.text + lead(s) + inline_text(n) + trail(s));
}

/// A literal scalar behind a `- ` or a `:`, or at the top.
proof fn lemma_tall_written(n: NodeView, s: Sink)
    requires
        tall(n),
        readable(n, false),
        s.tag is None,
        s.indent == 2,
        open_block(s),
    ensures
        s.stack.len() == 0 ==> written(n, s, false).text == s.text + root_text(n),
        s.stack.len() > 0 ==> written(n, s, false).text == s.text + if shares(s) {
            item_text(n, (s.stack.len() - 1) as nat)
        } else {
            value_text(n, (s.stack.len() - 1) as nat)
        },
        kept(s, written(n, s, false)),
{
    let w = written(n, s, false);
    let v = n->Scalar_value;
    let level = s.level();
    let width = 2 * level + 2;
    assert((level + 1) * 2 == width);
    lemma_literal_text(v, width);
    lemma_literal_feeds(v, width, 1);
    let text = literal_text(v, width, 1);
    assert(text.len() > 0 && text.last() == '\n') by {
        assert(feeds(1).last() == '\n');
        let body = lines_text(v, 0, blanks(width)) + feeds(1);
        assert(body.last() == '\n');
        assert(text.last() == body.last());
    }
    if s.stack.len() == 0 {
        assert(w.text =~= s.text + text);
    } else if shares(s) {
        assert(w.text =~= s.text + (text + seq!['\n']));
    } else {
        assert(w.text =~= s.text + (seq![' '] + (text + seq!['\n'])));
    }
}

/// A collection that is written in its line is opened.
proof fn lemma_begin_inline(s: Sink, style: CollectionStyle, len: usize, bracket: char)
    requires
        s.tag is None,
        calm(s),
        !at_key(s),
        style is Flow || len == 0,
    ensures
        ({
            let b = s.begin(style, Some(len), bracket);
            &&& b.text == s.text + lead(s) + if style is Flow {
                seq![bracket]
            } else {
                seq![]
            }
            &&& b.tag is None
            &&& b.indent == s.indent
            &&& b.stack.len() == s.stack.len() + 1
            &&& b.stack.last() == fresh_frame(style, false, false)
            &&& kept(s, Sink { stack: b.stack.drop_last(), ..b })
        }),
{
    let b = s.begin(style, Some(len), bracket);
    assert(b.text =~= s.text + lead(s) + if style is Flow {
        seq![bracket]
    } else {
        seq![]
    });
}

/// A collection that is written in its line is closed.
proof fn lemma_end_inline(s: Sink, b: Sink, w: Sink, open: char, close: char)
    requires
        !at_key(s),
        b.stack.len() == s.stack.len() + 1,
        kept(s, Sink { stack: b.stack.drop_last(), ..b }),
        w.stack.len() == b.stack.len(),
        w.tag == b.tag,
        w.indent == b.indent,
        forall|i: int| 0 <= i < s.stack.len() ==> #[trigger] w.stack[i] == b.stack[i],
        !w.stack.last().open_deferred,
    ensures
        ({
            let e = w.end(open, close);
            &&& kept(s, e)
            &&& w.stack.last().style is Flow ==> e.text == w.text + seq![close] + trail(s)
            &&& w.stack.last().style is Block && !w.stack.last().filled ==> e.text == w.text + seq![
                open,
                close,
            ] + trail(s)
        }),
{
    let e = w.end(open, close);
    assert(w.stack.drop_last() =~= b.stack.drop_last());
    assert(w.stack.last().style is Flow ==> e.text =~= w.text + seq![close] + trail(s));
    assert(w.stack.last().style is Block && !w.stack.last().filled ==> e.text =~= w.text + seq![
        open,
        close,
    ] + trail(s));
}

/// The items or entries of a flow collection are being written.
spec fn flowing(b: Sink, w: Sink, k: nat) -> bool {
    &&& w.tag == b.tag
    &&& w.indent == b.indent
    &&& w.stack.len() == b.stack.len()
    &&& forall|i: int| 0 <= i < b.stack.len() - 1 ==> #[trigger] w.stack[i] == b.stack[i]
    &&& w.stack.last().style == b.stack.last().style
    &&& w.stack.last().filled == (k > 0)
    &&& !w.stack.last().open_deferred
    &&& !w.stack.last().suppress_first_indent
    &&& w.stack.last().pending is Nothing
}

/// How a sequence is written.
proof fn lemma_sequence_parts(n: NodeView, s: Sink)
    requires
        n is Sequence,
        n.tag() is None,
    ensures
        written(n, s, false) == written_items(
            n,
            s.begin(n->Sequence_style, Some(n->items.len() as usize), '['),
            false,
            n->items.len(),
        ).end('[', ']'),
{
}

/// How a mapping is written.
proof fn lemma_mapping_parts(n: NodeView, s: Sink)
    requires
        n is Mapping,
        n.tag() is None,
    ensures
        written(n, s, false) == written_entries(
            n,
            s.begin(n->Mapping_style, Some(n->entries.len() as usize), '{'),
            false,
            n->entries.len(),
        ).end('{', '}'),
{
}

/// A collection in its line: the bracket or nothing, what stands inside, and the rest.
proof fn lemma_inline_text(
    base: Seq<char>,
    start: Seq<char>,
    open: char,
    inside: Seq<char>,
    close: char,
    end: Seq<char>,
    flow: bool,
)
    requires
        !flow ==> inside.len() == 0,
    ensures
        flow ==> base + start + seq![open] + inside + seq![close] + end == base + start + (seq![open]
            + inside + seq![close]) + end,
        !flow ==> base + start + Seq::<char>::empty() + inside + seq![open, close] + end == base
            + start + (seq![open] + inside + seq![close]) + end,
{
    assert(flow ==> base + start + seq![open] + inside + seq![close] + end =~= base + start + (
    seq![open] + inside + seq![close]) + end);
    assert(!flow ==> base + start + Seq::<char>::empty() + inside + seq![open, close] + end =~= base
        + start + (seq![open] + inside + seq![close]) + end);
}

/// A node that is written in its line.
proof fn lemma_inline_written(n: NodeView, s: Sink)
    requires
        in_line(n),
        !tall(n),
        readable(n, in_flow(s)),
        s.tag is None,
        calm(s),
        n is Scalar || !at_key(s),
    ensures
        written(n, s, false).text == s.text + lead(s) + inline_text(n) + trail(s),
        kept(s, written(n, s, false)),
    decreases n, 1nat, 0nat,
{
    if n is Scalar {
        lemma_scalar_written(n, s);
    } else if n is Sequence {
        lemma_inline_sequence(n, s);
    } else {
        lemma_inline_mapping(n, s);
    }
}

proof fn lemma_inline_sequence(n: NodeView, s: Sink)
    requires
        n is Sequence,
        in_line(n),
        readable(n, in_flow(s)),
        s.tag is None,
        calm(s),
        !at_key(s),
    ensures
        written(n, s, false).text == s.text + lead(s) + inline_text(n) + trail(s),
        kept(s, written(n, s, false)),
    decreases n, 0nat, n->items.len() + 1,
{
    let k = n->items.len();
    let style = n->Sequence_style;
    let b = s.begin(style, Some(k as usize), '[');
    lemma_begin_inline(s, style, k as usize, '[');
    assert(readable(n, false));
    lemma_flow_items(n, b, k);
    let w = written_items(n, b, false, k);
    lemma_end_inline(s, b, w, '[', ']');
    lemma_sequence_parts(n, s);
    lemma_inline_text(s.text, lead(s), '[', flow_items(n->items, k), ']', trail(s), style is Flow);
}

proof fn lemma_inline_mapping(n: NodeView, s: Sink)
    requires
        n is Mapping,
        in_line(n),
        readable(n, in_flow(s)),
        s.tag is None,
        calm(s),
        !at_key(s),
    ensures
        written(n, s, false).text == s.text + lead(s) + inline_text(n) + trail(s),
        kept(s, written(n, s, false)),
    decreases n, 0nat, n->entries.len() + 1,
{
    let k = n->entries.len();
    let style = n->Mapping_style;
    let b = s.begin(style, Some(k as usize), '{');
    lemma_begin_inline(s, style, k as usize, '{');
    assert(readable(n, false));
    lemma_flow_entries(n, b, k);
    let w = written_entries(n, b, false, k);
    lemma_end_inline(s, b, w, '{', '}');
    lemma_mapping_parts(n, s);
    lemma_inline_text(s.text, lead(s), '{', flow_entries(n->entries, k), '}', trail(s), style is Flow);
}

/// At the start of the `k`th item of a flow sequence.
proof fn lemma_flow_before_item(b: Sink, p: Sink, k: nat)
    requires
        k > 0,
        b.stack.len() > 0,
        b.stack.last().style is Flow,
        flowing(b, p, (k - 1) as nat),
    ensures
        p.before_elem().text == p.text + comma(k),
        flowing(b, p.before_elem(), k),
{
    assert(p.before_elem().text =~= p.text + comma(k));
}

/// At the start of the `k`th key of a flow mapping.
proof fn lemma_flow_before_key(b: Sink, p: Sink, k: nat)
    requires
        k > 0,
        b.stack.len() > 0,
        b.stack.last().style is Flow,
        flowing(b, p, (k - 1) as nat),
    ensures
        p.before_key().text == p.text + comma(k),
        flowing(b, p.before_key(), k),
{
    assert(p.before_key().text =~= p.text + comma(k));
}

/// Behind the `: ` of a key of a flow mapping.
proof fn lemma_flow_before_value(b: Sink, p: Sink, k: nat)
    requires
        k > 0,
        b.stack.len() > 0,
        b.stack.last().style is Flow,
        flowing(b, p, k),
    ensures
        p.before_value().text == p.text + seq![':', ' '],
        flowing(b, p.before_value(), k),
{
}

/// A node in a flow collection leaves it as it was.
proof fn lemma_flowing(b: Sink, s: Sink, w: Sink, k: nat)
    requires
        b.stack.len() > 0,
        b.stack.last().style is Flow,
        flowing(b, s, k),
        kept(s, w),
    ensures
        flowing(b, w, k),
{
    assert forall|i: int| 0 <= i < b.stack.len() - 1 implies #[trigger] w.stack[i] == b.stack[i] by {
        assert(w.stack[i] == s.stack[i]);
    }
}

/// What is written in a flow collection has nothing around it.
proof fn lemma_flow_bare(b: Sink, s: Sink, k: nat)
    requires
        b.stack.len() > 0,
        b.stack.last().style is Flow,
        flowing(b, s, k),
    ensures
        in_flow(s),
        calm(s),
        !at_key(s),
        lead(s) == Seq::<char>::empty(),
        trail(s) == Seq::<char>::empty(),
{
}

/// Nothing around a text changes nothing.
proof fn lemma_bare_text(a: Seq<char>, t: Seq<char>)
    ensures
        a + Seq::<char>::empty() + t + Seq::<char>::empty() == a + t,
{
    assert(a + Seq::<char>::empty() + t + Seq::<char>::empty() =~= a + t);
}

/// How the items of a sequence are written.
proof fn lemma_items_parts(n: NodeView, b: Sink, k: nat)
    requires
        n is Sequence,
        0 < k <= n->items.len(),
    ensures
        written_items(n, b, false, k) == written(
            n->items[k - 1],
            written_items(n, b, false, (k - 1) as nat).before_elem(),
            false,
        ),
{
}

/// How the entries of a mapping are written.
proof fn lemma_entries_parts(n: NodeView, b: Sink, k: nat)
    requires
        n is Mapping,
        0 < k <= n->entries.len(),
    ensures
        written_entries(n, b, false, k) == written(
            n->entries[k - 1].1,
            written(
                n->entries[k - 1].0,
                written_entries(n, b, false, (k - 1) as nat).before_key(),
                false,
            ).before_value(),
            false,
        ),
{
    let order = write_order(n->entries, n->Mapping_style, false);
    assert(order[k - 1] == k - 1);
}

proof fn lemma_flow_items(n: NodeView, b: Sink, k: nat)
    requires
        n is Sequence,
        k <= n->items.len(),
        k > 0 ==> n->Sequence_style is Flow,
        readable(n, false),
        b.tag is None,
        b.stack.len() > 0,
        b.stack.last() == fresh_frame(n->Sequence_style, false, false),
    ensures
        written_items(n, b, false, k).text == b.text + flow_items(n->items, k),
        flowing(b, written_items(n, b, false, k), k),
    decreases n, 0nat, k,
{
    let items = n->items;
    if k > 0 {
        lemma_flow_items(n, b, (k - 1) as nat);
        let p = written_items(n, b, false, (k - 1) as nat);
        let e = p.before_elem();
        let item = items[k - 1];
        lemma_flow_before_item(b, p, k);
        lemma_flow_bare(b, e, k);
        assert(readable(item, true));
        lemma_readable_inline(item);
        lemma_inline_written(item, e);
        let w = written(item, e, false);
        lemma_bare_text(e.text, inline_text(item));
        lemma_flowing(b, e, w, k);
        lemma_items_parts(n, b, k);
        assert(b.text + flow_items(items, (k - 1) as nat) + comma(k) + inline_text(item) =~= b.text
            + (flow_items(items, (k - 1) as nat) + (comma(k) + inline_text(item))));
    } else {
        assert(b.text + flow_items(items, 0) =~= b.text);
    }
}

proof fn lemma_flow_entries(n: NodeView, b: Sink, k: nat)
    requires
        n is Mapping,
        k <= n->entries.len(),
        k > 0 ==> n->Mapping_style is Flow,
        readable(n, false),
        b.tag is None,
        b.stack.len() > 0,
        b.stack.last() == fresh_frame(n->Mapping_style, false, false),
    ensures
        written_entries(n, b, false, k).text == b.text + flow_entries(n->entries, k),
        flowing(b, written_entries(n, b, false, k), k),
    decreases n, 0nat, k,
{
    let entries = n->entries;
    if k > 0 {
        lemma_flow_entries(n, b, (k - 1) as nat);
        let p = written_entries(n, b, false, (k - 1) as nat);
        let entry = entries[k - 1];
        let e = p.before_key();
        lemma_flow_before_key(b, p, k);
        lemma_flow_bare(b, e, k);
        assert(entry.0 is Scalar && readable(entry.0, true) && readable(entry.1, true));
        lemma_scalar_written(entry.0, e);
        let key = written(entry.0, e, false);
        lemma_bare_text(e.text, inline_text(entry.0));
        lemma_flowing(b, e, key, k);
        let v = key.before_value();
        lemma_flow_before_value(b, key, k);
        lemma_flow_bare(b, v, k);
        lemma_readable_inline(entry.1);
        lemma_inline_written(entry.1, v);
        let w = written(entry.1, v, false);
        lemma_bare_text(v.text, inline_text(entry.1));
        lemma_flowing(b, v, w, k);
        lemma_entries_parts(n, b, k);
        let before = flow_entries(entries, (k - 1) as nat);
        assert(b.text + before + comma(k) + inline_text(entry.0) + seq![':', ' '] + inline_text(
            entry.1,
        ) =~= b.text + (before + (comma(k) + inline_text(entry.0) + seq![':', ' '] + inline_text(
            entry.1,
        ))));
    } else {
        assert(b.text + flow_entries(entries, 0) =~= b.text);
    }
}

/// What is readable in a flow collection is written in its line.
pub proof fn lemma_readable_inline(n: NodeView)
    requires
        readable(n, true),
    ensures
        in_line(n),
        !tall(n),
{
}

/// A block collection can be written: at the top, behind a `- ` or behind a `:`.
spec fn open_block(s: Sink) -> bool {
    s.stack.len() > 0 ==> s.stack.last().style is Block && !s.stack.last().expect_key
        && !(s.stack.last().pending is Nothing)
}

/// Whether the first entry shares the line of a `- `.
spec fn shares(s: Sink) -> bool {
    s.stack.len() > 0 && s.stack.last().pending is SeqElem
}

/// The line break behind a `:`.
spec fn opener(s: Sink) -> Seq<char> {
    if at_value(s) {
        seq!['\n']
    } else {
        seq![]
    }
}

/// A block collection that is not empty is opened.
proof fn lemma_begin_block(s: Sink, len: usize, bracket: char)
    requires
        s.tag is None,
        open_block(s),
        len > 0,
    ensures
        ({
            let b = s.begin(CollectionStyle::Block, Some(len), bracket);
            &&& b.text == s.text + opener(s)
            &&& b.tag is None
            &&& b.indent == s.indent
            &&& b.stack.len() == s.stack.len() + 1
            &&& b.stack.last() == fresh_frame(CollectionStyle::Block, shares(s), false)
            &&& kept(s, Sink { stack: b.stack.drop_last(), ..b })
        }),
{
    let b = s.begin(CollectionStyle::Block, Some(len), bracket);
    assert(b.text =~= s.text + opener(s));
}

/// The items or entries of a block collection are being written.
spec fn laying(b: Sink, w: Sink, k: nat) -> bool {
    &&& w.tag == b.tag
    &&& w.indent == b.indent
    &&& w.stack.len() == b.stack.len()
    &&& forall|i: int| 0 <= i < b.stack.len() - 1 ==> #[trigger] w.stack[i] == b.stack[i]
    &&& w.stack.last().style is Block
    &&& w.stack.last().filled == (k > 0)
    &&& !w.stack.last().open_deferred
    &&& !w.stack.last().expect_key
    &&& w.stack.last().suppress_first_indent == (k == 0 && b.stack.last().suppress_first_indent)
}

/// The indentation of the first entry.
spec fn first_margin(b: Sink, k: nat) -> Seq<char> {
    if k == 0 || b.stack.last().suppress_first_indent {
        seq![]
    } else {
        blanks(2 * (b.stack.len() - 1) as nat)
    }
}

/// At the start of the `k`th item of a block sequence.
proof fn lemma_before_item(b: Sink, p: Sink, k: nat)
    requires
        k > 0,
        b.stack.len() > 0,
        b.indent == 2,
        laying(b, p, (k - 1) as nat),
    ensures
        ({
            let e = p.before_elem();
            let level = (b.stack.len() - 1) as nat;
            &&& e.text == p.text + (if k == 1 {
                first_margin(b, 1)
            } else {
                blanks(2 * level)
            }) + seq!['-', ' ']
            &&& laying(b, e, k)
            &&& e.stack.last().pending is SeqElem
        }),
{
    let e = p.before_elem();
    let level = (b.stack.len() - 1) as nat;
    assert(level * 2 == 2 * level);
    assert(e.text =~= p.text + (if k == 1 {
        first_margin(b, 1)
    } else {
        blanks(2 * level)
    }) + seq!['-', ' ']);
}

/// At the start of the `k`th key of a block mapping.
proof fn lemma_before_entry(b: Sink, p: Sink, k: nat)
    requires
        k > 0,
        b.stack.len() > 0,
        b.indent == 2,
        laying(b, p, (k - 1) as nat),
    ensures
        ({
            let e = p.before_key();
            let level = (b.stack.len() - 1) as nat;
            &&& e.text == p.text + (if k == 1 {
                first_margin(b, 1)
            } else {
                blanks(2 * level)
            })
            &&& at_key(e)
            &&& laying(
                b,
                Sink {
                    stack: e.stack.update(
                        e.stack.len() - 1,
                        Frame { expect_key: false, ..e.stack.last() },
                    ),
                    ..e
                },
                k,
            )
        }),
{
    let e = p.before_key();
    let level = (b.stack.len() - 1) as nat;
    assert(level * 2 == 2 * level);
    assert(e.text =~= p.text + (if k == 1 {
        first_margin(b, 1)
    } else {
        blanks(2 * level)
    }));
}

/// A block collection that is not empty.
proof fn lemma_block_written(n: NodeView, s: Sink)
    requires
        !in_line(n),
        readable(n, false),
        s.tag is None,
        s.indent == 2,
        open_block(s),
    ensures
        written(n, s, false).text == s.text + opener(s) + (if shares(s) {
            seq![]
        } else {
            blanks(2 * s.stack.len())
        }) + block_text(n, s.stack.len()),
        kept(s, written(n, s, false)),
    decreases n, 1nat, 0nat,
{
    if n is Sequence {
        let k = n->items.len();
        let b = s.begin(CollectionStyle::Block, Some(k as usize), '[');
        lemma_begin_block(s, k as usize, '[');
        lemma_block_items(n, b, k);
        let w = written_items(n, b, false, k);
        lemma_sequence_parts(n, s);
        lemma_end_block(s, b, w, '[', ']');
    } else {
        let k = n->entries.len();
        let b = s.begin(CollectionStyle::Block, Some(k as usize), '{');
        lemma_begin_block(s, k as usize, '{');
        lemma_block_entries(n, b, k);
        let w = written_entries(n, b, false, k);
        lemma_mapping_parts(n, s);
        lemma_end_block(s, b, w, '{', '}');
    }
}

/// A block collection that is not empty is closed.
proof fn lemma_end_block(s: Sink, b: Sink, w: Sink, open: char, close: char)
    requires
        b.stack.len() == s.stack.len() + 1,
        kept(s, Sink { stack: b.stack.drop_last(), ..b }),
        laying(b, w, 1),
    ensures
        kept(s, w.end(open, close)),
        w.end(open, close).text == w.text,
{
    assert(w.stack.drop_last() =~= b.stack.drop_last());
}

/// A node behind a `- ` or a `:`.
proof fn lemma_node_written(n: NodeView, e: Sink, level: nat)
    requires
        readable(n, false),
        e.tag is None,
        e.indent == 2,
        e.stack.len() == level + 1,
        e.stack.last().style is Block,
        !e.stack.last().expect_key,
        !(e.stack.last().pending is Nothing),
    ensures
        written(n, e, false).text == e.text + if shares(e) {
            item_text(n, level)
        } else {
            value_text(n, level)
        },
        kept(e, written(n, e, false)),
    decreases n, 2nat, 0nat,
{
    if tall(n) {
        lemma_tall_written(n, e);
    } else if in_line(n) {
        lemma_inline_written(n, e);
        assert(written(n, e, false).text =~= e.text + if shares(e) {
            item_text(n, level)
        } else {
            value_text(n, level)
        });
    } else {
        lemma_block_written(n, e);
        assert(written(n, e, false).text =~= e.text + if shares(e) {
            item_text(n, level)
        } else {
            value_text(n, level)
        });
    }
}

proof fn lemma_block_items(n: NodeView, b: Sink, k: nat)
    requires
        n is Sequence,
        n->Sequence_style is Block,
        k <= n->items.len(),
        readable(n, false),
        b.tag is None,
        b.indent == 2,
        b.stack.len() > 0,
        b.stack.last() == fresh_frame(
            CollectionStyle::Block,
            b.stack.last().suppress_first_indent,
            false,
        ),
    ensures
        written_items(n, b, false, k).text == b.text + first_margin(b, k) + block_items(
            n->items,
            k,
            (b.stack.len() - 1) as nat,
        ),
        laying(b, written_items(n, b, false, k), k),
    decreases n, 0nat, k,
{
    let items = n->items;
    let level = (b.stack.len() - 1) as nat;
    if k > 0 {
        lemma_block_items(n, b, (k - 1) as nat);
        let p = written_items(n, b, false, (k - 1) as nat);
        let e = p.before_elem();
        lemma_before_item(b, p, k);
        assert(readable(items[k - 1], false));
        lemma_node_written(items[k - 1], e, level);
        lemma_items_parts(n, b, k);
        lemma_item_text(b, items, k, level, p.text, e.text);
    } else {
        assert(b.text + first_margin(b, 0) + block_items(items, 0, level) =~= b.text);
    }
}

proof fn lemma_item_text(
    b: Sink,
    items: Seq<NodeView>,
    k: nat,
    level: nat,
    before: Seq<char>,
    text: Seq<char>,
)
    requires
        0 < k <= items.len(),
        level == b.stack.len() - 1,
        before == b.text + first_margin(b, (k - 1) as nat) + block_items(
            items,
            (k - 1) as nat,
            level,
        ),
        text == before + (if k == 1 {
            first_margin(b, 1)
        } else {
            blanks(2 * level)
        }) + seq!['-', ' '],
    ensures
        text + item_text(items[k - 1], level) == b.text + first_margin(b, k) + block_items(
            items,
            k,
            level,
        ),
{
    assert(text + item_text(items[k - 1], level) =~= b.text + first_margin(b, k) + block_items(
        items,
        k,
        level,
    ));
}

proof fn lemma_block_entries(n: NodeView, b: Sink, k: nat)
    requires
        n is Mapping,
        n->Mapping_style is Block,
        k <= n->entries.len(),
        readable(n, false),
        b.tag is None,
        b.indent == 2,
        b.stack.len() > 0,
        b.stack.last() == fresh_frame(
            CollectionStyle::Block,
            b.stack.last().suppress_first_indent,
            false,
        ),
    ensures
        written_entries(n, b, false, k).text == b.text + first_margin(b, k) + block_entries(
            n->entries,
            k,
            (b.stack.len() - 1) as nat,
        ),
        laying(b, written_entries(n, b, false, k), k),
    decreases n, 0nat, k,
{
    let entries = n->entries;
    let level = (b.stack.len() - 1) as nat;
    if k > 0 {
        lemma_block_entries(n, b, (k - 1) as nat);
        let p = written_entries(n, b, false, (k - 1) as nat);
        let entry = entries[k - 1];
        assert(entry.0 is Scalar && !tall(entry.0) && readable(entry.0, false) && readable(
            entry.1,
            false,
        ));
        let e = p.before_key();
        lemma_before_entry(b, p, k);
        lemma_scalar_written(entry.0, e);
        let key = written(entry.0, e, false);
        let v = key.before_value();
        lemma_value_start(b, e, key, k);
        lemma_node_written(entry.1, v, level);
        lemma_entries_parts(n, b, k);
        lemma_entry_text(b, entries, k, level, p.text, e.text);
    } else {
        assert(b.text + first_margin(b, 0) + block_entries(entries, 0, level) =~= b.text);
    }
}

/// Behind the `:` of a key of a block mapping.
proof fn lemma_value_start(b: Sink, e: Sink, key: Sink, k: nat)
    requires
        at_key(e),
        kept(e, key),
        laying(
            b,
            Sink {
                stack: e.stack.update(
                    e.stack.len() - 1,
                    Frame { expect_key: false, ..e.stack.last() },
                ),
                ..e
            },
            k,
        ),
    ensures
        ({
            let v = key.before_value();
            &&& v.text == key.text + seq![':']
            &&& laying(b, v, k)
            &&& v.stack.last().pending is MapValue
        }),
{
    let v = key.before_value();
    let calmed = e.stack.update(
        e.stack.len() - 1,
        Frame { expect_key: false, ..e.stack.last() },
    );
    assert forall|i: int| 0 <= i < b.stack.len() - 1 implies #[trigger] v.stack[i]
        == b.stack[i] by {
        assert(calmed[i] == b.stack[i]);
        assert(key.stack[i] == e.stack[i]);
    }
}

proof fn lemma_entry_text(
    b: Sink,
    entries: Seq<(NodeView, NodeView)>,
    k: nat,
    level: nat,
    before: Seq<char>,
    text: Seq<char>,
)
    requires
        0 < k <= entries.len(),
        level == b.stack.len() - 1,
        before == b.text + first_margin(b, (k - 1) as nat) + block_entries(
            entries,
            (k - 1) as nat,
            level,
        ),
        text == before + (if k == 1 {
            first_margin(b, 1)
        } else {
            blanks(2 * level)
        }),
    ensures
        text + Seq::<char>::empty() + inline_text(entries[k - 1].0) + Seq::<char>::empty() + seq![
            ':',
        ] + value_text(entries[k - 1].1, level) == b.text + first_margin(b, k) + block_entries(
            entries,
            k,
            level,
        ),
{
    assert(text + Seq::<char>::empty() + inline_text(entries[k - 1].0) + Seq::<char>::empty()
        + seq![':'] + value_text(entries[k - 1].1, level) =~= b.text + first_margin(b, k)
        + block_entries(entries, k, level));
}

/// The emitter writes a document as its pieces say.
pub proof fn lemma_document_text(n: NodeView, config: EmitterConfig)
    requires
        readable(n, false),
        config.indent == 2,
        !config.sort_keys,
    ensures
        document_text(n, config, seq![]) == if config.explicit_document {
            "---\n"@ + root_text(n) + "...\n"@
        } else {
            root_text(n)
        },
{
    let none = Seq::<char>::empty();
    let head = if config.explicit_document {
        none + "---\n"@
    } else {
        none
    };
    let s = Sink {
        text: head,
        newline: false,
        stack: seq![],
        tag: None,
        indent: config.indent as nat,
    };
    if tall(n) {
        lemma_tall_written(n, s);
    } else if in_line(n) {
        lemma_inline_written(n, s);
    } else {
        lemma_block_written(n, s);
    }
    assert(written(n, s, false).text =~= head + root_text(n));
    assert(none + "---\n"@ =~= "---\n"@);
    assert(none + root_text(n) =~= root_text(n));
}

} // verus!
