//! YAML emitter.
//!
//! Converts a [`Node`] tree back into formatted YAML text.
//! Supports configurable output styles (block/flow, indentation, key order).
pub mod arrange;
pub mod forms;
pub mod lines;
pub mod roundtrip;
pub mod scalar;
pub mod sink;

pub use crate::emitter::sink::Emitter;
use crate::emitter::sink::Sink;
use crate::node::{
    entry_values, lemma_mapping_value, lemma_sequence_value, node_values, Mapping, Node, NodeView,
};
use crate::order::{law_lex_order, lex_lt, text_before};
use crate::text::cow_str;
use crate::types::CollectionStyle;
use vstd::prelude::*;
use vstd::string::*;
use vstd::utf8::encode_utf8;

verus! {

/// Configuration for the YAML emitter.
#[derive(Debug, Clone, Copy, PartialEq, Eq, Structural)]
pub struct EmitterConfig {
    /// Spaces per indent level. Default: 2.
    pub indent: u8,
    /// Soft line width target for flow style. Default: 80.
    pub line_width: u16,
    /// Prefer block style for collections. Default: true.
    pub prefer_block: bool,
    /// Alphabetically sort mapping keys. Default: false.
    pub sort_keys: bool,
    /// Emit explicit document markers (`---` / `...`). Default: false.
    pub explicit_document: bool,
}

impl Default for EmitterConfig {
    fn default() -> (r: Self)
        ensures
            r == (EmitterConfig {
                indent: 2,
                line_width: 80,
                prefer_block: true,
                sort_keys: false,
                explicit_document: false,
            }),
    {
        Self {
            indent: 2,
            line_width: 80,
            prefer_block: true,
            sort_keys: false,
            explicit_document: false,
        }
    }
}

// ─── Key order ──────────────────────────────────────────────────────

/// The sort key of an entry: the text of a scalar key, empty for other keys.
pub open spec fn sort_key(e: (NodeView, NodeView)) -> Seq<u8> {
    match e.0.as_str() {
        Some(s) => encode_utf8(s),
        None => encode_utf8(""@),
    }
}

/// Index `k` inserted behind all indices whose key does not come after its own.
pub open spec fn insert_index(keys: Seq<Seq<u8>>, order: Seq<int>, k: int) -> Seq<int>
    decreases order.len(),
{
    if order.len() > 0 && lex_lt(keys[k], keys[order.last()]) {
        insert_index(keys, order.drop_last(), k).push(order.last())
    } else {
        order.push(k)
    }
}

/// The first `n` indices, sorted by their keys; equal keys keep their order.
pub open spec fn sorted_indices(keys: Seq<Seq<u8>>, n: nat) -> Seq<int>
    decreases n,
{
    if n == 0 {
        seq![]
    } else {
        insert_index(keys, sorted_indices(keys, (n - 1) as nat), n - 1)
    }
}

/// The order in which the entries of a mapping are written: sorted by key if
/// asked for and the mapping is a block mapping, as they stand otherwise.
pub open spec fn write_order(
    entries: Seq<(NodeView, NodeView)>,
    style: CollectionStyle,
    sort: bool,
) -> Seq<int> {
    if sort && style is Block {
        sorted_indices(
            Seq::new(entries.len(), |i: int| sort_key(entries[i])),
            entries.len(),
        )
    } else {
        Seq::new(entries.len(), |i: int| i)
    }
}

/// Whether index `i` is written before index `j`.
pub open spec fn written_before(keys: Seq<Seq<u8>>, i: int, j: int) -> bool {
    lex_lt(keys[i], keys[j]) || (keys[i] == keys[j] && i < j)
}

/// Sorting writes each index once, smaller keys first, and keeps the order of
/// entries with equal keys.
pub proof fn law_sorted_indices(keys: Seq<Seq<u8>>, n: nat)
    requires
        n <= keys.len(),
    ensures
        sorted_indices(keys, n).len() == n,
        forall|i: int| 0 <= i < n ==> 0 <= #[trigger] sorted_indices(keys, n)[i] < n,
        forall|i: int, j: int|
            0 <= i < j < n ==> written_before(
                keys,
                #[trigger] sorted_indices(keys, n)[i],
                #[trigger] sorted_indices(keys, n)[j],
            ),
    decreases n,
{
    if n > 0 {
        law_sorted_indices(keys, (n - 1) as nat);
        lemma_insert_index(keys, sorted_indices(keys, (n - 1) as nat), n - 1);
    }
}

proof fn lemma_insert_index(keys: Seq<Seq<u8>>, order: Seq<int>, k: int)
    requires
        0 <= k < keys.len(),
        forall|i: int| 0 <= i < order.len() ==> 0 <= #[trigger] order[i] < k,
        forall|i: int, j: int|
            0 <= i < j < order.len() ==> written_before(keys, #[trigger] order[i], #[trigger] order[j]),
    ensures
        ({
            let r = insert_index(keys, order, k);
            &&& r.len() == order.len() + 1
            &&& forall|i: int| 0 <= i < r.len() ==> 0 <= #[trigger] r[i] <= k
            &&& forall|i: int|
                0 <= i < r.len() ==> #[trigger] r[i] == k || order.contains(r[i])
            &&& forall|i: int, j: int|
                0 <= i < j < r.len() ==> written_before(keys, #[trigger] r[i], #[trigger] r[j])
        }),
    decreases order.len(),
{
    let r = insert_index(keys, order, k);
    if order.len() > 0 && lex_lt(keys[k], keys[order.last()]) {
        let init = order.drop_last();
        let l = order.last();
        assert(forall|i: int| 0 <= i < init.len() ==> init[i] == order[i]);
        lemma_insert_index(keys, init, k);
        let q = insert_index(keys, init, k);
        assert(r == q.push(l));
        assert forall|i: int| 0 <= i < r.len() implies #[trigger] r[i] == k || order.contains(
            r[i],
        ) by {
            if i < q.len() {
                if q[i] != k {
                    let j = choose|j: int| 0 <= j < init.len() && init[j] == q[i];
                    assert(order[j] == r[i]);
                }
            } else {
                assert(order[order.len() - 1] == l);
            }
        }
        assert forall|i: int, j: int| 0 <= i < j < r.len() implies written_before(
            keys,
            #[trigger] r[i],
            #[trigger] r[j],
        ) by {
            if j == q.len() {
                if q[i] != k {
                    let m = choose|m: int| 0 <= m < init.len() && init[m] == q[i];
                    assert(written_before(keys, order[m], order[order.len() - 1]));
                }
            } else {
                assert(written_before(keys, q[i], q[j]));
            }
        }
    } else {
        assert forall|i: int| 0 <= i < r.len() implies #[trigger] r[i] == k || order.contains(
            r[i],
        ) by {
            if i < order.len() {
                assert(order[i] == r[i]);
            }
        }
        assert forall|i: int, j: int| 0 <= i < j < r.len() implies written_before(
            keys,
            #[trigger] r[i],
            #[trigger] r[j],
        ) by {
            if j == order.len() {
                let l = order.last();
                law_lex_order(keys[order[i]], keys[l], keys[k]);
                law_lex_order(keys[k], keys[l], keys[l]);
                if i < order.len() - 1 {
                    assert(written_before(keys, order[i], order[order.len() - 1]));
                }
            } else {
                assert(written_before(keys, order[i], order[j]));
            }
        }
    }
}

// ─── Nodes ──────────────────────────────────────────────────────────

/// The number of children of a node, plus one.
pub open spec fn breadth(n: NodeView) -> nat {
    match n {
        NodeView::Scalar { .. } => 1,
        NodeView::Sequence { items, .. } => items.len() + 1,
        NodeView::Mapping { entries, .. } => entries.len() + 1,
    }
}

/// What a sink holds after a node was written to it.
pub open spec fn written(n: NodeView, s: Sink, sort: bool) -> Sink
    decreases n, breadth(n),
{
    let t = match n.tag() {
        Some(tag) => Sink { tag: Some(tag.value), ..s },
        None => s,
    };
    match n {
        NodeView::Scalar { value, style, .. } => t.scalar(value, style),
        NodeView::Sequence { items, style, .. } => written_items(
            n,
            t.begin(style, Some(items.len() as usize), '['),
            sort,
            items.len(),
        ).end('[', ']'),
        NodeView::Mapping { entries, style, .. } => written_entries(
            n,
            t.begin(style, Some(entries.len() as usize), '{'),
            sort,
            entries.len(),
        ).end('{', '}'),
    }
}

/// What a sink holds after the first `k` items of a sequence.
pub open spec fn written_items(n: NodeView, s: Sink, sort: bool, k: nat) -> Sink
    decreases n, k,
{
    match n {
        NodeView::Sequence { items, .. } => if 0 < k <= items.len() {
            written(
                items[k - 1],
                written_items(n, s, sort, (k - 1) as nat).before_elem(),
                sort,
            )
        } else {
            s
        },
        _ => s,
    }
}

/// What a sink holds after `k` entries of a mapping, in the order of writing.
pub open spec fn written_entries(n: NodeView, s: Sink, sort: bool, k: nat) -> Sink
    decreases n, k,
{
    match n {
        NodeView::Mapping { entries, style, .. } => {
            let order = write_order(entries, style, sort);
            if 0 < k <= entries.len() && 0 <= order[k - 1] < entries.len() {
                let e = entries[order[k - 1]];
                written(
                    e.1,
                    written(
                        e.0,
                        written_entries(n, s, sort, (k - 1) as nat).before_key(),
                        sort,
                    ).before_value(),
                    sort,
                )
            } else {
                s
            }
        },
        _ => s,
    }
}

/// The text of a whole document behind `base`.
pub open spec fn document_text(n: NodeView, config: EmitterConfig, base: Seq<char>) -> Seq<char> {
    let head = if config.explicit_document {
        base + "---\n"@
    } else {
        base
    };
    let s = Sink {
        text: head,
        newline: false,
        stack: seq![],
        tag: None,
        indent: config.indent as nat,
    };
    let body = written(n, s, config.sort_keys).text;
    if config.explicit_document {
        body + "...\n"@
    } else {
        body
    }
}

/// Emits a [`Node`] tree as a YAML string.
#[must_use]
pub fn emit_to_string(node: &Node<'_>, config: &EmitterConfig) -> (r: String)
    ensures
        r@ == document_text(node@, *config, seq![]),
{
    let mut out = String::new();
    emit(node, config, &mut out);
    out
}

/// Appends a [`Node`] tree to a text.
///
/// Layout lives entirely in the push [`sink::Emitter`]; this is a thin
/// recursive walk (`drive_node`) that drives that sink. The optional
/// `explicit_document` markers (`---` / `...`) are written around the body.
pub fn emit(node: &Node<'_>, config: &EmitterConfig, writer: &mut String)
    ensures
        final(writer)@ == document_text(node@, *config, old(writer)@),
{
    let mut out = String::new();
    out.append(writer.as_str());
    assert(out@ =~= writer@);
    if config.explicit_document {
        out.append("---\n");
    }
    let mut sink = Emitter::new(out, config);
    drive_node(node, &mut sink, config);
    let mut out = sink.finish();
    if config.explicit_document {
        out.append("...\n");
    }
    *writer = out;
}

/// Closing a collection leaves one less open.
proof fn lemma_end_depth(s: Sink, open: char, close: char)
    requires
        s.stack.len() > 0,
    ensures
        s.end(open, close).stack.len() == s.stack.len() - 1,
{
}

/// Writing a node leaves as many collections open as before.
proof fn lemma_written_depth(n: NodeView, s: Sink, sort: bool)
    ensures
        written(n, s, sort).stack.len() == s.stack.len(),
    decreases n, breadth(n),
{
    let t = match n.tag() {
        Some(tag) => Sink { tag: Some(tag.value), ..s },
        None => s,
    };
    match n {
        NodeView::Scalar { .. } => {},
        NodeView::Sequence { items, style, .. } => {
            let b = t.begin(style, Some(items.len() as usize), '[');
            assert(b.stack.len() == s.stack.len() + 1);
            lemma_items_depth(n, b, sort, items.len());
            lemma_end_depth(written_items(n, b, sort, items.len()), '[', ']');
        },
        NodeView::Mapping { entries, style, .. } => {
            let b = t.begin(style, Some(entries.len() as usize), '{');
            assert(b.stack.len() == s.stack.len() + 1);
            lemma_entries_depth(n, b, sort, entries.len());
            lemma_end_depth(written_entries(n, b, sort, entries.len()), '{', '}');
        },
    }
}

proof fn lemma_items_depth(n: NodeView, s: Sink, sort: bool, k: nat)
    requires
        s.stack.len() > 0,
    ensures
        written_items(n, s, sort, k).stack.len() == s.stack.len(),
    decreases n, k,
{
    if let NodeView::Sequence { items, .. } = n {
        if 0 < k <= items.len() {
            lemma_items_depth(n, s, sort, (k - 1) as nat);
            lemma_written_depth(
                items[k - 1],
                written_items(n, s, sort, (k - 1) as nat).before_elem(),
                sort,
            );
        }
    }
}

proof fn lemma_entries_depth(n: NodeView, s: Sink, sort: bool, k: nat)
    requires
        s.stack.len() > 0,
    ensures
        written_entries(n, s, sort, k).stack.len() == s.stack.len(),
    decreases n, k,
{
    if let NodeView::Mapping { entries, style, .. } = n {
        let order = write_order(entries, style, sort);
        if 0 < k <= entries.len() && 0 <= order[k - 1] < entries.len() {
            let e = entries[order[k - 1]];
            let s1 = written_entries(n, s, sort, (k - 1) as nat).before_key();
            lemma_entries_depth(n, s, sort, (k - 1) as nat);
            lemma_written_depth(e.0, s1, sort);
            lemma_written_depth(e.1, written(e.0, s1, sort).before_value(), sort);
        }
    }
}

/// Thin recursive walk that drives the push [`sink::Emitter`]. Emits a node's
/// tag (if any) first, then the node value via the sink's imperative API.
fn drive_node(node: &Node<'_>, e: &mut Emitter<'_>, config: &EmitterConfig)
    ensures
        final(e)@ == written(node@, old(e)@, config.sort_keys),
    decreases node,
{
    let ghost s0 = e@;
    if let Some(tag) = node.tag() {
        e.tag(cow_str(&tag.value));
    }
    let ghost t = e@;
    match node {
        Node::Scalar(s) => {
            e.scalar(cow_str(&s.value), s.style);
        },
        Node::Sequence(seq) => {
            let n: usize = seq.items.len();
            proof {
                lemma_sequence_value(*seq);
            }
            e.begin_seq(seq.style, Some(n));
            let ghost b = e@;
            let mut i: usize = 0;
            while i < n
                invariant
                    i <= n,
                    n == seq.items@.len(),
                    node is Sequence,
                    *seq == node->Sequence_0,
                    node@ is Sequence,
                    node@->items == node_values(seq.items@),
                    b.stack.len() > 0,
                    e@ == written_items(node@, b, config.sort_keys, i as nat),
                decreases n - i,
            {
                proof {
                    lemma_items_depth(node@, b, config.sort_keys, i as nat);
                }
                e.before_elem();
                drive_node(&seq.items[i], e, config);
                i += 1;
            }
            proof {
                lemma_items_depth(node@, b, config.sort_keys, n as nat);
            }
            e.end_seq();
        },
        Node::Mapping(map) => {
            let n: usize = map.entries.len();
            proof {
                lemma_mapping_value(*map);
            }
            e.begin_map(map.style, Some(n));
            let ghost b = e@;
            let order = entry_order(map, config);
            let mut i: usize = 0;
            while i < n
                invariant
                    i <= n,
                    n == map.entries@.len(),
                    node is Mapping,
                    *map == node->Mapping_0,
                    node@ is Mapping,
                    node@->entries == entry_values(map.entries@),
                    node@->Mapping_style == map.style,
                    b.stack.len() > 0,
                    order@.len() == n,
                    forall|j: int| 0 <= j < n ==> #[trigger] order@[j] < n,
                    forall|j: int|
                        0 <= j < n ==> #[trigger] order@[j] == write_order(
                            entry_values(map.entries@),
                            map.style,
                            config.sort_keys,
                        )[j],
                    e@ == written_entries(node@, b, config.sort_keys, i as nat),
                decreases n - i,
            {
                let idx: usize = order[i];
                let ghost s1 = e@.before_key();
                proof {
                    lemma_entries_depth(node@, b, config.sort_keys, i as nat);
                    lemma_written_depth(map.entries@[idx as int].0@, s1, config.sort_keys);
                }
                e.before_key();
                drive_node(&map.entries[idx].0, e, config);
                e.before_value();
                drive_node(&map.entries[idx].1, e, config);
                i += 1;
            }
            proof {
                lemma_entries_depth(node@, b, config.sort_keys, n as nat);
            }
            e.end_map();
        },
    }
}

/// The sort key of an entry.
fn key_text<'b>(n: &'b Node<'_>) -> (r: &'b str)
    ensures
        encode_utf8(r@) == (match n@.as_str() {
            Some(s) => encode_utf8(s),
            None => encode_utf8(""@),
        }),
{
    match n.as_str() {
        Some(s) => s,
        None => "",
    }
}

/// Visit order for a mapping's entries. When `sort_keys` is set, scalar keys of
/// a block mapping sort by their string value (non-scalar keys collapse to
/// `""`), preserving relative order. Flow mappings keep source order.
fn entry_order(map: &Mapping<'_>, config: &EmitterConfig) -> (r: Vec<usize>)
    ensures
        r@.len() == map.entries@.len(),
        forall|i: int| 0 <= i < r@.len() ==> #[trigger] r@[i] < map.entries@.len(),
        forall|i: int|
            0 <= i < r@.len() ==> #[trigger] r@[i] == write_order(
                entry_values(map.entries@),
                map.style,
                config.sort_keys,
            )[i],
{
    let n: usize = map.entries.len();
    let sort = config.sort_keys && map.style == CollectionStyle::Block;
    let ghost entries = entry_values(map.entries@);
    let ghost keys = Seq::new(entries.len(), |i: int| sort_key(entries[i]));
    let mut order: Vec<usize> = Vec::new();
    let mut k: usize = 0;
    while k < n
        invariant
            k <= n,
            n == map.entries@.len(),
            entries == entry_values(map.entries@),
            keys == Seq::new(entries.len(), |i: int| sort_key(entries[i])),
            order@.len() == k,
            forall|i: int| 0 <= i < k ==> #[trigger] order@[i] < k,
            sort ==> as_ints(order@) == sorted_indices(keys, k as nat),
            !sort ==> forall|i: int| 0 <= i < k ==> #[trigger] order@[i] == i,
        decreases n - k,
    {
        if sort {
            place(map, &mut order, k, Ghost(keys));
            proof {
                law_sorted_indices(keys, (k + 1) as nat);
                assert forall|i: int| 0 <= i < k + 1 implies #[trigger] order@[i] < k + 1 by {
                    assert(as_ints(order@)[i] == order@[i]);
                }
            }
        } else {
            order.push(k);
        }
        k += 1;
    }
    proof {
        if sort {
            assert forall|i: int| 0 <= i < n implies #[trigger] order@[i] == sorted_indices(
                keys,
                n as nat,
            )[i] by {
                assert(as_ints(order@)[i] == order@[i]);
            }
        }
    }
    order
}

/// Indices as integers.
spec fn as_ints(s: Seq<usize>) -> Seq<int> {
    Seq::new(s.len(), |i: int| s[i] as int)
}

/// Inserts index `k` behind all indices whose key does not come after its own.
fn place(map: &Mapping<'_>, order: &mut Vec<usize>, k: usize, Ghost(keys): Ghost<Seq<Seq<u8>>>)
    requires
        k < map.entries@.len(),
        keys.len() == map.entries@.len(),
        forall|i: int|
            0 <= i < keys.len() ==> #[trigger] keys[i] == sort_key(entry_values(map.entries@)[i]),
        forall|i: int| 0 <= i < old(order)@.len() ==> #[trigger] old(order)@[i] < k,
    ensures
        as_ints(final(order)@) == insert_index(keys, as_ints(old(order)@), k as int),
        final(order)@.len() == old(order)@.len() + 1,
{
    let ghost full = as_ints(order@);
    let ghost goal = insert_index(keys, full, k as int);
    let mut p: usize = order.len();
    assert(full.take(p as int) =~= full);
    assert(full.skip(p as int) =~= Seq::<int>::empty());
    assert(goal + full.skip(p as int) =~= goal);
    while p > 0 && text_before(
        key_text(&map.entries[k].0),
        key_text(&map.entries[order[p - 1]].0),
    )
        invariant
            p <= order@.len(),
            k < map.entries@.len(),
            keys.len() == map.entries@.len(),
            forall|i: int|
                0 <= i < keys.len() ==> #[trigger] keys[i] == sort_key(
                    entry_values(map.entries@)[i],
                ),
            forall|i: int| 0 <= i < order@.len() ==> #[trigger] order@[i] < k,
            order@ == old(order)@,
            full == as_ints(order@),
            goal == insert_index(keys, full.take(p as int), k as int) + full.skip(p as int),
        decreases p,
    {
        proof {
            let t = full.take(p as int);
            assert(t.last() == full[p - 1]);
            assert(t.drop_last() =~= full.take(p - 1));
            assert(keys[k as int] == sort_key(entry_values(map.entries@)[k as int]));
            assert(keys[order@[p - 1] as int] == sort_key(
                entry_values(map.entries@)[order@[p - 1] as int],
            ));
            assert(seq![full[p - 1]] + full.skip(p as int) =~= full.skip(p - 1));
            let q = insert_index(keys, full.take(p - 1), k as int);
            assert(q.push(full[p - 1]) + full.skip(p as int) =~= q + full.skip(p - 1));
        }
        p -= 1;
    }
    proof {
        if p > 0 {
            let t = full.take(p as int);
            assert(t.last() == full[p - 1]);
            assert(keys[k as int] == sort_key(entry_values(map.entries@)[k as int]));
            assert(keys[order@[p - 1] as int] == sort_key(
                entry_values(map.entries@)[order@[p - 1] as int],
            ));
        }
        assert(goal =~= full.take(p as int).push(k as int) + full.skip(p as int));
    }
    order.insert(p, k);
    assert(as_ints(order@) =~= goal);
}

} // verus!
