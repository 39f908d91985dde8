//! Sorted keys: a node written with its keys sorted is written as the node whose entries
//! stand in that order.
use crate::emitter::sink::Sink;
use crate::emitter::{
    document_text, law_sorted_indices, sort_key, write_order, written, written_entries,
    written_items, EmitterConfig,
};
use crate::node::NodeView;
use crate::order::lex_lt;
use crate::types::CollectionStyle;
use vstd::prelude::*;
use vstd::utf8::encode_utf8;

verus! {

/// What an entry is sorted by: the bytes of its key, none for a key that is no scalar.
pub open spec fn bytes_of_key(e: (NodeView, NodeView)) -> Seq<u8> {
    if e.0 is Scalar {
        encode_utf8(e.0->Scalar_value)
    } else {
        seq![]
    }
}

/// Whether some indices name each entry once, those with smaller keys first, and of two
/// with the same key the earlier one first.
pub open spec fn by_key(entries: Seq<(NodeView, NodeView)>, order: Seq<int>) -> bool {
    &&& order.len() == entries.len()
    &&& forall|i: int| 0 <= i < order.len() ==> 0 <= #[trigger] order[i] < entries.len()
    &&& forall|i: int, j: int|
        0 <= i < j < order.len() ==> lex_lt(
            bytes_of_key(entries[#[trigger] order[i]]),
            bytes_of_key(entries[#[trigger] order[j]]),
        ) || (bytes_of_key(entries[order[i]]) == bytes_of_key(entries[order[j]]) && order[i]
            < order[j])
}

/// The node with the entries of each block mapping in the order of their keys.
pub open spec fn arranged(n: NodeView) -> NodeView
    decreases n,
{
    match n {
        NodeView::Scalar { .. } => n,
        NodeView::Sequence { items, tag, style, span } => NodeView::Sequence {
            items: Seq::new(
                items.len(),
                |i: int|
                    if 0 <= i < items.len() {
                        arranged(items[i])
                    } else {
                        arbitrary()
                    },
            ),
            tag,
            style,
            span,
        },
        NodeView::Mapping { entries, tag, style, span } => {
            let order = if style is Block {
                choose|order: Seq<int>| by_key(entries, order)
            } else {
                Seq::new(entries.len(), |i: int| i)
            };
            NodeView::Mapping {
                entries: Seq::new(
                    entries.len(),
                    |i: int|
                        if 0 <= i < order.len() && 0 <= order[i] < entries.len() {
                            (arranged(entries[order[i]].0), arranged(entries[order[i]].1))
                        } else {
                            arbitrary()
                        },
                ),
                tag,
                style,
                span,
            }
        },
    }
}

/// The order of writing is an order by key.
proof fn lemma_write_order(entries: Seq<(NodeView, NodeView)>)
    ensures
        by_key(entries, write_order(entries, CollectionStyle::Block, true)),
{
    let keys = Seq::new(entries.len(), |i: int| sort_key(entries[i]));
    let order = write_order(entries, CollectionStyle::Block, true);
    law_sorted_indices(keys, entries.len());
    reveal_strlit("");
    assert(""@ =~= Seq::<char>::empty());
    assert(encode_utf8(""@) =~= Seq::<u8>::empty()) by {
        reveal_with_fuel(encode_utf8, 1);
    }
    assert forall|i: int| 0 <= i < entries.len() implies #[trigger] keys[i] == bytes_of_key(
        entries[i],
    ) by {}
    assert forall|i: int, j: int| 0 <= i < j < order.len() implies lex_lt(
        bytes_of_key(entries[#[trigger] order[i]]),
        bytes_of_key(entries[#[trigger] order[j]]),
    ) || (bytes_of_key(entries[order[i]]) == bytes_of_key(entries[order[j]]) && order[i]
        < order[j]) by {
        assert(crate::emitter::written_before(keys, order[i], order[j]));
        assert(keys[order[i]] == bytes_of_key(entries[order[i]]));
        assert(keys[order[j]] == bytes_of_key(entries[order[j]]));
    }
}

/// Whether one entry comes before another.
spec fn precedes(entries: Seq<(NodeView, NodeView)>, a: int, b: int) -> bool {
    lex_lt(bytes_of_key(entries[a]), bytes_of_key(entries[b])) || (bytes_of_key(entries[a])
        == bytes_of_key(entries[b]) && a < b)
}

/// There is one order by key.
proof fn lemma_one_order(entries: Seq<(NodeView, NodeView)>, p: Seq<int>, q: Seq<int>)
    requires
        by_key(entries, p),
        by_key(entries, q),
    ensures
        p == q,
{
    let n = entries.len() as int;
    assert forall|i: int| 0 <= i < n implies p[i] == q[i] by {
        lemma_same_index(entries, p, q, i);
    }
    assert(p =~= q);
}

proof fn lemma_same_index(
    entries: Seq<(NodeView, NodeView)>,
    p: Seq<int>,
    q: Seq<int>,
    i: int,
)
    requires
        by_key(entries, p),
        by_key(entries, q),
        0 <= i < entries.len(),
    ensures
        p[i] == q[i],
    decreases i,
{
    assert forall|j: int| 0 <= j < i implies p[j] == q[j] by {
        lemma_same_index(entries, p, q, j);
    }
    let a = lemma_position(entries, q, p[i]);
    let b = lemma_position(entries, p, q[i]);
    if p[i] != q[i] {
        if a < i {
            assert(p[a] == q[a]);
            lemma_strict(entries, p[a], p[i]);
        }
        if b < i {
            assert(p[b] == q[b]);
            lemma_strict(entries, q[b], q[i]);
        }
        assert(a > i && b > i);
        assert(precedes(entries, q[i], q[a]));
        assert(precedes(entries, p[i], p[b]));
        crate::order::law_lex_order(
            bytes_of_key(entries[p[i]]),
            bytes_of_key(entries[q[i]]),
            bytes_of_key(entries[p[i]]),
        );
        crate::order::law_lex_order(
            bytes_of_key(entries[q[i]]),
            bytes_of_key(entries[p[i]]),
            bytes_of_key(entries[q[i]]),
        );
    }
}

proof fn lemma_strict(entries: Seq<(NodeView, NodeView)>, a: int, b: int)
    ensures
        precedes(entries, a, b) ==> a != b,
{
    crate::order::law_lex_order(
        bytes_of_key(entries[a]),
        bytes_of_key(entries[a]),
        bytes_of_key(entries[a]),
    );
}

/// Where an order names an entry.
proof fn lemma_position(entries: Seq<(NodeView, NodeView)>, order: Seq<int>, x: int) -> (at: int)
    requires
        by_key(entries, order),
        0 <= x < entries.len(),
    ensures
        0 <= at < order.len(),
        order[at] == x,
{
    let n = entries.len();
    assert(order.no_duplicates()) by {
        assert forall|i: int, j: int| 0 <= i < order.len() && 0 <= j < order.len() && i
            != j implies order[i] != order[j] by {
            if i < j {
                lemma_strict(entries, order[i], order[j]);
            } else {
                lemma_strict(entries, order[j], order[i]);
            }
        }
    }
    order.unique_seq_to_set();
    let all = vstd::set_lib::set_int_range(0, n as int);
    vstd::set_lib::lemma_int_range(0, n as int);
    assert(order.to_set().subset_of(all)) by {
        assert forall|y: int| order.to_set().contains(y) implies all.contains(y) by {
            let i = choose|i: int| 0 <= i < order.len() && order[i] == y;
            assert(0 <= order[i] < n);
        }
    }
    vstd::set_lib::lemma_subset_equality(order.to_set(), all);
    assert(order.to_set().contains(x));
    choose|i: int| 0 <= i < order.len() && order[i] == x
}

proof fn lemma_written(n: NodeView, s: Sink)
    ensures
        written(n, s, true) == written(arranged(n), s, false),
        arranged(n).tag() == n.tag(),
    decreases n, crate::emitter::breadth(n),
{
    let m = arranged(n);
    let t = match n.tag() {
        Some(tag) => Sink { tag: Some(tag.value), ..s },
        None => s,
    };
    match n {
        NodeView::Scalar { .. } => {},
        NodeView::Sequence { items, style, .. } => {
            lemma_items(n, t.begin(style, Some(items.len() as usize), '['), items.len());
        },
        NodeView::Mapping { entries, style, .. } => {
            lemma_entries(n, t.begin(style, Some(entries.len() as usize), '{'), entries.len());
        },
    }
}

proof fn lemma_items(n: NodeView, s: Sink, k: nat)
    requires
        n is Sequence,
        k <= n->Sequence_items.len(),
    ensures
        written_items(n, s, true, k) == written_items(arranged(n), s, false, k),
    decreases n, k,
{
    if k > 0 {
        lemma_items(n, s, (k - 1) as nat);
        let p = written_items(n, s, true, (k - 1) as nat).before_elem();
        lemma_written(n->Sequence_items[k - 1], p);
        assert(arranged(n)->Sequence_items[k - 1] == arranged(n->Sequence_items[k - 1]));
    }
}

proof fn lemma_entries(n: NodeView, s: Sink, k: nat)
    requires
        n is Mapping,
        k <= n->Mapping_entries.len(),
    ensures
        written_entries(n, s, true, k) == written_entries(arranged(n), s, false, k),
    decreases n, k,
{
    if k > 0 {
        let entries = n->Mapping_entries;
        let style = n->Mapping_style;
        let order = write_order(entries, style, true);
        lemma_entries(n, s, (k - 1) as nat);
        if style is Block {
            lemma_write_order(entries);
            let chosen = choose|order: Seq<int>| by_key(entries, order);
            lemma_one_order(entries, order, chosen);
        }
        let e = entries[order[k - 1]];
        let p = written_entries(n, s, true, (k - 1) as nat).before_key();
        lemma_written(e.0, p);
        lemma_written(e.1, written(e.0, p, true).before_value());
        let m = arranged(n);
        assert(m->Mapping_entries[k - 1] == (arranged(e.0), arranged(e.1)));
        let same = write_order(m->Mapping_entries, m->Mapping_style, false);
        assert(same[k - 1] == k - 1);
    }
}

/// With sorted keys a document is written as the one whose block mappings have their
/// entries in the order of their keys, by their bytes, is written without sorting; entries
/// with the same key keep their order, and so do those of flow mappings.
pub proof fn law_keys_are_sorted(n: NodeView, config: EmitterConfig, base: Seq<char>)
    requires
        config.sort_keys,
    ensures
        document_text(n, config, base) == document_text(
            arranged(n),
            EmitterConfig { sort_keys: false, ..config },
            base,
        ),
{
    let head = if config.explicit_document {
        base + "---\n"@
    } else {
        base
    };
    let s = Sink {
        text: head,
        newline: false,
        stack: seq![],
        tag: None,
        indent: config.indent as nat,
    };
    lemma_written(n, s);
}

/// The lines of a block collection are indented by its level, so many spaces per level as
/// the emitter is told: each key of a mapping and each `- ` of a sequence, but for a first
/// one that shares the line of another `- `.
pub proof fn law_lines_are_indented(s: Sink)
    requires
        s.stack.len() > 0,
        s.stack.last().style is Block,
        !s.stack.last().open_deferred,
        !s.stack.last().suppress_first_indent,
    ensures
        s.before_key().text == s.text + Seq::new(
            ((s.stack.len() - 1) * s.indent) as nat,
            |i: int| ' ',
        ),
        s.before_elem().text == s.text + Seq::new(
            ((s.stack.len() - 1) * s.indent) as nat,
            |i: int| ' ',
        ) + seq!['-', ' '],
{
    let spaces = Seq::new(((s.stack.len() - 1) * s.indent) as nat, |i: int| ' ');
    assert(crate::emitter::scalar::blanks(((s.stack.len() - 1) as nat) * s.indent) =~= spaces);
    assert(s.before_key().text =~= s.text + spaces);
    assert(s.before_elem().text =~= s.text + spaces + seq!['-', ' ']);
}

} // verus!
