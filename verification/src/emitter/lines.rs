//! Emitted documents end with a line feed.
use crate::emitter::sink::Sink;
use crate::emitter::{
    breadth, document_text, write_order, written, written_entries, written_items, EmitterConfig,
};
use crate::node::NodeView;
use crate::types::CollectionStyle;
use vstd::prelude::*;

verus! {

/// The same collections are open, with the same contents so far.
spec fn alike(s: Sink, t: Sink) -> bool {
    &&& t.stack.len() == s.stack.len()
    &&& forall|i: int|
        0 <= i < s.stack.len() ==> (#[trigger] t.stack[i]).style == s.stack[i].style
            && t.stack[i].filled == s.stack[i].filled && t.stack[i].open_deferred
            == s.stack[i].open_deferred
}

/// The same collections are open but for the innermost one, which has an entry now.
spec fn entered(s: Sink, t: Sink) -> bool {
    &&& t.stack.len() == s.stack.len()
    &&& s.stack.len() > 0
    &&& forall|i: int|
        0 <= i < s.stack.len() - 1 ==> (#[trigger] t.stack[i]).style == s.stack[i].style
            && t.stack[i].filled == s.stack[i].filled && t.stack[i].open_deferred
            == s.stack[i].open_deferred
    &&& t.stack.last().style == s.stack.last().style
    &&& t.stack.last().filled
    &&& !t.stack.last().open_deferred
}

/// A node with its tag pending.
spec fn tagged(n: NodeView, s: Sink) -> Sink {
    match n.tag() {
        Some(tag) => Sink { tag: Some(tag.value), ..s },
        None => s,
    }
}

/// What is written next ends its line: it stands at the top level, or in a block
/// collection and is no key.
spec fn ends_line(s: Sink) -> bool {
    s.stack.len() == 0 || (s.stack.last().style is Block && !s.stack.last().expect_key)
}

proof fn lemma_begin(s: Sink, style: CollectionStyle, n: usize, bracket: char)
    ensures
        ({
            let t = s.begin(style, Some(n), bracket);
            &&& t.stack.len() == s.stack.len() + 1
            &&& alike(s, Sink { stack: t.stack.drop_last(), ..t })
            &&& t.stack.last().style == style
            &&& !t.stack.last().filled
            &&& !t.stack.last().open_deferred
            &&& !t.stack.last().expect_key
            &&& s.stack.len() > 0 ==> t.stack[s.stack.len() - 1].expect_key
                == s.stack.last().expect_key
        }),
{
}

/// What a closed collection leaves.
proof fn lemma_end(w: Sink, open: char, close: char)
    requires
        w.stack.len() > 0,
        !w.stack.last().open_deferred,
    ensures
        ({
            let e = w.end(open, close);
            &&& e.stack == w.stack.drop_last()
            &&& w.stack.last().style is Block && w.stack.last().filled ==> e.text == w.text
            &&& !(w.stack.last().style is Block && w.stack.last().filled) && (w.stack.len() == 1
                || w.stack[w.stack.len() - 2].style is Block) ==> e.text.len() > 0
                && e.text.last() == '\n'
        }),
{
}

/// What a scalar leaves.
proof fn lemma_scalar(s: Sink, value: Seq<char>, style: crate::types::ScalarStyle)
    ensures
        alike(s, s.scalar(value, style)),
        below(s, s.scalar(value, style)),
        s.stack.len() > 0 && !s.stack.last().expect_key ==> !s.scalar(
            value,
            style,
        ).stack.last().expect_key,
        ends_line(s) && sound(s) ==> s.scalar(value, style).text.len() > 0 && s.scalar(
            value,
            style,
        ).text.last() == '\n',
{
    let t = s.scalar_tag();
    assert(sound(s) ==> sound(t));
    let u = s.bare_scalar(value, style);
    assert(u.stack == s.stack);
    assert(sound(s) ==> sound(u));
}

/// At the top level, the note that the text ends with a line feed is true.
spec fn sound(s: Sink) -> bool {
    s.stack.len() == 0 && s.newline ==> s.text.len() > 0 && s.text.last() == '\n'
}

/// A sequence as it is written.
proof fn lemma_written_sequence(n: NodeView, s: Sink, sort: bool)
    requires
        n is Sequence,
    ensures
        ({
            let b = tagged(n, s).begin(n->Sequence_style, Some(n->items.len() as usize), '[');
            written(n, s, sort) == written_items(n, b, sort, n->items.len()).end('[', ']')
        }),
{
}

/// A mapping as it is written.
proof fn lemma_written_mapping(n: NodeView, s: Sink, sort: bool)
    requires
        n is Mapping,
    ensures
        ({
            let b = tagged(n, s).begin(n->Mapping_style, Some(n->entries.len() as usize), '{');
            written(n, s, sort) == written_entries(n, b, sort, n->entries.len()).end('{', '}')
        }),
{
}

/// Closing what was opened.
proof fn lemma_closed_alike(s: Sink, b: Sink, w: Sink, e: Sink)
    requires
        b.stack.len() == s.stack.len() + 1,
        alike(s, Sink { stack: b.stack.drop_last(), ..b }),
        w == b || entered(b, w),
        e.stack == w.stack.drop_last(),
    ensures
        alike(s, e),
{
    assert forall|i: int| 0 <= i < s.stack.len() implies (#[trigger] e.stack[i]).style
        == s.stack[i].style && e.stack[i].filled == s.stack[i].filled && e.stack[i].open_deferred
        == s.stack[i].open_deferred by {
        assert(e.stack[i] == w.stack[i]);
        assert(b.stack.drop_last()[i] == b.stack[i]);
        assert((Sink { stack: b.stack.drop_last(), ..b }).stack[i].style == s.stack[i].style);
    }
}

proof fn lemma_written_alike(n: NodeView, s: Sink, sort: bool)
    ensures
        alike(s, written(n, s, sort)),
    decreases n, breadth(n),
{
    let t = tagged(n, s);
    assert(t.stack == s.stack);
    if let NodeView::Scalar { value, style, .. } = n {
        lemma_scalar(t, value, style);
    } else if n is Sequence {
        let k = n->items.len();
        let b = t.begin(n->Sequence_style, Some(k as usize), '[');
        lemma_written_sequence(n, s, sort);
        lemma_begin(t, n->Sequence_style, k as usize, '[');
        lemma_items(n, b, sort, k);
        let w = written_items(n, b, sort, k);
        lemma_end(w, '[', ']');
        lemma_closed_alike(t, b, w, w.end('[', ']'));
    } else {
        let k = n->entries.len();
        let b = t.begin(n->Mapping_style, Some(k as usize), '{');
        lemma_written_mapping(n, s, sort);
        lemma_begin(t, n->Mapping_style, k as usize, '{');
        lemma_entries(n, b, sort, k);
        let w = written_entries(n, b, sort, k);
        lemma_end(w, '{', '}');
        lemma_closed_alike(t, b, w, w.end('{', '}'));
    }
}

proof fn lemma_items(n: NodeView, s: Sink, sort: bool, k: nat)
    requires
        s.stack.len() > 0,
        !s.stack.last().open_deferred,
        n is Sequence,
        k <= n->items.len(),
    ensures
        k == 0 ==> written_items(n, s, sort, k) == s,
        k > 0 ==> entered(s, written_items(n, s, sort, k)),
    decreases n, k,
{
    if let NodeView::Sequence { items, .. } = n {
        if 0 < k {
            lemma_items(n, s, sort, (k - 1) as nat);
            let before = written_items(n, s, sort, (k - 1) as nat);
            lemma_written_alike(items[k - 1], before.before_elem(), sort);
            assert(entered(before, before.before_elem()));
        }
    }
}

proof fn lemma_entries(n: NodeView, s: Sink, sort: bool, k: nat)
    requires
        s.stack.len() > 0,
        !s.stack.last().open_deferred,
        n is Mapping,
        k <= n->entries.len(),
    ensures
        k == 0 ==> written_entries(n, s, sort, k) == s,
        k > 0 ==> entered(s, written_entries(n, s, sort, k)),
    decreases n, k,
{
    if let NodeView::Mapping { entries, style, .. } = n {
        let order = write_order(entries, style, sort);
        lemma_order(entries, style, sort);
        if 0 < k {
            lemma_entries(n, s, sort, (k - 1) as nat);
            let before = written_entries(n, s, sort, (k - 1) as nat);
            let e = entries[order[k - 1]];
            let keyed = before.before_key();
            assert(entered(before, keyed));
            lemma_written_alike(e.0, keyed, sort);
            let valued = written(e.0, keyed, sort).before_value();
            lemma_written_alike(e.1, valued, sort);
        }
    }
}

/// The order of writing names each entry.
proof fn lemma_order(entries: Seq<(NodeView, NodeView)>, style: CollectionStyle, sort: bool)
    ensures
        write_order(entries, style, sort).len() == entries.len(),
        forall|i: int|
            0 <= i < entries.len() ==> 0 <= #[trigger] write_order(entries, style, sort)[i]
                < entries.len(),
{
    let keys = Seq::new(entries.len(), |i: int| crate::emitter::sort_key(entries[i]));
    crate::emitter::law_sorted_indices(keys, entries.len());
}

/// A node that ends its line is followed by a line feed.
proof fn lemma_ends_with_newline(n: NodeView, s: Sink, sort: bool)
    requires
        ends_line(s),
        sound(s),
    ensures
        written(n, s, sort).text.len() > 0,
        written(n, s, sort).text.last() == '\n',
    decreases n, 1int,
{
    if let NodeView::Scalar { value, style, .. } = n {
        lemma_scalar(tagged(n, s), value, style);
    } else if n is Sequence {
        lemma_sequence_newline(n, s, sort);
    } else {
        lemma_mapping_newline(n, s, sort);
    }
}

proof fn lemma_sequence_newline(n: NodeView, s: Sink, sort: bool)
    requires
        n is Sequence,
        ends_line(s),
    ensures
        written(n, s, sort).text.len() > 0,
        written(n, s, sort).text.last() == '\n',
    decreases n, 0int,
{
    let t = tagged(n, s);
    assert(t.stack == s.stack);
    let k = n->items.len();
    let style = n->Sequence_style;
    let b = t.begin(style, Some(k as usize), '[');
    lemma_written_sequence(n, s, sort);
    lemma_begin(t, style, k as usize, '[');
    lemma_items(n, b, sort, k);
    let w = written_items(n, b, sort, k);
    lemma_end(w, '[', ']');
    lemma_parent_style(t, b, w);
    if k > 0 && style is Block {
        lemma_items(n, b, sort, (k - 1) as nat);
        lemma_elem_ends_line(n, b, sort, (k - 1) as nat);
        let before = written_items(n, b, sort, (k - 1) as nat).before_elem();
        let item = n->items[k - 1];
        assert(w == written(item, before, sort));
        lemma_written_alike(item, before, sort);
        lemma_ends_with_newline(item, before, sort);
    }
}

proof fn lemma_mapping_newline(n: NodeView, s: Sink, sort: bool)
    requires
        n is Mapping,
        ends_line(s),
    ensures
        written(n, s, sort).text.len() > 0,
        written(n, s, sort).text.last() == '\n',
    decreases n, 0int,
{
    let t = tagged(n, s);
    assert(t.stack == s.stack);
    let k = n->entries.len();
    let style = n->Mapping_style;
    let b = t.begin(style, Some(k as usize), '{');
    lemma_written_mapping(n, s, sort);
    lemma_begin(t, style, k as usize, '{');
    lemma_entries(n, b, sort, k);
    let w = written_entries(n, b, sort, k);
    lemma_end(w, '{', '}');
    lemma_parent_style(t, b, w);
    if k > 0 && style is Block {
        let order = write_order(n->entries, style, sort);
        lemma_order(n->entries, style, sort);
        lemma_entries(n, b, sort, (k - 1) as nat);
        let keyed = written_entries(n, b, sort, (k - 1) as nat).before_key();
        let e = n->entries[order[k - 1]];
        lemma_keyed(written_entries(n, b, sort, (k - 1) as nat));
        lemma_written_alike(e.0, keyed, sort);
        let valued = written(e.0, keyed, sort).before_value();
        assert(w == written(e.1, valued, sort));
        lemma_valued(written(e.0, keyed, sort));
        lemma_ends_with_newline(e.1, valued, sort);
    }
}

/// At the start of a key the mapping has an entry.
proof fn lemma_keyed(s: Sink)
    requires
        s.stack.len() > 0,
        !s.stack.last().open_deferred,
    ensures
        entered(s, s.before_key()),
{
}

/// Behind a `:` no key is expected.
proof fn lemma_valued(s: Sink)
    requires
        s.stack.len() > 0,
    ensures
        s.before_value().stack.len() == s.stack.len(),
        s.before_value().stack.last().style == s.stack.last().style,
        !s.before_value().stack.last().expect_key,
{
}

/// The collection around an open one stays what it is.
proof fn lemma_parent_style(s: Sink, b: Sink, w: Sink)
    requires
        b.stack.len() == s.stack.len() + 1,
        alike(s, Sink { stack: b.stack.drop_last(), ..b }),
        w == b || entered(b, w),
    ensures
        w.stack.len() == s.stack.len() + 1,
        s.stack.len() > 0 ==> w.stack[w.stack.len() - 2].style == s.stack.last().style,
{
    if s.stack.len() > 0 {
        let i = s.stack.len() - 1;
        assert((Sink { stack: b.stack.drop_last(), ..b }).stack[i].style == s.stack[i].style);
        assert(w.stack[i].style == b.stack[i].style);
    }
}

/// In a block sequence the next element is no key.
proof fn lemma_elem_ends_line(n: NodeView, s: Sink, sort: bool, k: nat)
    requires
        s.stack.len() > 0,
        !s.stack.last().open_deferred,
        !s.stack.last().expect_key,
        s.stack.last().style is Block,
        n is Sequence,
        k < n->items.len(),
    ensures
        ends_line(written_items(n, s, sort, k).before_elem()),
    decreases k,
{
    lemma_items(n, s, sort, k);
    lemma_items_expect(n, s, sort, k);
}

proof fn lemma_items_expect(n: NodeView, s: Sink, sort: bool, k: nat)
    requires
        s.stack.len() > 0,
        !s.stack.last().open_deferred,
        !s.stack.last().expect_key,
        n is Sequence,
        k <= n->items.len(),
    ensures
        !written_items(n, s, sort, k).stack.last().expect_key,
    decreases n, k,
{
    if let NodeView::Sequence { items, .. } = n {
        if 0 < k {
            lemma_items_expect(n, s, sort, (k - 1) as nat);
            lemma_items(n, s, sort, (k - 1) as nat);
            lemma_written_expect(
                items[k - 1],
                written_items(n, s, sort, (k - 1) as nat).before_elem(),
                sort,
            );
        }
    }
}

/// Writing a node makes no key expected.
proof fn lemma_written_expect(n: NodeView, s: Sink, sort: bool)
    requires
        s.stack.len() > 0,
        !s.stack.last().expect_key,
    ensures
        !written(n, s, sort).stack.last().expect_key,
    decreases n, breadth(n),
{
    let t = tagged(n, s);
    assert(t.stack == s.stack);
    if let NodeView::Scalar { value, style, .. } = n {
        lemma_scalar(t, value, style);
    } else if n is Sequence {
        let k = n->items.len();
        let b = t.begin(n->Sequence_style, Some(k as usize), '[');
        lemma_written_sequence(n, s, sort);
        lemma_begin(t, n->Sequence_style, k as usize, '[');
        lemma_items(n, b, sort, k);
        lemma_items_below(n, b, sort, k);
        let w = written_items(n, b, sort, k);
        lemma_end(w, '[', ']');
        assert(w.stack.drop_last().last() == w.stack[t.stack.len() - 1]);
    } else {
        let k = n->entries.len();
        let b = t.begin(n->Mapping_style, Some(k as usize), '{');
        lemma_written_mapping(n, s, sort);
        lemma_begin(t, n->Mapping_style, k as usize, '{');
        lemma_entries(n, b, sort, k);
        lemma_entries_below(n, b, sort, k);
        let w = written_entries(n, b, sort, k);
        lemma_end(w, '{', '}');
        assert(w.stack.drop_last().last() == w.stack[t.stack.len() - 1]);
    }
}

/// Writing a node leaves the collections around the innermost open one alone.
spec fn below(s: Sink, t: Sink) -> bool {
    &&& t.stack.len() == s.stack.len()
    &&& forall|i: int|
        0 <= i < s.stack.len() - 1 ==> (#[trigger] t.stack[i]).expect_key == s.stack[i].expect_key
}

/// Opening a collection leaves the collections around it alone.
proof fn lemma_begin_below(s: Sink, style: CollectionStyle, n: usize, bracket: char)
    ensures
        ({
            let t = s.begin(style, Some(n), bracket);
            &&& t.stack.len() == s.stack.len() + 1
            &&& forall|i: int|
                0 <= i < s.stack.len() ==> (#[trigger] t.stack[i]).expect_key
                    == s.stack[i].expect_key
        }),
{
}

proof fn lemma_written_below(n: NodeView, s: Sink, sort: bool)
    ensures
        below(s, written(n, s, sort)),
    decreases n, breadth(n),
{
    let t = tagged(n, s);
    assert(t.stack == s.stack);
    if let NodeView::Scalar { value, style, .. } = n {
        lemma_scalar(t, value, style);
    } else if n is Sequence {
        let k = n->items.len();
        let b = t.begin(n->Sequence_style, Some(k as usize), '[');
        lemma_written_sequence(n, s, sort);
        lemma_begin(t, n->Sequence_style, k as usize, '[');
        lemma_begin_below(t, n->Sequence_style, k as usize, '[');
        lemma_items(n, b, sort, k);
        lemma_items_below(n, b, sort, k);
        let w = written_items(n, b, sort, k);
        lemma_end(w, '[', ']');
    } else {
        let k = n->entries.len();
        let b = t.begin(n->Mapping_style, Some(k as usize), '{');
        lemma_written_mapping(n, s, sort);
        lemma_begin(t, n->Mapping_style, k as usize, '{');
        lemma_begin_below(t, n->Mapping_style, k as usize, '{');
        lemma_entries(n, b, sort, k);
        lemma_entries_below(n, b, sort, k);
        let w = written_entries(n, b, sort, k);
        lemma_end(w, '{', '}');
    }
}

proof fn lemma_items_below(n: NodeView, s: Sink, sort: bool, k: nat)
    requires
        s.stack.len() > 0,
        !s.stack.last().open_deferred,
        n is Sequence,
        k <= n->items.len(),
    ensures
        below(s, written_items(n, s, sort, k)),
    decreases n, k,
{
    if let NodeView::Sequence { items, .. } = n {
        if 0 < k {
            lemma_items_below(n, s, sort, (k - 1) as nat);
            lemma_items(n, s, sort, (k - 1) as nat);
            let before = written_items(n, s, sort, (k - 1) as nat);
            assert(below(before, before.before_elem()));
            lemma_written_below(items[k - 1], before.before_elem(), sort);
        }
    }
}

/// Starting a key leaves the collections around the innermost open one alone.
proof fn lemma_key_below(s: Sink)
    requires
        s.stack.len() > 0,
        !s.stack.last().open_deferred,
    ensures
        below(s, s.before_key()),
{
}

/// Starting a value leaves the collections around the innermost open one alone.
proof fn lemma_value_below(s: Sink)
    ensures
        below(s, s.before_value()),
{
}

proof fn lemma_entries_below(n: NodeView, s: Sink, sort: bool, k: nat)
    requires
        s.stack.len() > 0,
        !s.stack.last().open_deferred,
        n is Mapping,
        k <= n->entries.len(),
    ensures
        below(s, written_entries(n, s, sort, k)),
    decreases n, k,
{
    if let NodeView::Mapping { entries, style, .. } = n {
        if 0 < k {
            let order = write_order(entries, style, sort);
            lemma_order(entries, style, sort);
            lemma_entries_below(n, s, sort, (k - 1) as nat);
            lemma_entries(n, s, sort, (k - 1) as nat);
            let before = written_entries(n, s, sort, (k - 1) as nat);
            let e = entries[order[k - 1]];
            let keyed = before.before_key();
            lemma_key_below(before);
            lemma_written_below(e.0, keyed, sort);
            lemma_written_alike(e.0, keyed, sort);
            let named = written(e.0, keyed, sort);
            lemma_value_below(named);
            lemma_written_below(e.1, named.before_value(), sort);
            assert(written_entries(n, s, sort, k) == written(e.1, named.before_value(), sort));
        }
    }
}

/// The text of an emitted document ends with a line feed, whatever its node is and
/// however it is configured.
pub proof fn law_document_ends_with_newline(n: NodeView, config: EmitterConfig, base: Seq<char>)
    ensures
        document_text(n, config, base).len() > 0,
        document_text(n, config, base).last() == '\n',
{
    reveal_strlit("...\n");
    reveal_strlit("---\n");
    let head = if config.explicit_document {
        base + "---\n"@
    } else {
        base
    };
    let s = Sink {
        text: head,
        newline: false,
        stack: seq![],
        tag: None,
        indent: config.indent as nat,
    };
    lemma_ends_with_newline(n, s, config.sort_keys);
}

} // verus!
