use skald::cst::builder::GreenNodeBuilder;
use skald::cst::kind::SyntaxKind;
use skald::cst::red::{SyntaxElement, SyntaxNode};

#[test]
fn red_offsets_and_text() {
    let mut b = GreenNodeBuilder::new();
    b.start_node(SyntaxKind::Root);
    b.token(SyntaxKind::ScalarToken, "a");
    b.token(SyntaxKind::Punct, ": ");
    b.token(SyntaxKind::ScalarToken, "b");
    b.finish_node();
    let root = SyntaxNode::new_root(b.finish());
    assert_eq!(root.text_range(), (0, 4));
    let kids = root.children_with_tokens();
    assert_eq!(kids.len(), 3);
    assert_eq!(kids[2].text_range(), (3, 4)); // "b"
    assert_eq!(root.text(), "a: b");
}

#[test]
fn red_element_accessors_cover_node_and_token_arms() {
    let mut b = GreenNodeBuilder::new();
    b.start_node(SyntaxKind::Root);
    b.start_node(SyntaxKind::Scalar); // nested child node
    b.token(SyntaxKind::ScalarToken, "hi");
    b.finish_node();
    b.token(SyntaxKind::Newline, "\n"); // sibling token
    b.finish_node();
    let root = SyntaxNode::new_root(b.finish());

    let elems: Vec<SyntaxElement> = root.children_with_tokens();
    assert_eq!(elems.len(), 2);

    let node_elem = &elems[0];
    assert_eq!(node_elem.kind(), SyntaxKind::Scalar);
    assert_eq!(node_elem.text(), "hi");
    assert_eq!(node_elem.text_range(), (0, 2));
    let inner = node_elem.as_node().expect("node element yields Some");
    assert_eq!(inner.kind(), SyntaxKind::Scalar);

    let tok_elem = &elems[1];
    assert_eq!(tok_elem.kind(), SyntaxKind::Newline);
    assert_eq!(tok_elem.text(), "\n");
    assert_eq!(tok_elem.text_range(), (2, 3));
    assert!(tok_elem.as_node().is_none(), "token element yields None");

    let child_nodes: Vec<SyntaxNode> = root.child_nodes();
    assert_eq!(child_nodes.len(), 1);
    assert_eq!(child_nodes[0].kind(), SyntaxKind::Scalar);
}
