use skald::cst::builder::GreenNodeBuilder;
use skald::cst::kind::SyntaxKind;

#[test]
fn builds_nested_tree_losslessly() {
    let mut b = GreenNodeBuilder::new();
    b.start_node(SyntaxKind::Root);
    b.start_node(SyntaxKind::Scalar);
    b.token(SyntaxKind::ScalarToken, "hi");
    b.finish_node();
    b.token(SyntaxKind::Newline, "\n");
    b.finish_node();
    let root = b.finish();
    let mut s = String::new();
    root.write_text(&mut s);
    assert_eq!(s, "hi\n");
    assert_eq!(root.kind(), SyntaxKind::Root);
}
