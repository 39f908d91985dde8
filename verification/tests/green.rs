use skald::cst::green::{GreenChild, GreenNode};
use skald::cst::kind::SyntaxKind;

#[test]
fn green_text_len_and_text() {
    let t1 = GreenChild::token(SyntaxKind::ScalarToken, "hello");
    let t2 = GreenChild::token(SyntaxKind::Whitespace, " ");
    let node = GreenNode::new(SyntaxKind::Scalar, vec![t1, t2]);
    assert_eq!(node.text_len(), 6);
    let mut s = String::new();
    node.write_text(&mut s);
    assert_eq!(s, "hello ");
}
