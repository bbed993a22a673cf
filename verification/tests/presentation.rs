use typst_diff::presentation::{presentation_key, KeyNode};

fn atom(text: &str) -> KeyNode {
    KeyNode::Atom(text.to_string())
}

#[test]
fn presentation_key_writes_labels_children_and_skips_tags() {
    let node = KeyNode::List {
        label: "seq".to_string(),
        children: vec![
            atom("text"),
            KeyNode::Skip,
            KeyNode::Wrap { label: "strong".to_string(), child: Box::new(atom("text")) },
            KeyNode::Transparent(Box::new(atom("space"))),
        ],
    };
    assert_eq!(presentation_key(&node), "seq[text;strong[text];space;]");
}

#[test]
fn plain_and_strong_text_get_different_keys() {
    let plain = KeyNode::Wrap { label: "par".to_string(), child: Box::new(atom("text")) };
    let strong = KeyNode::Wrap {
        label: "par".to_string(),
        child: Box::new(KeyNode::Wrap { label: "strong".to_string(), child: Box::new(atom("text")) }),
    };
    assert_eq!(presentation_key(&plain), "par[text]");
    assert_eq!(presentation_key(&strong), "par[strong[text]]");
    assert_eq!(presentation_key(&KeyNode::Skip), "");
    assert_eq!(presentation_key(&KeyNode::List { label: "seq".to_string(), children: vec![] }), "seq[]");
}
