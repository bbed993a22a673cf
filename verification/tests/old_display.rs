use typst_diff::old_display::{retain_old_display_content, DisplayKind, DisplayNode};

fn node(kind: DisplayKind, text: &str, page_styles: Vec<bool>, children: Vec<DisplayNode>) -> DisplayNode {
    DisplayNode { kind, text: text.to_string(), page_styles, children }
}

fn leaf(text: &str) -> DisplayNode {
    node(DisplayKind::Leaf, text, vec![], vec![])
}

fn describe(n: &DisplayNode) -> String {
    let inner: Vec<String> = n.children.iter().map(describe).collect();
    format!("{:?}[{}|{:?}]({})", n.kind, n.text, n.page_styles, inner.join(","))
}

#[test]
fn invisible_and_computed_elements_become_empty_or_text() {
    let tree = node(
        DisplayKind::Sequence,
        "ab",
        vec![],
        vec![
            node(DisplayKind::Invisible, "", vec![], vec![]),
            node(DisplayKind::Computed, "Figure 1", vec![], vec![]),
            node(DisplayKind::Computed, "", vec![], vec![]),
            leaf("a"),
        ],
    );
    let out = retain_old_display_content(&tree);
    assert_eq!(
        describe(&out),
        "Sequence[ab|[]](Sequence[|[]](),Leaf[Figure 1|[]](),Sequence[|[]](),Leaf[a|[]]())"
    );
}

#[test]
fn page_styles_are_dropped_and_links_unwrapped() {
    let page_only = node(DisplayKind::Styled, "x", vec![true, true], vec![leaf("x")]);
    assert_eq!(describe(&retain_old_display_content(&page_only)), "Leaf[x|[]]()");
    let mixed = node(DisplayKind::Styled, "y", vec![true, false, true, false], vec![leaf("y")]);
    assert_eq!(
        describe(&retain_old_display_content(&mixed)),
        "Styled[y|[false, false]](Leaf[y|[]]())"
    );
    let link = node(DisplayKind::Link, "z", vec![], vec![node(DisplayKind::Strong, "z", vec![], vec![leaf("z")])]);
    assert_eq!(describe(&retain_old_display_content(&link)), "Strong[z|[]](Leaf[z|[]]())");
    let other = node(DisplayKind::Other, "", vec![], vec![leaf("hidden")]);
    assert_eq!(describe(&retain_old_display_content(&other)), "Sequence[|[]]()");
}
