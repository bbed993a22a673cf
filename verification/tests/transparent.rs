use typst_diff::transparent::{transparent_children, ChildField, ElementShape};

#[test]
fn transparent_fields_follow_the_element() {
    assert_eq!(
        transparent_children(ElementShape::Sequence(3)),
        Some(vec![ChildField::Child(0), ChildField::Child(1), ChildField::Child(2)])
    );
    assert_eq!(transparent_children(ElementShape::Strong), Some(vec![ChildField::Body]));
    assert_eq!(
        transparent_children(ElementShape::Figure(true)),
        Some(vec![ChildField::Body, ChildField::Caption])
    );
    assert_eq!(transparent_children(ElementShape::Figure(false)), Some(vec![ChildField::Body]));
    assert_eq!(transparent_children(ElementShape::Footnote(false)), None);
    assert_eq!(transparent_children(ElementShape::Box(true)), Some(vec![ChildField::Body]));
    assert_eq!(
        transparent_children(ElementShape::Terms(2)),
        Some(vec![
            ChildField::ItemTerm(0),
            ChildField::ItemDescription(0),
            ChildField::ItemTerm(1),
            ChildField::ItemDescription(1),
        ])
    );
    assert_eq!(
        transparent_children(ElementShape::Enum(2)),
        Some(vec![ChildField::ItemBody(0), ChildField::ItemBody(1)])
    );
    assert_eq!(transparent_children(ElementShape::Other), None);
    assert_eq!(transparent_children(ElementShape::Sequence(0)), Some(vec![]));
}
