use typst_diff::text_graft::{replace_text_container, GraftPlan, GraftShape};

#[test]
fn text_goes_into_the_innermost_body_through_styles() {
    let heading = GraftShape::Styled(Box::new(GraftShape::Body { par: false }));
    assert_eq!(
        replace_text_container(&heading),
        Some(GraftPlan::Styled(Box::new(GraftPlan::SetBody)))
    );
    assert_eq!(replace_text_container(&GraftShape::Other), None);
    assert_eq!(replace_text_container(&GraftShape::Styled(Box::new(GraftShape::Other))), None);
}

#[test]
fn inline_sequences_take_the_new_children_and_others_the_first_child_with_a_place() {
    let inline = GraftShape::Sequence(vec![GraftShape::Other, GraftShape::Body { par: false }]);
    assert_eq!(replace_text_container(&inline), Some(GraftPlan::ReplaceChildren));
    let mixed = GraftShape::Sequence(vec![
        GraftShape::Other,
        GraftShape::Sequence(vec![GraftShape::Body { par: true }]),
        GraftShape::Body { par: true },
    ]);
    assert_eq!(
        replace_text_container(&mixed),
        Some(GraftPlan::Child(
            1,
            Box::new(GraftPlan::Child(0, Box::new(GraftPlan::SetBody)))
        ))
    );
}

#[test]
fn nested_bodies_are_replaced_whole_when_nothing_inside_has_a_place() {
    assert_eq!(
        replace_text_container(&GraftShape::Nested(Box::new(GraftShape::Other))),
        Some(GraftPlan::Nested(None))
    );
    assert_eq!(
        replace_text_container(&GraftShape::Nested(Box::new(GraftShape::Body { par: true }))),
        Some(GraftPlan::Nested(Some(Box::new(GraftPlan::SetBody))))
    );
}
