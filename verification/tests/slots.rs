use typst_diff::content_slots::{resolve_slot, slot_path_resolves, SlotAction, SlotShape, SlotStep};

#[test]
fn slot_paths_walk_sequences_styles_and_paragraphs() {
    let shape = SlotShape::Sequence(vec![
        SlotShape::Other,
        SlotShape::Styled(Box::new(SlotShape::Par(Box::new(SlotShape::List(2))))),
    ]);
    let to_item = [SlotStep::SequenceChild(1), SlotStep::StyledChild, SlotStep::ParBody, SlotStep::ListItem(1)];
    assert!(slot_path_resolves(&shape, &to_item));
    assert!(slot_path_resolves(&shape, &to_item[..3]));
    let past_end = [SlotStep::SequenceChild(1), SlotStep::StyledChild, SlotStep::ParBody, SlotStep::ListItem(2)];
    assert!(!slot_path_resolves(&shape, &past_end));
    assert!(!slot_path_resolves(&shape, &[SlotStep::SequenceChild(2)]));
    assert!(!slot_path_resolves(&shape, &[]));
}

#[test]
fn leaf_slots_must_end_the_path_and_fit_the_element() {
    assert!(slot_path_resolves(&SlotShape::Figure { has_caption: true }, &[SlotStep::FigureCaption]));
    assert!(!slot_path_resolves(&SlotShape::Figure { has_caption: false }, &[SlotStep::FigureCaption]));
    assert!(!slot_path_resolves(&SlotShape::ListItem, &[SlotStep::ItemBody, SlotStep::ItemBody]));
    assert!(slot_path_resolves(&SlotShape::TermItem, &[SlotStep::TermDescription(0)]));
    assert!(!slot_path_resolves(&SlotShape::TermItem, &[SlotStep::Term(1)]));
    assert!(slot_path_resolves(&SlotShape::Table(3), &[SlotStep::TableCell(2)]));
    assert!(!slot_path_resolves(&SlotShape::Grid(3), &[SlotStep::GridCell(3)]));
    assert!(slot_path_resolves(&SlotShape::Stack(vec![false, true]), &[SlotStep::StackChild(1)]));
    assert!(!slot_path_resolves(&SlotShape::Stack(vec![false, true]), &[SlotStep::StackChild(0)]));
    assert!(slot_path_resolves(&SlotShape::Wrapper, &[SlotStep::WrapperBody]));
}

#[test]
fn resolved_slot_writes_name_each_step_and_the_final_write() {
    let shape = SlotShape::Sequence(vec![
        SlotShape::Other,
        SlotShape::Styled(Box::new(SlotShape::Par(Box::new(SlotShape::Terms(2))))),
    ]);
    let path = [SlotStep::SequenceChild(1), SlotStep::StyledChild, SlotStep::ParBody, SlotStep::TermDescription(1)];
    assert_eq!(
        resolve_slot(&shape, &path),
        Some(vec![
            SlotAction::IntoSequenceChild(1),
            SlotAction::IntoStyledChild,
            SlotAction::IntoParBody,
            SlotAction::WriteTermsDescription(1),
        ])
    );
    assert_eq!(
        resolve_slot(&shape, &path[..3]),
        Some(vec![SlotAction::IntoSequenceChild(1), SlotAction::IntoStyledChild, SlotAction::WriteParBody])
    );
    assert_eq!(resolve_slot(&SlotShape::TermItem, &[SlotStep::Term(0)]), Some(vec![SlotAction::WriteTermItemTerm]));
    assert_eq!(resolve_slot(&shape, &[SlotStep::SequenceChild(0)]), None);
}
