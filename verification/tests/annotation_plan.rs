use typst_diff::annotation_plan::{
    annotate_route, pair_with_footnote_paragraphs, sequence_pairing, source_paragraph_runs, AnnotateFacts,
    AnnotateRoute, NodeShape, ParagraphPairing, RunChild, SequencePairing,
};

fn child(parbreak: bool, empty: bool, has_footnote: bool) -> RunChild {
    RunChild { parbreak, empty, has_footnote }
}

#[test]
fn paragraph_runs_split_at_breaks_and_drop_empty_runs() {
    let children = [
        child(false, false, false),
        child(false, false, true),
        child(true, false, false),
        child(false, true, false),
        child(true, false, false),
        child(false, false, false),
    ];
    assert_eq!(source_paragraph_runs(&children), vec![vec![0, 1], vec![5]]);
    assert!(source_paragraph_runs(&[child(true, false, false)]).is_empty());
}

#[test]
fn realized_paragraphs_take_the_runs_in_order() {
    let children = [child(false, false, true), child(true, false, false), child(false, false, false)];
    let runs = source_paragraph_runs(&children);
    assert_eq!(
        pair_with_footnote_paragraphs(&children, &runs, &[true, false, true, true]),
        vec![
            ParagraphPairing::FootnoteRun(0),
            ParagraphPairing::Alone,
            ParagraphPairing::Run(1),
            ParagraphPairing::Alone,
        ]
    );
}

#[test]
fn sequence_pairing_prefers_paragraphs_then_position_then_span() {
    assert_eq!(sequence_pairing(true, true, 2, 3, true), SequencePairing::FootnoteParagraphs);
    assert_eq!(sequence_pairing(true, false, 3, 3, false), SequencePairing::Positional);
    assert_eq!(sequence_pairing(false, false, 3, 3, true), SequencePairing::BySpan);
    assert_eq!(sequence_pairing(false, false, 2, 3, false), SequencePairing::BySpan);
}

fn facts(pre: NodeShape, realized: NodeShape) -> AnnotateFacts {
    AnnotateFacts {
        pre,
        realized,
        pre_has_footnote: false,
        realized_has_paragraph: false,
        pre_len: 2,
        realized_len: 2,
        involves_context: false,
        recorded_context: false,
        opaque_visual: false,
        realized_blank: false,
        same_content: false,
    }
}

#[test]
fn annotate_routes_follow_the_node_shapes() {
    assert_eq!(annotate_route(&facts(NodeShape::Sequence, NodeShape::Styled)), AnnotateRoute::PeelRealizedStyle);
    assert_eq!(annotate_route(&facts(NodeShape::Styled, NodeShape::Sequence)), AnnotateRoute::PeelPreStyle);
    assert_eq!(annotate_route(&facts(NodeShape::Styled, NodeShape::Styled)), AnnotateRoute::Styled);
    assert_eq!(annotate_route(&facts(NodeShape::Context, NodeShape::Context)), AnnotateRoute::ContextLeaf);
    assert_eq!(annotate_route(&facts(NodeShape::Context, NodeShape::Other)), AnnotateRoute::ContextRecorded);
    assert_eq!(annotate_route(&facts(NodeShape::Container, NodeShape::Other)), AnnotateRoute::Container);
    assert_eq!(
        annotate_route(&facts(NodeShape::Sequence, NodeShape::Sequence)),
        AnnotateRoute::Sequence(SequencePairing::Positional)
    );
    let uneven = AnnotateFacts { realized_len: 3, ..facts(NodeShape::Sequence, NodeShape::Sequence) };
    assert_eq!(annotate_route(&uneven), AnnotateRoute::Sequence(SequencePairing::BySpan));
    assert_eq!(annotate_route(&facts(NodeShape::Sequence, NodeShape::Paragraph)), AnnotateRoute::SequenceInParagraph);
    assert_eq!(annotate_route(&facts(NodeShape::Sequence, NodeShape::Other)), AnnotateRoute::SequenceAlone);
    assert_eq!(annotate_route(&facts(NodeShape::Paragraph, NodeShape::Paragraph)), AnnotateRoute::Paragraph);
    let visual = AnnotateFacts { opaque_visual: true, realized_blank: true, ..facts(NodeShape::Other, NodeShape::Other) };
    assert_eq!(annotate_route(&visual), AnnotateRoute::OpaqueVisualLeaf);
    let recorded = AnnotateFacts { recorded_context: true, ..visual };
    assert_eq!(annotate_route(&recorded), AnnotateRoute::RecordedContext);
    let same = AnnotateFacts { same_content: true, ..visual };
    assert_eq!(annotate_route(&same), AnnotateRoute::Leaf);
}
