use typst_diff::diff_area::DiffAreaKind;
use typst_diff::diff_surface::{DiffSelection, DiffSurfaceEdit, DiffSurfaceKind};

#[test]
fn diff_area_kind_has_stable_trace_names() {
    assert_eq!(DiffAreaKind::BodyBlock.trace_name(), "body_block");
    assert_eq!(
        DiffAreaKind::StructuredContainerRegion.trace_name(),
        "structured_container_region"
    );
}

#[test]
fn diff_surface_kind_has_stable_trace_names() {
    assert_eq!(DiffSurfaceKind::WordTokens.trace_name(), "word_tokens");
    assert_eq!(DiffSurfaceKind::RawLines.trace_name(), "raw_lines");
    assert_eq!(
        DiffSurfaceKind::RenderedRegionSegment.trace_name(),
        "rendered_region_segment"
    );
}

#[test]
fn diff_selection_carries_area_and_surface() {
    let selection = DiffSelection::new(
        DiffAreaKind::BodyBlock,
        DiffSurfaceKind::WordTokens,
        "content",
    );

    assert_eq!(selection.area(), DiffAreaKind::BodyBlock);
    assert_eq!(selection.surface_kind(), DiffSurfaceKind::WordTokens);
    assert_eq!(selection.into_content(), "content");
}

#[test]
fn surface_edit_keeps_kind_and_payload() {
    let edit = DiffSurfaceEdit::new(DiffSurfaceKind::OpaqueVisual, 7u32);
    assert_eq!(edit.kind(), DiffSurfaceKind::OpaqueVisual);
    assert_eq!(edit.into_content(), 7);
}
