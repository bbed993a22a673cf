use typst_diff::annotated::{
    footnote_call_path, is_opaque_visual_element_name, patch_path_for_logical_path,
    ContainerKind, SemanticKind, SemanticSlot, SlotStep, WrapperKind,
};
use typst_diff::build_info::{build_report_line, parse_build_time, pdf_timestamp, BuildTime};
use typst_diff::context_recording::{
    merge_recorded_alignment, named_recorded_alignment, RecordedAlignment,
};
use typst_diff::decision::FallbackCode;
use typst_diff::labels::{
    page_region_label, region_path_label, rendered_alignment_label, rendered_wrapper_label,
    semantic_kind_label, slot_label, summarize_slot, wrapper_kind_label,
};
use typst_diff::owners::{mark_recursed_owner, owner_already_recursed, RecursedOwners, SemanticOwnerKey};
use typst_diff::paths::{
    direct_index_paths, path_is_under, prepend_path_index, prepend_realized_shell_path, ContentKey,
};
use typst_diff::regions::{
    artifact_depth, FrameTag, PageRegionKind, RegionPath, RenderedRegionAlignment,
    RenderedRegionWrapper,
};

#[test]
fn semantic_and_wrapper_labels() {
    assert_eq!(semantic_kind_label(&SemanticKind::RawBlock), "raw_block");
    assert_eq!(
        semantic_kind_label(&SemanticKind::Wrapper(WrapperKind::Columns)),
        "wrapper/columns"
    );
    assert_eq!(wrapper_kind_label(&WrapperKind::Ellipse), "ellipse");
}

#[test]
fn slot_labels_carry_indices() {
    assert_eq!(slot_label(&SlotStep::ListItem(3)), "list_item[3]");
    assert_eq!(slot_label(&SlotStep::TermDescription(10)), "term_description[10]");
    assert_eq!(slot_label(&SlotStep::FigureCaption), "figure_caption");
    let slot = SemanticSlot {
        label: SlotStep::TableCell(0),
        path: vec![1, 2],
        patch_path: None,
    };
    let summary = summarize_slot(&slot);
    assert_eq!(summary.label, "table_cell[0]");
    assert_eq!(summary.path, vec![1, 2]);
}

#[test]
fn region_and_wrapper_labels() {
    assert_eq!(page_region_label(PageRegionKind::Header), "header");
    assert_eq!(
        region_path_label(RegionPath::RootPage(PageRegionKind::Foreground)),
        "root_page/foreground"
    );
    assert_eq!(rendered_wrapper_label(RenderedRegionWrapper::Plain), "none");
    assert_eq!(
        rendered_wrapper_label(RenderedRegionWrapper::Align(RenderedRegionAlignment::Left)),
        "align/left"
    );
    assert_eq!(rendered_alignment_label(RenderedRegionAlignment::Start), "start");
}

#[test]
fn fallback_codes_have_numbered_labels() {
    let all = FallbackCode::all();
    assert_eq!(all.len(), 14);
    for (index, code) in all.iter().enumerate() {
        let prefix = format!("FB-{:03}-", index + 1);
        assert!(code.label().starts_with(&prefix), "{}", code.label());
    }
    assert_eq!(
        FallbackCode::GeneratedTypstSnippetPanicPath.label(),
        "FB-014-generated-typst-snippet-panic-path"
    );
}

#[test]
fn build_report_line_names_version_and_time() {
    assert_eq!(
        build_report_line("0.3.1", "2024-01-02T03:04:05Z"),
        "typst-diff 0.3.1 built 2024-01-02T03:04:05Z"
    );
}

#[test]
fn recorded_alignment_names_and_merging() {
    assert_eq!(named_recorded_alignment("center"), Some(RecordedAlignment::Center));
    assert_eq!(named_recorded_alignment("top"), None);
    let mut found = None;
    assert!(merge_recorded_alignment(&mut found, RecordedAlignment::Left));
    assert_eq!(found, Some(RecordedAlignment::Left));
    assert!(merge_recorded_alignment(&mut found, RecordedAlignment::Left));
    assert!(!merge_recorded_alignment(&mut found, RecordedAlignment::Right));
    assert_eq!(found, Some(RecordedAlignment::Left));
}

#[test]
fn opaque_visual_names() {
    assert!(is_opaque_visual_element_name("rect"));
    assert!(is_opaque_visual_element_name("image"));
    assert!(!is_opaque_visual_element_name("text"));
}

#[test]
fn container_kinds_map_to_semantic_kinds() {
    assert_eq!(ContainerKind::Terms.semantic_kind(), SemanticKind::Terms);
    assert_eq!(
        ContainerKind::Wrapper(WrapperKind::Pad).semantic_kind(),
        SemanticKind::Wrapper(WrapperKind::Pad)
    );
}

#[test]
fn patch_paths_and_footnote_calls() {
    let slots = vec![
        SemanticSlot {
            label: SlotStep::ListItem(0),
            path: vec![0],
            patch_path: Some(vec![0, 1]),
        },
        SemanticSlot {
            label: SlotStep::ListItem(1),
            path: vec![1],
            patch_path: None,
        },
    ];
    assert_eq!(patch_path_for_logical_path(&slots, &[0]), Some(vec![0, 1]));
    assert_eq!(patch_path_for_logical_path(&slots, &[1]), None);
    assert_eq!(patch_path_for_logical_path(&slots, &[2]), None);
    let footnote = SemanticSlot {
        label: SlotStep::FootnoteBody,
        path: vec![3, 0],
        patch_path: None,
    };
    assert_eq!(footnote_call_path(&footnote), Some(vec![3]));
    let not_first = SemanticSlot {
        label: SlotStep::FootnoteBody,
        path: vec![3, 1],
        patch_path: None,
    };
    assert_eq!(footnote_call_path(&not_first), None);
    assert_eq!(footnote_call_path(&slots[0]), None);
}

#[test]
fn recursed_owners_are_remembered() {
    let key = SemanticOwnerKey {
        kind: SemanticKind::List,
        slot_labels: vec![SlotStep::ListItem(0)],
        ordinal: 0,
    };
    let other = SemanticOwnerKey {
        kind: SemanticKind::List,
        slot_labels: vec![SlotStep::ListItem(1)],
        ordinal: 0,
    };
    let mut owners = RecursedOwners::new();
    assert!(!owner_already_recursed(&owners, &Some(key.copy_key())));
    mark_recursed_owner(&mut owners, &Some(key.copy_key()));
    mark_recursed_owner(&mut owners, &None);
    assert!(owner_already_recursed(&owners, &Some(key)));
    assert!(!owner_already_recursed(&owners, &Some(other)));
    assert!(!owner_already_recursed(&owners, &None));
}

#[test]
fn index_paths() {
    assert_eq!(direct_index_paths(3), vec![vec![0], vec![1], vec![2]]);
    assert_eq!(prepend_path_index(4, vec![vec![1], vec![]]), vec![vec![4, 1], vec![4]]);
    assert_eq!(prepend_realized_shell_path(Some(vec![vec![2]])), Some(vec![vec![0, 2]]));
    assert_eq!(prepend_realized_shell_path(None), None);
    assert!(path_is_under(&[1, 2, 3], &[1, 2]));
    assert!(!path_is_under(&[1, 2], &[]));
    assert!(!path_is_under(&[1], &[1, 2]));
    assert!(!path_is_under(&[2, 2], &[1]));
}

#[test]
fn content_key_emptiness() {
    assert!(ContentKey(String::new()).is_empty());
    assert!(!ContentKey("k".to_string()).is_empty());
}

#[test]
fn artifact_depth_counts_artifact_tags() {
    let tags = vec![
        FrameTag { is_artifact: true, elem_name: "header".to_string() },
        FrameTag { is_artifact: false, elem_name: "emph".to_string() },
        FrameTag { is_artifact: true, elem_name: "footer".to_string() },
    ];
    assert_eq!(artifact_depth(&tags), 2);
    assert_eq!(artifact_depth(&[]), 0);
}

#[test]
fn build_time_parses_utc_stamp() {
    assert_eq!(
        parse_build_time("2024-02-29T23:59:07Z"),
        Some(BuildTime { year: 2024, month: 2, day: 29, hour: 23, minute: 59, second: 7 })
    );
    assert_eq!(
        parse_build_time("+2024-01-02-extra T1:2:3:4Z"),
        Some(BuildTime { year: 2024, month: 1, day: 2, hour: 1, minute: 2, second: 3 })
    );
    assert_eq!(parse_build_time("-2024-01-02T01:02:03Z"), None);
    assert_eq!(
        parse_build_time("2024-01-02T01:02:03:04Z"),
        Some(BuildTime { year: 2024, month: 1, day: 2, hour: 1, minute: 2, second: 3 })
    );
    assert_eq!(parse_build_time("2024-01-02T01:02:03"), None);
    assert_eq!(parse_build_time("2024-01T01:02:03Z"), None);
    assert_eq!(parse_build_time("2024-300-02T01:02:03Z"), None);
    assert_eq!(parse_build_time("unknown"), None);
    assert!(pdf_timestamp("2024-02-29T23:59:07Z").is_some());
    assert!(pdf_timestamp("2023-02-29T23:59:07Z").is_none());
    assert!(pdf_timestamp("2024-13-01T00:00:00Z").is_none());
    assert!(pdf_timestamp("2024-01-01T24:00:00Z").is_none());
}
