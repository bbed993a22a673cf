use typst_diff::regions::{
    authored_align_wrapper, frame_trace_id, page_region_name, parse_align_call_alignment,
    push_rendered_region_wrapper_end, push_rendered_region_wrapper_start, region_log_index,
    rendered_region_alignment_name, rendered_region_context_source, rendered_region_page_markup,
    PageRegionKind, RegionPath, RenderedRegionAlignment, RenderedRegionEdit,
    RenderedRegionPageEdit, RenderedRegionSegmentEdit, RenderedRegionWrapper,
};
use typst_diff::render::{
    changed_tokens_typst_markup, needs_separator, word_ops_typst_markup, word_render_runs,
    ChangeColor, WordRenderRun,
};
use typst_diff::tokens::{Token, WordOp};

fn word_token(s: &str) -> Token {
    Token::from_text(s)
}

#[test]
fn word_render_runs_share_compact_substitution_policy() {
    let old = word_token("old");
    let new = word_token("new");
    let ops = vec![
        WordOp::Delete(vec![old.clone()]),
        WordOp::Insert(vec![new.clone()]),
    ];
    let runs = word_render_runs(&ops, true);

    assert!(matches!(
        runs.as_slice(),
        [
            WordRenderRun::Delete { visible: false, .. },
            WordRenderRun::Insert {
                color: ChangeColor::Blue,
                leading_separator: false,
                trailing_separator: false,
                ..
            }
        ]
    ));
}

#[test]
fn word_render_runs_share_separator_policy() {
    let ops = vec![
        WordOp::Equal(vec![word_token("matter")]),
        WordOp::Insert(vec![word_token("entirely")]),
    ];
    let runs = word_render_runs(&ops, false);

    assert!(matches!(
        runs.as_slice(),
        [
            WordRenderRun::Equal(_),
            WordRenderRun::Insert {
                color: ChangeColor::Green,
                leading_separator: true,
                trailing_separator: false,
                ..
            }
        ]
    ));
}

#[test]
fn separator_needed_only_between_word_characters() {
    assert!(needs_separator(&[word_token("matter")], &[word_token("entirely")]));
    assert!(needs_separator(&[word_token("2")], &[word_token("3")]));
    assert!(!needs_separator(&[word_token("and")], &[word_token(".")]));
    assert!(!needs_separator(&[word_token("a ")], &[word_token("b")]));
    assert!(!needs_separator(&[], &[word_token("b")]));
    assert!(!needs_separator(&[word_token("")], &[word_token("b")]));
}

#[test]
fn change_colors_have_typst_hex() {
    assert_eq!(ChangeColor::Green.typst_hex(), "#00b400");
    assert_eq!(ChangeColor::Blue.typst_hex(), "#0064dc");
}

#[test]
fn markup_strikes_deletes_and_colours_inserts() {
    let ops = vec![
        WordOp::Equal(vec![word_token("Page 1 of ")]),
        WordOp::Delete(vec![word_token("2")]),
        WordOp::Insert(vec![word_token("3")]),
    ];
    assert_eq!(
        word_ops_typst_markup(&ops, false),
        "Page 1 of #strike[#text(fill: rgb(\"#dc0000\"))[2]]#text(fill: rgb(\"#00b400\"))[ 3]"
    );
    assert_eq!(
        word_ops_typst_markup(&ops, true),
        "Page 1 of #text(fill: rgb(\"#0064dc\"))[3]"
    );
}

#[test]
fn changed_tokens_markup_adds_separators() {
    assert_eq!(changed_tokens_typst_markup(&[word_token("x")], true, true), " x ");
    assert_eq!(changed_tokens_typst_markup(&[word_token("[y]")], false, false), "\\[y\\]");
}

fn page(word_ops: Vec<WordOp>, segments: Vec<RenderedRegionSegmentEdit>) -> RenderedRegionPageEdit {
    RenderedRegionPageEdit {
        page: 1,
        base: String::new(),
        word_ops,
        segments,
        changed: true,
    }
}

#[test]
fn page_markup_joins_segments_with_fill() {
    let left = RenderedRegionSegmentEdit {
        base: "L".to_string(),
        word_ops: vec![WordOp::Equal(vec![word_token("L")])],
    };
    let right = RenderedRegionSegmentEdit {
        base: "R".to_string(),
        word_ops: vec![WordOp::Insert(vec![word_token("R")])],
    };
    let p = page(vec![WordOp::Equal(vec![word_token("ignored")])], vec![left, right]);
    assert_eq!(
        rendered_region_page_markup(&p, false),
        "L #h(1fr) #text(fill: rgb(\"#00b400\"))[R]"
    );
    let single = page(vec![WordOp::Equal(vec![word_token("whole")])], vec![]);
    assert_eq!(rendered_region_page_markup(&single, false), "whole");
}

#[test]
fn wrapper_markup_opens_and_closes() {
    let mut source = String::new();
    push_rendered_region_wrapper_start(&mut source, RenderedRegionWrapper::Plain);
    push_rendered_region_wrapper_end(&mut source, RenderedRegionWrapper::Plain);
    push_rendered_region_wrapper_start(
        &mut source,
        RenderedRegionWrapper::Align(RenderedRegionAlignment::Center),
    );
    push_rendered_region_wrapper_end(
        &mut source,
        RenderedRegionWrapper::Align(RenderedRegionAlignment::Center),
    );
    assert_eq!(source, "[]align(center)[]");
    assert_eq!(rendered_region_alignment_name(RenderedRegionAlignment::End), "end");
}

#[test]
fn region_names_indices_and_trace_ids() {
    assert_eq!(page_region_name(PageRegionKind::Background), "background");
    assert_eq!(region_log_index(RegionPath::RootPage(PageRegionKind::Header)), 0);
    assert_eq!(region_log_index(RegionPath::RootPage(PageRegionKind::Foreground)), 3);
    assert_eq!(frame_trace_id("old", PageRegionKind::Footer, 12), "old/footer/page-12");
}

#[test]
fn align_call_parsing() {
    assert_eq!(
        parse_align_call_alignment("  (alignment.right, x)"),
        Some(RenderedRegionAlignment::Right)
    );
    assert_eq!(parse_align_call_alignment("(center)[x]"), Some(RenderedRegionAlignment::Center));
    assert_eq!(parse_align_call_alignment("(top)"), None);
    assert_eq!(parse_align_call_alignment("center)"), None);
    assert_eq!(parse_align_call_alignment("(center"), None);
}

#[test]
fn authored_align_wrapper_needs_exactly_one_call() {
    assert_eq!(
        authored_align_wrapper("#align(right)[Page]"),
        Some(RenderedRegionWrapper::Align(RenderedRegionAlignment::Right))
    );
    assert_eq!(authored_align_wrapper("#align(left)[a] #align(right)[b]"), None);
    assert_eq!(authored_align_wrapper("no alignment here"), None);
    assert_eq!(
        authored_align_wrapper("#alignment #align (start)[x]"),
        Some(RenderedRegionWrapper::Align(RenderedRegionAlignment::Start))
    );
}

#[test]
fn context_source_picks_markup_by_page() {
    let region = RenderedRegionEdit {
        kind: PageRegionKind::Header,
        wrapper: RenderedRegionWrapper::Align(RenderedRegionAlignment::Right),
        pages: vec![
            RenderedRegionPageEdit {
                page: 1,
                base: "A".to_string(),
                word_ops: vec![WordOp::Equal(vec![word_token("A")])],
                segments: vec![],
                changed: false,
            },
            RenderedRegionPageEdit {
                page: 2,
                base: "B#".to_string(),
                word_ops: vec![WordOp::Insert(vec![word_token("B")])],
                segments: vec![],
                changed: true,
            },
        ],
    };
    assert_eq!(
        rendered_region_context_source(&region, false),
        "#context {\n  let p = counter(page).get().first()\n  if p == 1 { align(right)[A] }\n  else if p == 2 { align(right)[#text(fill: rgb(\"#00b400\"))[B]] }\n  else { align(right)[B\\#] }\n}\n"
    );
}
