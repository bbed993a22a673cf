//! The stable labels that debug output uses for semantic kinds, slots,
//! regions and wrappers.

use vstd::prelude::*;

use crate::annotated::{SemanticKind, SemanticSlot, SlotStep, WrapperKind};
use crate::regions::{
    alignment_name, region_name, PageRegionKind, RegionPath, RenderedRegionAlignment,
    RenderedRegionWrapper,
};
use crate::text::{decimal, push_char, push_decimal};

verus! {

/// The label of each wrapper kind.
pub open spec fn wrapper_label(kind: WrapperKind) -> Seq<char> {
    match kind {
        WrapperKind::Align => "align"@,
        WrapperKind::Pad => "pad"@,
        WrapperKind::Place => "place"@,
        WrapperKind::Columns => "columns"@,
        WrapperKind::Box => "box"@,
        WrapperKind::Block => "block"@,
        WrapperKind::Rect => "rect"@,
        WrapperKind::Circle => "circle"@,
        WrapperKind::Ellipse => "ellipse"@,
    }
}

/// The label of a wrapper kind.
pub fn wrapper_kind_label(kind: &WrapperKind) -> (label: &'static str)
    ensures
        label@ == wrapper_label(*kind),
{
    match kind {
        WrapperKind::Align => "align",
        WrapperKind::Pad => "pad",
        WrapperKind::Place => "place",
        WrapperKind::Columns => "columns",
        WrapperKind::Box => "box",
        WrapperKind::Block => "block",
        WrapperKind::Rect => "rect",
        WrapperKind::Circle => "circle",
        WrapperKind::Ellipse => "ellipse",
    }
}

/// The label of each semantic kind; wrappers read `wrapper/{kind}`.
pub open spec fn semantic_label(kind: SemanticKind) -> Seq<char> {
    match kind {
        SemanticKind::Paragraph => "paragraph"@,
        SemanticKind::Heading => "heading"@,
        SemanticKind::RawBlock => "raw_block"@,
        SemanticKind::List => "list"@,
        SemanticKind::Enum => "enum"@,
        SemanticKind::Terms => "terms"@,
        SemanticKind::Table => "table"@,
        SemanticKind::Grid => "grid"@,
        SemanticKind::Stack => "stack"@,
        SemanticKind::Figure => "figure"@,
        SemanticKind::Quote => "quote"@,
        SemanticKind::Equation => "equation"@,
        SemanticKind::Wrapper(w) => "wrapper/"@ + wrapper_label(w),
    }
}

/// The label of a semantic kind.
pub fn semantic_kind_label(kind: &SemanticKind) -> (label: String)
    ensures
        label@ == semantic_label(*kind),
{
    match kind {
        SemanticKind::Paragraph => "paragraph".to_owned(),
        SemanticKind::Heading => "heading".to_owned(),
        SemanticKind::RawBlock => "raw_block".to_owned(),
        SemanticKind::List => "list".to_owned(),
        SemanticKind::Enum => "enum".to_owned(),
        SemanticKind::Terms => "terms".to_owned(),
        SemanticKind::Table => "table".to_owned(),
        SemanticKind::Grid => "grid".to_owned(),
        SemanticKind::Stack => "stack".to_owned(),
        SemanticKind::Figure => "figure".to_owned(),
        SemanticKind::Quote => "quote".to_owned(),
        SemanticKind::Equation => "equation".to_owned(),
        SemanticKind::Wrapper(w) => {
            let mut label = "wrapper/".to_owned();
            label.append(wrapper_kind_label(w));
            label
        },
    }
}

/// `{name}[{index}]`.
pub open spec fn indexed(name: Seq<char>, index: usize) -> Seq<char> {
    name + "["@ + decimal(index as nat) + "]"@
}

/// The label of each slot step.
pub open spec fn slot_label_spec(step: SlotStep) -> Seq<char> {
    match step {
        SlotStep::ListItem(i) => indexed("list_item"@, i),
        SlotStep::EnumItem(i) => indexed("enum_item"@, i),
        SlotStep::Term(i) => indexed("term"@, i),
        SlotStep::TermDescription(i) => indexed("term_description"@, i),
        SlotStep::FigureBody => "figure_body"@,
        SlotStep::FigureCaption => "figure_caption"@,
        SlotStep::FootnoteBody => "footnote_body"@,
        SlotStep::QuoteBody => "quote_body"@,
        SlotStep::WrapperBody => "wrapper_body"@,
        SlotStep::TableCell(i) => indexed("table_cell"@, i),
        SlotStep::GridCell(i) => indexed("grid_cell"@, i),
        SlotStep::StackChild(i) => indexed("stack_child"@, i),
    }
}

fn indexed_label(name: &str, index: usize) -> (label: String)
    ensures
        label@ == indexed(name@, index),
{
    let mut label = name.to_owned();
    label.append("[");
    push_decimal(&mut label, index);
    push_char(&mut label, ']');
    proof {
        reveal_strlit("]");
    }
    assert(label@ =~= indexed(name@, index));
    label
}

/// The label of a slot step.
pub fn slot_label(step: &SlotStep) -> (label: String)
    ensures
        label@ == slot_label_spec(*step),
{
    match step {
        SlotStep::ListItem(i) => indexed_label("list_item", *i),
        SlotStep::EnumItem(i) => indexed_label("enum_item", *i),
        SlotStep::Term(i) => indexed_label("term", *i),
        SlotStep::TermDescription(i) => indexed_label("term_description", *i),
        SlotStep::FigureBody => "figure_body".to_owned(),
        SlotStep::FigureCaption => "figure_caption".to_owned(),
        SlotStep::FootnoteBody => "footnote_body".to_owned(),
        SlotStep::QuoteBody => "quote_body".to_owned(),
        SlotStep::WrapperBody => "wrapper_body".to_owned(),
        SlotStep::TableCell(i) => indexed_label("table_cell", *i),
        SlotStep::GridCell(i) => indexed_label("grid_cell", *i),
        SlotStep::StackChild(i) => indexed_label("stack_child", *i),
    }
}

/// The summary of a slot in debug output: its label and its path.
pub struct SlotSummary {
    pub label: String,
    pub path: Vec<usize>,
}

/// Summarises a slot.
pub fn summarize_slot(slot: &SemanticSlot) -> (summary: SlotSummary)
    ensures
        summary.label@ == slot_label_spec(slot.label),
        summary.path@ == slot.path@,
{
    let mut path: Vec<usize> = Vec::new();
    let mut i: usize = 0;
    while i < slot.path.len()
        invariant
            i <= slot.path@.len(),
            path@ == slot.path@.subrange(0, i as int),
        decreases slot.path@.len() - i,
    {
        path.push(slot.path[i]);
        i += 1;
    }
    assert(slot.path@.subrange(0, i as int) =~= slot.path@);
    SlotSummary { label: slot_label(&slot.label), path }
}

/// The label of a page region.
pub fn page_region_label(kind: PageRegionKind) -> (label: String)
    ensures
        label@ == region_name(kind),
{
    crate::regions::page_region_name(kind).to_owned()
}

/// The label of each region path: `root_page/{region}`.
pub open spec fn region_path_label_spec(path: RegionPath) -> Seq<char> {
    match path {
        RegionPath::RootPage(kind) => "root_page/"@ + region_name(kind),
    }
}

/// The label of a region path.
pub fn region_path_label(path: RegionPath) -> (label: String)
    ensures
        label@ == region_path_label_spec(path),
{
    match path {
        RegionPath::RootPage(kind) => {
            let mut label = "root_page/".to_owned();
            label.append(crate::regions::page_region_name(kind));
            label
        },
    }
}

/// The label of an alignment.
pub fn rendered_alignment_label(alignment: RenderedRegionAlignment) -> (label: &'static str)
    ensures
        label@ == alignment_name(alignment),
{
    crate::regions::rendered_region_alignment_name(alignment)
}

/// The label of each wrapper: `none`, or `align/{alignment}`.
pub open spec fn wrapper_label_spec(wrapper: RenderedRegionWrapper) -> Seq<char> {
    match wrapper {
        RenderedRegionWrapper::Plain => "none"@,
        RenderedRegionWrapper::Align(a) => "align/"@ + alignment_name(a),
    }
}

/// The label of a rendered region wrapper.
pub fn rendered_wrapper_label(wrapper: RenderedRegionWrapper) -> (label: String)
    ensures
        label@ == wrapper_label_spec(wrapper),
{
    match wrapper {
        RenderedRegionWrapper::Plain => "none".to_owned(),
        RenderedRegionWrapper::Align(alignment) => {
            let mut label = "align/".to_owned();
            label.append(rendered_alignment_label(alignment));
            label
        },
    }
}

} // verus!
