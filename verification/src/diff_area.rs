//! The areas of a document that a diff selection can belong to.

use vstd::prelude::*;

verus! {

/// The document area that a diff edit was computed for.
#[derive(Clone, Copy, Debug, PartialEq, Eq, Structural)]
pub enum DiffAreaKind {
    BodyBlock,
    SemanticPageRegion,
    RenderedPageRegion,
    StructuredContainerRegion,
}

/// The stable name that traces use for each area.
pub open spec fn area_trace_name(kind: DiffAreaKind) -> Seq<char> {
    match kind {
        DiffAreaKind::BodyBlock => "body_block"@,
        DiffAreaKind::SemanticPageRegion => "semantic_page_region"@,
        DiffAreaKind::RenderedPageRegion => "rendered_page_region"@,
        DiffAreaKind::StructuredContainerRegion => "structured_container_region"@,
    }
}

impl DiffAreaKind {
    /// The stable trace name of this area.
    pub fn trace_name(self) -> (name: &'static str)
        ensures
            name@ == area_trace_name(self),
    {
        match self {
            DiffAreaKind::BodyBlock => "body_block",
            DiffAreaKind::SemanticPageRegion => "semantic_page_region",
            DiffAreaKind::RenderedPageRegion => "rendered_page_region",
            DiffAreaKind::StructuredContainerRegion => "structured_container_region",
        }
    }
}

} // verus!
