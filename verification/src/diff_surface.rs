//! The surfaces on which an edit was computed, and a selected edit that
//! carries its area and surface with its content.

use vstd::prelude::*;

use crate::diff_area::DiffAreaKind;

verus! {

/// The kind of surface that a diff edit was computed on.
#[derive(Clone, Copy, Debug, PartialEq, Eq, Structural)]
pub enum DiffSurfaceKind {
    WordTokens,
    RawLines,
    EquationTokens,
    NonTokenDisplay,
    OpaqueVisual,
    RenderedRegionText,
    RenderedRegionSegment,
}

/// The stable name that traces use for each surface.
pub open spec fn surface_trace_name(kind: DiffSurfaceKind) -> Seq<char> {
    match kind {
        DiffSurfaceKind::WordTokens => "word_tokens"@,
        DiffSurfaceKind::RawLines => "raw_lines"@,
        DiffSurfaceKind::EquationTokens => "equation_tokens"@,
        DiffSurfaceKind::NonTokenDisplay => "non_token_display"@,
        DiffSurfaceKind::OpaqueVisual => "opaque_visual"@,
        DiffSurfaceKind::RenderedRegionText => "rendered_region_text"@,
        DiffSurfaceKind::RenderedRegionSegment => "rendered_region_segment"@,
    }
}

impl DiffSurfaceKind {
    /// The stable trace name of this surface.
    pub fn trace_name(self) -> (name: &'static str)
        ensures
            name@ == surface_trace_name(self),
    {
        match self {
            DiffSurfaceKind::WordTokens => "word_tokens",
            DiffSurfaceKind::RawLines => "raw_lines",
            DiffSurfaceKind::EquationTokens => "equation_tokens",
            DiffSurfaceKind::NonTokenDisplay => "non_token_display",
            DiffSurfaceKind::OpaqueVisual => "opaque_visual",
            DiffSurfaceKind::RenderedRegionText => "rendered_region_text",
            DiffSurfaceKind::RenderedRegionSegment => "rendered_region_segment",
        }
    }
}

/// An edit payload together with the surface it was computed on.
#[derive(Clone, Debug, PartialEq, Eq)]
pub struct DiffSurfaceEdit<T> {
    kind: DiffSurfaceKind,
    content: T,
}

impl<T> DiffSurfaceEdit<T> {
    /// The surface of the edit.
    pub closed spec fn spec_kind(&self) -> DiffSurfaceKind {
        self.kind
    }

    /// The payload of the edit.
    pub closed spec fn spec_content(&self) -> T {
        self.content
    }

    pub fn new(kind: DiffSurfaceKind, content: T) -> (edit: Self)
        ensures
            edit.spec_kind() == kind,
            edit.spec_content() == content,
    {
        DiffSurfaceEdit { kind, content }
    }

    pub fn kind(&self) -> (kind: DiffSurfaceKind)
        ensures
            kind == self.spec_kind(),
    {
        self.kind
    }

    pub fn into_content(self) -> (content: T)
        ensures
            content == self.spec_content(),
    {
        self.content
    }
}

/// A selected edit: the area it belongs to, its surface and its payload.
#[derive(Clone, Debug, PartialEq, Eq)]
pub struct DiffSelection<T> {
    area: DiffAreaKind,
    surface: DiffSurfaceEdit<T>,
}

impl<T> DiffSelection<T> {
    /// The area of the selection.
    pub closed spec fn spec_area(&self) -> DiffAreaKind {
        self.area
    }

    /// The surface of the selection.
    pub closed spec fn spec_surface_kind(&self) -> DiffSurfaceKind {
        self.surface.spec_kind()
    }

    /// The payload of the selection.
    pub closed spec fn spec_content(&self) -> T {
        self.surface.spec_content()
    }

    pub fn new(area: DiffAreaKind, surface: DiffSurfaceKind, content: T) -> (selection: Self)
        ensures
            selection.spec_area() == area,
            selection.spec_surface_kind() == surface,
            selection.spec_content() == content,
    {
        DiffSelection { area, surface: DiffSurfaceEdit::new(surface, content) }
    }

    pub fn area(&self) -> (area: DiffAreaKind)
        ensures
            area == self.spec_area(),
    {
        self.area
    }

    pub fn surface_kind(&self) -> (kind: DiffSurfaceKind)
        ensures
            kind == self.spec_surface_kind(),
    {
        self.surface.kind()
    }

    pub fn into_content(self) -> (content: T)
        ensures
            content == self.spec_content(),
    {
        self.surface.into_content()
    }
}

} // verus!
