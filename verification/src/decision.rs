//! Lightweight decision and fallback identifiers.
//!
//! Fallback codes name the places where the diff falls back to a weaker
//! matching strategy; call sites emit them where the decision is made.

use vstd::prelude::*;

verus! {

/// A fallback decision of the diff.
#[derive(Clone, Copy, Debug, PartialEq, Eq, Hash, Structural)]
pub enum FallbackCode {
    PositionalSequencePairing,
    ContextVisibleTextPairing,
    VisibleTextOwnerBlockMatching,
    UniqueChangedSlotPair,
    SlotBearingDescendantPair,
    DuplicateEditPruningByTextSignature,
    UniqueWrapperBodyRecovery,
    UniquePartialItemContainerMapping,
    AnonymousOpaquePreSurfaceGrafting,
    WordDiffOrOpaqueReplacementLadder,
    BroadEmptyBlockEquationCarrierRecognition,
    FootnoteMarkerMatchingByVisibleNumber,
    RenderedRegionSourceStringAlignParsing,
    GeneratedTypstSnippetPanicPath,
}

/// The stable label of each fallback code.
pub open spec fn fallback_label(code: FallbackCode) -> Seq<char> {
    match code {
        FallbackCode::PositionalSequencePairing => "FB-001-positional-sequence-pairing"@,
        FallbackCode::ContextVisibleTextPairing => "FB-002-context-visible-text-pairing"@,
        FallbackCode::VisibleTextOwnerBlockMatching => "FB-003-visible-text-owner-block-matching"@,
        FallbackCode::UniqueChangedSlotPair => "FB-004-unique-changed-slot-pair"@,
        FallbackCode::SlotBearingDescendantPair => "FB-005-slot-bearing-descendant-pair"@,
        FallbackCode::DuplicateEditPruningByTextSignature => "FB-006-duplicate-edit-pruning-by-text-signature"@,
        FallbackCode::UniqueWrapperBodyRecovery => "FB-007-unique-wrapper-body-recovery"@,
        FallbackCode::UniquePartialItemContainerMapping => "FB-008-unique-partial-item-container-mapping"@,
        FallbackCode::AnonymousOpaquePreSurfaceGrafting => "FB-009-anonymous-opaque-pre-surface-grafting"@,
        FallbackCode::WordDiffOrOpaqueReplacementLadder => "FB-010-word-diff-or-opaque-replacement-ladder"@,
        FallbackCode::BroadEmptyBlockEquationCarrierRecognition =>
            "FB-011-broad-empty-block-equation-carrier-recognition"@,
        FallbackCode::FootnoteMarkerMatchingByVisibleNumber => "FB-012-footnote-marker-matching-by-visible-number"@,
        FallbackCode::RenderedRegionSourceStringAlignParsing => "FB-013-rendered-region-source-string-align-parsing"@,
        FallbackCode::GeneratedTypstSnippetPanicPath => "FB-014-generated-typst-snippet-panic-path"@,
    }
}

/// The fallback codes in declaration order.
pub open spec fn all_fallback_codes() -> Seq<FallbackCode> {
    seq![
        FallbackCode::PositionalSequencePairing,
        FallbackCode::ContextVisibleTextPairing,
        FallbackCode::VisibleTextOwnerBlockMatching,
        FallbackCode::UniqueChangedSlotPair,
        FallbackCode::SlotBearingDescendantPair,
        FallbackCode::DuplicateEditPruningByTextSignature,
        FallbackCode::UniqueWrapperBodyRecovery,
        FallbackCode::UniquePartialItemContainerMapping,
        FallbackCode::AnonymousOpaquePreSurfaceGrafting,
        FallbackCode::WordDiffOrOpaqueReplacementLadder,
        FallbackCode::BroadEmptyBlockEquationCarrierRecognition,
        FallbackCode::FootnoteMarkerMatchingByVisibleNumber,
        FallbackCode::RenderedRegionSourceStringAlignParsing,
        FallbackCode::GeneratedTypstSnippetPanicPath,
    ]
}

impl FallbackCode {
    /// Every fallback code, in declaration order.
    pub fn all() -> (codes: Vec<FallbackCode>)
        ensures
            codes@ == all_fallback_codes(),
    {
        let codes = vec![
            FallbackCode::PositionalSequencePairing,
            FallbackCode::ContextVisibleTextPairing,
            FallbackCode::VisibleTextOwnerBlockMatching,
            FallbackCode::UniqueChangedSlotPair,
            FallbackCode::SlotBearingDescendantPair,
            FallbackCode::DuplicateEditPruningByTextSignature,
            FallbackCode::UniqueWrapperBodyRecovery,
            FallbackCode::UniquePartialItemContainerMapping,
            FallbackCode::AnonymousOpaquePreSurfaceGrafting,
            FallbackCode::WordDiffOrOpaqueReplacementLadder,
            FallbackCode::BroadEmptyBlockEquationCarrierRecognition,
            FallbackCode::FootnoteMarkerMatchingByVisibleNumber,
            FallbackCode::RenderedRegionSourceStringAlignParsing,
            FallbackCode::GeneratedTypstSnippetPanicPath,
        ];
        assert(codes@ =~= all_fallback_codes());
        codes
    }

    /// The stable label of the code.
    pub fn label(self) -> (label: &'static str)
        ensures
            label@ == fallback_label(self),
    {
        match self {
            FallbackCode::PositionalSequencePairing => "FB-001-positional-sequence-pairing",
            FallbackCode::ContextVisibleTextPairing => "FB-002-context-visible-text-pairing",
            FallbackCode::VisibleTextOwnerBlockMatching => "FB-003-visible-text-owner-block-matching",
            FallbackCode::UniqueChangedSlotPair => "FB-004-unique-changed-slot-pair",
            FallbackCode::SlotBearingDescendantPair => "FB-005-slot-bearing-descendant-pair",
            FallbackCode::DuplicateEditPruningByTextSignature => "FB-006-duplicate-edit-pruning-by-text-signature",
            FallbackCode::UniqueWrapperBodyRecovery => "FB-007-unique-wrapper-body-recovery",
            FallbackCode::UniquePartialItemContainerMapping => "FB-008-unique-partial-item-container-mapping",
            FallbackCode::AnonymousOpaquePreSurfaceGrafting => "FB-009-anonymous-opaque-pre-surface-grafting",
            FallbackCode::WordDiffOrOpaqueReplacementLadder => "FB-010-word-diff-or-opaque-replacement-ladder",
            FallbackCode::BroadEmptyBlockEquationCarrierRecognition =>
                "FB-011-broad-empty-block-equation-carrier-recognition",
            FallbackCode::FootnoteMarkerMatchingByVisibleNumber => "FB-012-footnote-marker-matching-by-visible-number",
            FallbackCode::RenderedRegionSourceStringAlignParsing => "FB-013-rendered-region-source-string-align-parsing",
            FallbackCode::GeneratedTypstSnippetPanicPath => "FB-014-generated-typst-snippet-panic-path",
        }
    }
}

/// The evidence a decision of the diff rests on.
#[derive(Clone, Copy, Debug, PartialEq, Eq, Hash, Structural)]
pub enum DecisionProof {
    ExactPath,
    RecordedContext,
    SemanticOwner,
    ContainerSlot,
    StyleContext,
    RenderedTag,
    OpaqueVisualCarrier,
    Unsupported,
}


/// The position of a code in declaration order, from 0.
pub open spec fn code_index(code: FallbackCode) -> nat {
    match code {
        FallbackCode::PositionalSequencePairing => 0,
        FallbackCode::ContextVisibleTextPairing => 1,
        FallbackCode::VisibleTextOwnerBlockMatching => 2,
        FallbackCode::UniqueChangedSlotPair => 3,
        FallbackCode::SlotBearingDescendantPair => 4,
        FallbackCode::DuplicateEditPruningByTextSignature => 5,
        FallbackCode::UniqueWrapperBodyRecovery => 6,
        FallbackCode::UniquePartialItemContainerMapping => 7,
        FallbackCode::AnonymousOpaquePreSurfaceGrafting => 8,
        FallbackCode::WordDiffOrOpaqueReplacementLadder => 9,
        FallbackCode::BroadEmptyBlockEquationCarrierRecognition => 10,
        FallbackCode::FootnoteMarkerMatchingByVisibleNumber => 11,
        FallbackCode::RenderedRegionSourceStringAlignParsing => 12,
        FallbackCode::GeneratedTypstSnippetPanicPath => 13,
    }
}

/// The decimal digit for a value below ten.
pub open spec fn digit_char(d: nat) -> char {
    (d + 48) as char
}

/// `FB-`, the number in three decimal digits, and `-`.
pub open spec fn label_prefix(n: nat) -> Seq<char> {
    seq!['F', 'B', '-', digit_char(n / 100), digit_char((n / 10) % 10), digit_char(n % 10), '-']
}

/// A character of a label's name: a lower-case ASCII letter, a digit or `-`.
pub open spec fn is_name_char(c: char) -> bool {
    ('a' <= c <= 'z') || ('0' <= c <= '9') || c == '-'
}

/// A label: the prefix for its number followed by a non-empty name.
pub open spec fn is_label_of(label: Seq<char>, n: nat) -> bool {
    &&& label.len() > 7
    &&& label.subrange(0, 7) == label_prefix(n)
    &&& forall|k: int| 7 <= k < label.len() ==> is_name_char(#[trigger] label[k])
}

proof fn lemma_label_form(code: FallbackCode)
    ensures
        is_label_of(fallback_label(code), code_index(code) + 1),
{
    reveal_strlit("FB-001-positional-sequence-pairing");
    reveal_strlit("FB-002-context-visible-text-pairing");
    reveal_strlit("FB-003-visible-text-owner-block-matching");
    reveal_strlit("FB-004-unique-changed-slot-pair");
    reveal_strlit("FB-005-slot-bearing-descendant-pair");
    reveal_strlit("FB-006-duplicate-edit-pruning-by-text-signature");
    reveal_strlit("FB-007-unique-wrapper-body-recovery");
    reveal_strlit("FB-008-unique-partial-item-container-mapping");
    reveal_strlit("FB-009-anonymous-opaque-pre-surface-grafting");
    reveal_strlit("FB-010-word-diff-or-opaque-replacement-ladder");
    reveal_strlit("FB-011-broad-empty-block-equation-carrier-recognition");
    reveal_strlit("FB-012-footnote-marker-matching-by-visible-number");
    reveal_strlit("FB-013-rendered-region-source-string-align-parsing");
    reveal_strlit("FB-014-generated-typst-snippet-panic-path");
    let label = fallback_label(code);
    assert(label.subrange(0, 7) =~= label_prefix(code_index(code) + 1));
}

/// The list of fallback codes holds every code exactly once, fourteen in all.
pub proof fn law_all_codes_each_once()
    ensures
        all_fallback_codes().len() == 14,
        all_fallback_codes().no_duplicates(),
        forall|code: FallbackCode| #[trigger] all_fallback_codes().contains(code),
        forall|i: int| 0 <= i < 14 ==> code_index(#[trigger] all_fallback_codes()[i]) == i,
{
    let all = all_fallback_codes();
    assert forall|i: int| 0 <= i < 14 implies code_index(#[trigger] all[i]) == i by {}
    assert forall|code: FallbackCode| #[trigger] all.contains(code) by {
        assert(all[code_index(code) as int] == code);
    }
    assert forall|i: int, j: int| 0 <= i < all.len() && 0 <= j < all.len() && i != j implies all[i] != all[j] by {
        assert(code_index(all[i]) == i);
        assert(code_index(all[j]) == j);
    }
}

/// The label of the code at position `i` of the list is `FB-`, `i + 1` in
/// three digits, `-` and a non-empty name of lower-case letters, digits and
/// `-`; so two codes have the same label exactly when they are the same code.
pub proof fn law_fallback_labels()
    ensures
        forall|i: int| 0 <= i < 14 ==> is_label_of(fallback_label(#[trigger] all_fallback_codes()[i]), (i + 1) as nat),
        forall|c1: FallbackCode, c2: FallbackCode|
            (#[trigger] fallback_label(c1) == #[trigger] fallback_label(c2)) <==> c1 == c2,
{
    law_all_codes_each_once();
    assert forall|i: int| 0 <= i < 14 implies is_label_of(fallback_label(#[trigger] all_fallback_codes()[i]), (i + 1) as nat) by {
        lemma_label_form(all_fallback_codes()[i]);
    }
    assert forall|c1: FallbackCode, c2: FallbackCode|
        (#[trigger] fallback_label(c1) == #[trigger] fallback_label(c2)) implies c1 == c2 by {
        lemma_label_form(c1);
        lemma_label_form(c2);
        let n1 = code_index(c1) + 1;
        let n2 = code_index(c2) + 1;
        assert(label_prefix(n1) == label_prefix(n2));
        assert(label_prefix(n1)[4] == label_prefix(n2)[4]);
        assert(label_prefix(n1)[5] == label_prefix(n2)[5]);
        assert(n1 == n2);
    }
}

} // verus!
