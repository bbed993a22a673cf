use typst_diff::annotated::{SemanticKind, SlotStep};
use typst_diff::block_edit_plan::{
    plan_annotated_diff, BlockDecision, BlockStep, DeleteAction, DeleteStep, EqualAction,
    EqualFacts, PairFacts, ReplaceAction, ReplaceStep,
};
use typst_diff::block_edit_plan::{plan_block_replacement, ReplacementChoice, ReplacementFacts};
use typst_diff::owners::SemanticOwnerKey;

fn key(ordinal: usize) -> Option<SemanticOwnerKey> {
    Some(SemanticOwnerKey {
        kind: SemanticKind::Figure,
        slot_labels: vec![SlotStep::FigureBody],
        ordinal,
    })
}

fn plain_equal() -> EqualFacts {
    EqualFacts {
        new_is_empty_shell: false,
        old_owner: false,
        new_owner: false,
        old_defers: false,
        new_defers: false,
        old_blank: false,
        new_blank: false,
        old_display_equation_owner: false,
        new_display_equation_owner: false,
        new_surface: None,
        can_recurse: false,
        new_key: None,
        subtree_equal: false,
        slot_edits: false,
        new_text_empty: false,
        owned_surface_edit: false,
        equation_origins: false,
        textual_word_change: false,
        empty_realized_equation_owner: false,
        presentation_changed: false,
        context_split: false,
        replacement_edits: false,
        surfaces_to_mark: vec![],
    }
}

fn owned_equal(ordinal: usize, surfaces: Vec<String>) -> EqualFacts {
    EqualFacts {
        old_owner: true,
        new_owner: true,
        can_recurse: true,
        new_key: key(ordinal),
        subtree_equal: true,
        surfaces_to_mark: surfaces,
        ..plain_equal()
    }
}

fn no_pair() -> PairFacts {
    PairFacts { can_recurse: false, has_edits: false, surfaces_to_mark: vec![] }
}

fn replace(new_key: Option<SemanticOwnerKey>) -> ReplaceStep {
    ReplaceStep {
        old_owner: true,
        old_blank: false,
        new_owner: true,
        new_blank: false,
        new_key,
        new_surface: None,
        new_is_empty_shell: false,
        own: no_pair(),
        old_deferred: no_pair(),
        new_deferred: no_pair(),
        both_deferred: no_pair(),
    }
}

#[test]
fn recursed_owner_is_entered_once() {
    let ops = vec![
        BlockStep::Equal(owned_equal(0, vec![])),
        BlockStep::Equal(owned_equal(0, vec![])),
        BlockStep::Replace(replace(key(0))),
        BlockStep::Replace(replace(key(1))),
    ];
    let plan = plan_annotated_diff(&ops);
    assert_eq!(
        plan,
        vec![
            BlockDecision::Equal(EqualAction::KeepRecursed),
            BlockDecision::Equal(EqualAction::Keep),
            BlockDecision::Replace(false, false, ReplaceAction::SkipRecursed),
            BlockDecision::Replace(false, false, ReplaceAction::Replace),
        ]
    );
}

#[test]
fn drawn_surface_is_skipped_once() {
    let surfaced = EqualFacts { new_surface: Some("x = 1".to_string()), ..plain_equal() };
    let ops = vec![
        BlockStep::Equal(owned_equal(0, vec!["x = 1".to_string()])),
        BlockStep::Equal(surfaced),
        BlockStep::Equal(EqualFacts { new_surface: Some("x = 1".to_string()), ..plain_equal() }),
    ];
    let plan = plan_annotated_diff(&ops);
    assert_eq!(
        plan,
        vec![
            BlockDecision::Equal(EqualAction::KeepRecursed),
            BlockDecision::Equal(EqualAction::SkipSurface),
            BlockDecision::Equal(EqualAction::Keep),
        ]
    );
}

#[test]
fn delete_and_insert_with_shared_owner_become_one_replacement() {
    let paired = DeleteStep {
        owners_match: true,
        new_key: key(2),
        new_surface: None,
        pair: PairFacts { can_recurse: true, has_edits: true, surfaces_to_mark: vec![] },
    };
    let ops = vec![
        BlockStep::Delete(paired),
        BlockStep::Insert(false),
        BlockStep::Replace(replace(key(2))),
        BlockStep::Delete(DeleteStep {
            owners_match: true,
            new_key: key(3),
            new_surface: None,
            pair: no_pair(),
        }),
    ];
    let plan = plan_annotated_diff(&ops);
    assert_eq!(
        plan,
        vec![
            BlockDecision::Delete(DeleteAction::ReplacePair),
            BlockDecision::Replace(false, false, ReplaceAction::SkipRecursed),
            BlockDecision::Delete(DeleteAction::Deleted),
        ]
    );
}

#[test]
fn deferred_owner_is_taken_by_blank_replacement() {
    let deferring = EqualFacts {
        old_owner: true,
        new_owner: true,
        old_defers: true,
        new_defers: true,
        new_key: key(4),
        ..plain_equal()
    };
    let blank = ReplaceStep {
        old_owner: false,
        old_blank: true,
        new_owner: false,
        new_blank: true,
        new_key: None,
        new_deferred: PairFacts { can_recurse: false, has_edits: true, surfaces_to_mark: vec![] },
        both_deferred: PairFacts { can_recurse: true, has_edits: true, surfaces_to_mark: vec![] },
        ..replace(None)
    };
    let second_blank = ReplaceStep { old_owner: false, old_blank: true, new_owner: false, new_blank: true, ..replace(key(4)) };
    let ops = vec![
        BlockStep::Equal(deferring),
        BlockStep::Replace(blank),
        BlockStep::Replace(second_blank),
    ];
    let plan = plan_annotated_diff(&ops);
    assert_eq!(
        plan,
        vec![
            BlockDecision::Equal(EqualAction::Defer),
            BlockDecision::Replace(true, true, ReplaceAction::Replace),
            BlockDecision::Replace(false, false, ReplaceAction::SkipRecursed),
        ]
    );
}

#[test]
fn display_equation_edit_skips_its_carrier_shell() {
    let equation = EqualFacts {
        old_owner: true,
        new_owner: true,
        new_display_equation_owner: true,
        equation_origins: true,
        textual_word_change: true,
        ..plain_equal()
    };
    let shell = EqualFacts { new_is_empty_shell: true, ..plain_equal() };
    let ops = vec![
        BlockStep::Equal(equation),
        BlockStep::Equal(shell),
        BlockStep::Equal(EqualFacts { new_is_empty_shell: true, ..plain_equal() }),
        BlockStep::Insert(true),
    ];
    let plan = plan_annotated_diff(&ops);
    assert_eq!(
        plan,
        vec![
            BlockDecision::Equal(EqualAction::EquationModified),
            BlockDecision::Equal(EqualAction::SkipCarrier),
            BlockDecision::Equal(EqualAction::Keep),
            BlockDecision::Insert(true),
        ]
    );
}

fn no_facts() -> ReplacementFacts {
    ReplacementFacts {
        can_recurse: false,
        subtree_equal: false,
        slot_edits: false,
        owned_surface_edit: false,
        unique_slot_edits: false,
        raw_lines_changed: false,
        new_footnote_owner: false,
        footnote_insert_edits: false,
        old_footnote_owner: false,
        footnote_removal_word_change: false,
        context_changed: false,
        replacement_word_change: false,
    }
}

#[test]
fn replacement_choice_ladder() {
    let recursing = ReplacementFacts { can_recurse: true, unique_slot_edits: true, ..no_facts() };
    assert_eq!(plan_block_replacement(&recursing), ReplacementChoice::NoVisibleEdit);
    assert_eq!(
        plan_block_replacement(&ReplacementFacts { subtree_equal: true, ..recursing }),
        ReplacementChoice::EqualOwners
    );
    assert_eq!(
        plan_block_replacement(&ReplacementFacts { slot_edits: true, owned_surface_edit: true, ..recursing }),
        ReplacementChoice::SlotEdits
    );
    assert_eq!(
        plan_block_replacement(&ReplacementFacts { owned_surface_edit: true, ..recursing }),
        ReplacementChoice::OwnedSurface
    );
    assert_eq!(
        plan_block_replacement(&ReplacementFacts { unique_slot_edits: true, raw_lines_changed: true, ..no_facts() }),
        ReplacementChoice::UniqueSlotEdits
    );
    assert_eq!(
        plan_block_replacement(&ReplacementFacts { raw_lines_changed: true, ..no_facts() }),
        ReplacementChoice::RawLines
    );
    assert_eq!(
        plan_block_replacement(&ReplacementFacts { new_footnote_owner: true, ..no_facts() }),
        ReplacementChoice::WordOrOpaque
    );
    assert_eq!(
        plan_block_replacement(&ReplacementFacts { new_footnote_owner: true, footnote_insert_edits: true, ..no_facts() }),
        ReplacementChoice::FootnoteBodyInsert
    );
    assert_eq!(
        plan_block_replacement(&ReplacementFacts {
            old_footnote_owner: true,
            footnote_removal_word_change: true,
            ..no_facts()
        }),
        ReplacementChoice::FootnoteOwnerRemoved
    );
    assert_eq!(
        plan_block_replacement(&ReplacementFacts { context_changed: true, replacement_word_change: true, ..no_facts() }),
        ReplacementChoice::ContextSplit
    );
    assert_eq!(plan_block_replacement(&no_facts()), ReplacementChoice::WordOrOpaque);
}
