//! The decisions of the realized-tree diff (step 4 of the diff): for each
//! matched block operation, what kind of block edit it becomes, and the state
//! carried from block to block.
//!
//! The diff walks the matched block operations in order. For each, the caller
//! gathers the facts about the two blocks and their semantic owners (whether
//! an owner exists, whether its subtree is equal, whether slot edits exist,
//! and so on) and asks here what to do; the caller then builds the edit. The
//! state that the decisions share lives here: the semantic owners already
//! recursed into, the display surfaces already drawn through an owner, the
//! display equation carriers still expected, and the owners whose invisible
//! edit was deferred.

use vstd::prelude::*;

use crate::edit_script::str_eq;
use crate::owners::{
    mark_recursed_owner, owner_already_recursed, OwnerKeyView, RecursedOwners, SemanticOwnerKey,
};
use crate::similarity::string_views;
use crate::text::{chars_of, string_of};

verus! {

/// The state carried between block operations.
pub struct DiffPlanState {
    /// Semantic owners already recursed into.
    pub recursed: RecursedOwners,
    /// The normalized visible text of display surfaces already drawn
    /// through an owner.
    pub surfaces: Vec<String>,
    /// Display equation carriers still expected after an equation edit.
    pub pending_carriers: usize,
    /// An old owner whose invisible edit was deferred.
    pub deferred_old: bool,
    /// A new owner whose invisible edit was deferred.
    pub deferred_new: bool,
    /// The semantic key of the deferred new owner's claim.
    pub deferred_new_key: Option<SemanticOwnerKey>,
}

/// The state as plain values.
pub struct PlanView {
    pub recursed: Set<OwnerKeyView>,
    pub surfaces: Seq<Seq<char>>,
    pub pending: nat,
    pub deferred_old: bool,
    pub deferred_new: bool,
    pub deferred_new_key: Option<OwnerKeyView>,
}

impl View for DiffPlanState {
    type V = PlanView;

    open spec fn view(&self) -> PlanView {
        PlanView {
            recursed: self.recursed@,
            surfaces: string_views(self.surfaces@),
            pending: self.pending_carriers as nat,
            deferred_old: self.deferred_old,
            deferred_new: self.deferred_new,
            deferred_new_key: key_view(self.deferred_new_key),
        }
    }
}

impl DiffPlanState {
    /// The state before the first block.
    pub fn new() -> (state: DiffPlanState)
        ensures
            state@.recursed == Set::<OwnerKeyView>::empty(),
            state@.surfaces == Seq::<Seq<char>>::empty(),
            state@.pending == 0,
            !state@.deferred_old,
            !state@.deferred_new,
            state@.deferred_new_key is None,
    {
        let state = DiffPlanState {
            recursed: RecursedOwners::new(),
            surfaces: Vec::new(),
            pending_carriers: 0,
            deferred_old: false,
            deferred_new: false,
            deferred_new_key: None,
        };
        assert(string_views(state.surfaces@) =~= Seq::<Seq<char>>::empty());
        state
    }
}

/// An optional owner key as plain values.
pub open spec fn key_view(key: Option<SemanticOwnerKey>) -> Option<OwnerKeyView> {
    match key {
        Some(k) => Some(k@),
        None => None,
    }
}

/// The key's owner was already recursed into; no key never was.
pub open spec fn key_recursed(recursed: Set<OwnerKeyView>, key: Option<OwnerKeyView>) -> bool {
    match key {
        Some(k) => recursed.contains(k),
        None => false,
    }
}

fn copy_owner_key(key: &Option<SemanticOwnerKey>) -> (copy: Option<SemanticOwnerKey>)
    ensures
        key_view(copy) == key_view(*key),
{
    match key {
        Some(k) => Some(k.copy_key()),
        None => None,
    }
}

/// The first drawn surface with the given text.
pub open spec fn surface_index(surfaces: Seq<Seq<char>>, text: Seq<char>, from: nat) -> Option<nat>
    decreases surfaces.len() - from,
{
    if from >= surfaces.len() {
        None
    } else if surfaces[from as int] == text {
        Some(from)
    } else {
        surface_index(surfaces, text, from + 1)
    }
}

/// The block's surface was already drawn: it can be drawn (`Some` text) and
/// a drawn surface has that text.
pub open spec fn surface_drawn(surfaces: Seq<Seq<char>>, surface: Option<String>) -> bool {
    match surface {
        Some(t) => surface_index(surfaces, t@, 0) is Some,
        None => false,
    }
}

/// The surfaces after the block's surface is consumed.
pub open spec fn consume_surface(surfaces: Seq<Seq<char>>, surface: Option<String>) -> Seq<Seq<char>> {
    match surface {
        Some(t) => match surface_index(surfaces, t@, 0) {
            Some(i) => surfaces.remove(i as int),
            None => surfaces,
        },
        None => surfaces,
    }
}

/// The state after an owner is recursed into: its key recorded and its
/// display surfaces drawn.
pub open spec fn mark_owner(st: PlanView, key: Option<OwnerKeyView>, surfaces: Seq<String>) -> PlanView {
    PlanView {
        recursed: match key {
            Some(k) => st.recursed.insert(k),
            None => st.recursed,
        },
        surfaces: st.surfaces + string_views(surfaces),
        ..st
    }
}

fn find_surface(surfaces: &Vec<String>, text: &String) -> (found: Option<usize>)
    ensures
        (match found {
            Some(i) => Some(i as nat),
            None => None,
        }) == surface_index(string_views(surfaces@), text@, 0),
        found matches Some(i) ==> i < surfaces@.len(),
{
    let mut i: usize = 0;
    while i < surfaces.len()
        invariant
            i <= surfaces@.len(),
            surface_index(string_views(surfaces@), text@, i as nat) == surface_index(string_views(surfaces@), text@, 0),
        decreases surfaces@.len() - i,
    {
        if str_eq(surfaces[i].as_str(), text.as_str()) {
            return Some(i);
        }
        i += 1;
    }
    None
}

fn consume(state: &mut DiffPlanState, surface: &Option<String>) -> (consumed: bool)
    ensures
        consumed == surface_drawn(old(state)@.surfaces, *surface),
        final(state)@ == (PlanView { surfaces: consume_surface(old(state)@.surfaces, *surface), ..old(state)@ }),
{
    match surface {
        Some(text) => match find_surface(&state.surfaces, text) {
            Some(i) => {
                let ghost before = state.surfaces@;
                state.surfaces.remove(i);
                assert(string_views(state.surfaces@) =~= string_views(before).remove(i as int));
                true
            },
            None => false,
        },
        None => false,
    }
}

fn mark(state: &mut DiffPlanState, key: &Option<SemanticOwnerKey>, surfaces: &Vec<String>)
    ensures
        final(state)@ == mark_owner(old(state)@, key_view(*key), surfaces@),
{
    mark_recursed_owner(&mut state.recursed, key);
    let ghost marked = state@;
    let ghost before = string_views(state.surfaces@);
    let mut i: usize = 0;
    while i < surfaces.len()
        invariant
            i <= surfaces@.len(),
            string_views(state.surfaces@) == before + string_views(surfaces@.subrange(0, i as int)),
            state@.recursed == marked.recursed,
            state.pending_carriers == marked.pending,
            state.deferred_old == marked.deferred_old,
            state.deferred_new == marked.deferred_new,
            key_view(state.deferred_new_key) == marked.deferred_new_key,
        decreases surfaces@.len() - i,
    {
        let copy = string_of(&chars_of(surfaces[i].as_str()));
        let ghost prev = state.surfaces@;
        state.surfaces.push(copy);
        assert(string_views(state.surfaces@) =~= string_views(prev).push(surfaces@[i as int]@));
        assert(surfaces@.subrange(0, i + 1) =~= surfaces@.subrange(0, i as int).push(surfaces@[i as int]));
        assert(string_views(surfaces@.subrange(0, i + 1)) =~= string_views(surfaces@.subrange(0, i as int)).push(surfaces@[i as int]@));
        i += 1;
        assert(string_views(state.surfaces@) =~= before + string_views(surfaces@.subrange(0, i as int)));
    }
    assert(surfaces@.subrange(0, i as int) =~= surfaces@);
    assert(state@.surfaces =~= mark_owner(old(state)@, key_view(*key), surfaces@).surfaces);
}

// ---------------------------------------------------------------------------
// Equal blocks
// ---------------------------------------------------------------------------

/// What the caller knows of an equal block pair and its owners.
pub struct EqualFacts {
    /// The new block is an empty block shell.
    pub new_is_empty_shell: bool,
    pub old_owner: bool,
    pub new_owner: bool,
    /// The owner's invisible edit is to be deferred (when there is an owner).
    pub old_defers: bool,
    pub new_defers: bool,
    /// The block's plain text is blank.
    pub old_blank: bool,
    pub new_blank: bool,
    /// The owner is a display equation.
    pub old_display_equation_owner: bool,
    pub new_display_equation_owner: bool,
    /// The new block's normalized visible text, when it could be a drawn
    /// display surface.
    pub new_surface: Option<String>,
    /// The two owners can be diffed through their slots.
    pub can_recurse: bool,
    /// The new owner's semantic key.
    pub new_key: Option<SemanticOwnerKey>,
    /// The two owners' subtrees are equal.
    pub subtree_equal: bool,
    /// Diffing through the slots (and footnote text) gives edits.
    pub slot_edits: bool,
    /// The new block has no plain text.
    pub new_text_empty: bool,
    /// The owned surface gives a modification.
    pub owned_surface_edit: bool,
    /// An owner has equation origins.
    pub equation_origins: bool,
    /// The word diff with equation origins changes text.
    pub textual_word_change: bool,
    /// The new owner is an empty realized equation.
    pub empty_realized_equation_owner: bool,
    /// The blocks' presentation changed.
    pub presentation_changed: bool,
    /// The change crosses a block context and has a word change.
    pub context_split: bool,
    /// The word or opaque replacement gives edits.
    pub replacement_edits: bool,
    /// The display surfaces of the new owner, drawn when it is recursed into.
    pub surfaces_to_mark: Vec<String>,
}

/// What an equal block pair becomes.
#[derive(Clone, Copy, Debug, PartialEq, Eq, Structural)]
pub enum EqualAction {
    /// An expected display equation carrier: nothing.
    SkipCarrier,
    /// Kept as the new block; the owners' invisible edit is deferred.
    Defer,
    /// Kept as the new block.
    Keep,
    /// Already drawn through its owner: nothing.
    SkipSurface,
    /// Kept as the new block; the equal owner is recursed into.
    KeepRecursed,
    /// The slot edits of the owners.
    SlotEdits,
    /// The modification of the owned surface.
    OwnedSurfaceEdit,
    /// A whole-block modification from the word diff with equation origins.
    EquationModified,
    /// Kept as the new owner, an empty realized equation.
    KeepEquationOwner,
    /// A replacement split across the block context.
    ContextSplit,
    /// The word or opaque replacement edits.
    PresentationEdits,
}

/// The decision for an equal block pair, in the order the diff asks.
pub open spec fn equal_action(f: EqualFacts, st: PlanView) -> EqualAction {
    let owners = f.old_owner && f.new_owner;
    if st.pending > 0 && f.new_is_empty_shell {
        EqualAction::SkipCarrier
    } else if owners && f.old_defers && f.new_defers {
        EqualAction::Defer
    } else if f.old_blank && f.new_blank && !f.old_display_equation_owner && !f.new_display_equation_owner {
        EqualAction::Keep
    } else if !f.new_owner && surface_drawn(st.surfaces, f.new_surface) {
        EqualAction::SkipSurface
    } else if owners && f.can_recurse && key_recursed(st.recursed, key_view(f.new_key)) {
        EqualAction::Keep
    } else if owners && f.can_recurse && f.subtree_equal {
        EqualAction::KeepRecursed
    } else if owners && f.can_recurse && f.slot_edits {
        EqualAction::SlotEdits
    } else if owners && f.can_recurse && f.new_text_empty && f.owned_surface_edit {
        EqualAction::OwnedSurfaceEdit
    } else if owners && f.equation_origins && f.textual_word_change {
        EqualAction::EquationModified
    } else if owners && f.equation_origins && f.empty_realized_equation_owner {
        EqualAction::KeepEquationOwner
    } else if f.presentation_changed && f.context_split {
        EqualAction::ContextSplit
    } else if f.presentation_changed && f.replacement_edits {
        EqualAction::PresentationEdits
    } else {
        EqualAction::Keep
    }
}

/// The state after an equal block pair.
pub open spec fn equal_next(f: EqualFacts, st: PlanView) -> PlanView {
    match equal_action(f, st) {
        EqualAction::SkipCarrier => PlanView { pending: (st.pending - 1) as nat, ..st },
        EqualAction::Defer => PlanView {
            deferred_old: true,
            deferred_new: true,
            deferred_new_key: key_view(f.new_key),
            ..st
        },
        EqualAction::SkipSurface => PlanView { surfaces: consume_surface(st.surfaces, f.new_surface), ..st },
        EqualAction::KeepRecursed | EqualAction::SlotEdits | EqualAction::OwnedSurfaceEdit => mark_owner(
            st,
            key_view(f.new_key),
            f.surfaces_to_mark@,
        ),
        EqualAction::EquationModified => if f.new_display_equation_owner {
            PlanView { pending: st.pending + 1, ..st }
        } else {
            st
        },
        _ => st,
    }
}

/// Decides what an equal block pair becomes and updates the state; see
/// [`equal_action`] and [`equal_next`].
pub fn plan_equal_block(state: &mut DiffPlanState, f: &EqualFacts) -> (action: EqualAction)
    requires
        old(state).pending_carriers < usize::MAX,
    ensures
        action == equal_action(*f, old(state)@),
        final(state)@ == equal_next(*f, old(state)@),
{
    let owners = f.old_owner && f.new_owner;
    if state.pending_carriers > 0 && f.new_is_empty_shell {
        state.pending_carriers = state.pending_carriers - 1;
        return EqualAction::SkipCarrier;
    }
    if owners && f.old_defers && f.new_defers {
        state.deferred_old = true;
        state.deferred_new = true;
        state.deferred_new_key = copy_owner_key(&f.new_key);
        return EqualAction::Defer;
    }
    if f.old_blank && f.new_blank && !f.old_display_equation_owner && !f.new_display_equation_owner {
        return EqualAction::Keep;
    }
    if !f.new_owner && consume(state, &f.new_surface) {
        return EqualAction::SkipSurface;
    }
    if owners && f.can_recurse {
        if owner_already_recursed(&state.recursed, &f.new_key) {
            return EqualAction::Keep;
        }
        if f.subtree_equal {
            mark(state, &f.new_key, &f.surfaces_to_mark);
            return EqualAction::KeepRecursed;
        }
        if f.slot_edits {
            mark(state, &f.new_key, &f.surfaces_to_mark);
            return EqualAction::SlotEdits;
        }
        if f.new_text_empty && f.owned_surface_edit {
            mark(state, &f.new_key, &f.surfaces_to_mark);
            return EqualAction::OwnedSurfaceEdit;
        }
    }
    if owners && f.equation_origins {
        if f.textual_word_change {
            if f.new_display_equation_owner {
                state.pending_carriers = state.pending_carriers + 1;
            }
            return EqualAction::EquationModified;
        }
        if f.empty_realized_equation_owner {
            return EqualAction::KeepEquationOwner;
        }
    }
    if f.presentation_changed && f.context_split {
        return EqualAction::ContextSplit;
    }
    if f.presentation_changed && f.replacement_edits {
        return EqualAction::PresentationEdits;
    }
    EqualAction::Keep
}

// ---------------------------------------------------------------------------
// Deleted, inserted and replaced blocks
// ---------------------------------------------------------------------------

/// What a deleted block becomes.
#[derive(Clone, Copy, Debug, PartialEq, Eq, Structural)]
pub enum DeleteAction {
    /// The following insert's owner was already recursed into: both are
    /// skipped.
    SkipPair,
    /// The delete and the following insert share a semantic owner: one
    /// replacement of the pair.
    ReplacePair,
    /// The following insert was already drawn through its owner: both are
    /// suppressed.
    SuppressPair,
    /// A deleted block.
    Deleted,
}

/// The decision for a deleted block. `next_is_insert` tells whether the next
/// operation inserts; `owners_match` whether the two claims share a semantic
/// owner; `new_key` is the insert's claim; `can_recurse` whether both owners
/// exist and can be diffed through their slots; `new_surface` the insert's
/// possible surface text.
pub open spec fn delete_action(
    next_is_insert: bool,
    owners_match: bool,
    new_key: Option<OwnerKeyView>,
    can_recurse: bool,
    new_surface: Option<String>,
    st: PlanView,
) -> DeleteAction {
    if next_is_insert && owners_match {
        if key_recursed(st.recursed, new_key) {
            DeleteAction::SkipPair
        } else {
            DeleteAction::ReplacePair
        }
    } else if next_is_insert && !can_recurse && surface_drawn(st.surfaces, new_surface) {
        DeleteAction::SuppressPair
    } else {
        DeleteAction::Deleted
    }
}

/// Decides what a deleted block becomes; a suppressed pair consumes the
/// insert's surface.
pub fn plan_deleted_block(
    state: &mut DiffPlanState,
    next_is_insert: bool,
    owners_match: bool,
    new_key: &Option<SemanticOwnerKey>,
    can_recurse: bool,
    new_surface: &Option<String>,
) -> (action: DeleteAction)
    ensures
        action == delete_action(
            next_is_insert,
            owners_match,
            key_view(*new_key),
            can_recurse,
            *new_surface,
            old(state)@,
        ),
        final(state)@ == (if action == DeleteAction::SuppressPair {
            PlanView { surfaces: consume_surface(old(state)@.surfaces, *new_surface), ..old(state)@ }
        } else {
            old(state)@
        }),
{
    if next_is_insert && owners_match {
        if owner_already_recursed(&state.recursed, new_key) {
            return DeleteAction::SkipPair;
        }
        return DeleteAction::ReplacePair;
    }
    if next_is_insert && !can_recurse && consume(state, new_surface) {
        return DeleteAction::SuppressPair;
    }
    DeleteAction::Deleted
}

/// Which deferred owners a replaced block takes: an old (new) block with no
/// owner of its own and blank text takes the deferred old (new) owner.
pub fn take_deferred(
    state: &mut DiffPlanState,
    old_owner: bool,
    old_blank: bool,
    new_owner: bool,
    new_blank: bool,
) -> (taken: (bool, bool))
    ensures
        taken.0 == (!old_owner && old_blank && old(state)@.deferred_old),
        taken.1 == (!new_owner && new_blank && old(state)@.deferred_new),
        final(state)@ == (PlanView {
            deferred_old: old(state)@.deferred_old && !taken.0,
            deferred_new: old(state)@.deferred_new && !taken.1,
            ..old(state)@
        }),
{
    let use_old = !old_owner && old_blank && state.deferred_old;
    let use_new = !new_owner && new_blank && state.deferred_new;
    if use_old {
        state.deferred_old = false;
    }
    if use_new {
        state.deferred_new = false;
    }
    (use_old, use_new)
}

/// What a replaced block pair becomes.
#[derive(Clone, Copy, Debug, PartialEq, Eq, Structural)]
pub enum ReplaceAction {
    /// The new owner was already recursed into: nothing.
    SkipRecursed,
    /// The new block was already drawn through its owner: nothing.
    SuppressSurface,
    /// An expected display equation carrier: nothing.
    SkipCarrier,
    /// A replacement of the pair.
    Replace,
}

/// The decision for a replaced block pair, once the deferred owners are
/// taken; `new_key` is the new claim's key.
pub open spec fn replace_action(
    new_key: Option<OwnerKeyView>,
    can_recurse: bool,
    new_surface: Option<String>,
    new_is_empty_shell: bool,
    st: PlanView,
) -> ReplaceAction {
    if key_recursed(st.recursed, new_key) {
        ReplaceAction::SkipRecursed
    } else if !can_recurse && surface_drawn(st.surfaces, new_surface) {
        ReplaceAction::SuppressSurface
    } else if st.pending > 0 && new_is_empty_shell {
        ReplaceAction::SkipCarrier
    } else {
        ReplaceAction::Replace
    }
}

/// Decides what a replaced block pair becomes and updates the state.
pub fn plan_replaced_block(
    state: &mut DiffPlanState,
    new_key: &Option<SemanticOwnerKey>,
    can_recurse: bool,
    new_surface: &Option<String>,
    new_is_empty_shell: bool,
) -> (action: ReplaceAction)
    ensures
        action == replace_action(key_view(*new_key), can_recurse, *new_surface, new_is_empty_shell, old(state)@),
        final(state)@ == (match action {
            ReplaceAction::SuppressSurface => PlanView {
                surfaces: consume_surface(old(state)@.surfaces, *new_surface),
                ..old(state)@
            },
            ReplaceAction::SkipCarrier => PlanView { pending: (old(state)@.pending - 1) as nat, ..old(state)@ },
            _ => old(state)@,
        }),
{
    if owner_already_recursed(&state.recursed, new_key) {
        return ReplaceAction::SkipRecursed;
    }
    if !can_recurse && consume(state, new_surface) {
        return ReplaceAction::SuppressSurface;
    }
    if state.pending_carriers > 0 && new_is_empty_shell {
        state.pending_carriers = state.pending_carriers - 1;
        return ReplaceAction::SkipCarrier;
    }
    ReplaceAction::Replace
}

/// After a replacement is built: when both owners can be diffed through
/// their slots and the replacement has edits, the new owner counts as
/// recursed into.
pub fn record_replacement(
    state: &mut DiffPlanState,
    can_recurse: bool,
    has_edits: bool,
    new_key: &Option<SemanticOwnerKey>,
    surfaces_to_mark: &Vec<String>,
)
    ensures
        final(state)@ == (if can_recurse && has_edits {
            mark_owner(old(state)@, key_view(*new_key), surfaces_to_mark@)
        } else {
            old(state)@
        }),
{
    if can_recurse && has_edits {
        mark(state, new_key, surfaces_to_mark);
    }
}

// ---------------------------------------------------------------------------
// Replacement of a block pair
// ---------------------------------------------------------------------------

/// What the caller knows of a block pair to be replaced and its owners.
#[derive(Clone, Copy, Debug, PartialEq, Eq, Structural)]
pub struct ReplacementFacts {
    /// Both owners exist and can be diffed through their slots.
    pub can_recurse: bool,
    /// The two owners' subtrees are equal.
    pub subtree_equal: bool,
    /// Diffing through the slots (and footnote text) gives edits.
    pub slot_edits: bool,
    /// The owned surface gives a modification.
    pub owned_surface_edit: bool,
    /// A unique changed slot pair exists and diffing it gives edits.
    pub unique_slot_edits: bool,
    /// The pair is a raw block whose lines changed.
    pub raw_lines_changed: bool,
    /// Only the new owner's slots are all footnote bodies.
    pub new_footnote_owner: bool,
    /// The inserted footnote bodies and the deleted text before the first
    /// footnote give edits.
    pub footnote_insert_edits: bool,
    /// Only the old owner's slots are all footnote bodies.
    pub old_footnote_owner: bool,
    /// The old owner's text without footnotes against the new text has a
    /// textual word change.
    pub footnote_removal_word_change: bool,
    /// The block context changed.
    pub context_changed: bool,
    /// The replacement has a word change.
    pub replacement_word_change: bool,
}

/// What a replaced block pair is shown as.
#[derive(Clone, Copy, Debug, PartialEq, Eq, Structural)]
pub enum ReplacementChoice {
    /// The owners are equal: the new block, no edit.
    EqualOwners,
    /// The owners' slot edits.
    SlotEdits,
    /// The modification of the owned surface.
    OwnedSurface,
    /// The owners changed without a visible edit: the new block, no edit.
    NoVisibleEdit,
    /// The edits of the unique changed slot pair.
    UniqueSlotEdits,
    /// A line diff of the raw block.
    RawLines,
    /// The inline text change and the inserted footnote bodies, apart.
    FootnoteBodyInsert,
    /// A modification of the old owner's text without its footnotes.
    FootnoteOwnerRemoved,
    /// A replacement split across the block context.
    ContextSplit,
    /// The word or opaque replacement edits (possibly none).
    WordOrOpaque,
}

/// The choice for a replaced block pair, in the order it is tried.
pub open spec fn replacement_choice(f: ReplacementFacts) -> ReplacementChoice {
    if f.can_recurse {
        if f.subtree_equal {
            ReplacementChoice::EqualOwners
        } else if f.slot_edits {
            ReplacementChoice::SlotEdits
        } else if f.owned_surface_edit {
            ReplacementChoice::OwnedSurface
        } else {
            ReplacementChoice::NoVisibleEdit
        }
    } else if f.unique_slot_edits {
        ReplacementChoice::UniqueSlotEdits
    } else if f.raw_lines_changed {
        ReplacementChoice::RawLines
    } else if f.new_footnote_owner && f.footnote_insert_edits {
        ReplacementChoice::FootnoteBodyInsert
    } else if f.old_footnote_owner && f.footnote_removal_word_change {
        ReplacementChoice::FootnoteOwnerRemoved
    } else if f.context_changed && f.replacement_word_change {
        ReplacementChoice::ContextSplit
    } else {
        ReplacementChoice::WordOrOpaque
    }
}

/// Decides how a replaced block pair is shown; see [`replacement_choice`].
pub fn plan_block_replacement(f: &ReplacementFacts) -> (choice: ReplacementChoice)
    ensures
        choice == replacement_choice(*f),
{
    if f.can_recurse {
        if f.subtree_equal {
            return ReplacementChoice::EqualOwners;
        }
        if f.slot_edits {
            return ReplacementChoice::SlotEdits;
        }
        if f.owned_surface_edit {
            return ReplacementChoice::OwnedSurface;
        }
        return ReplacementChoice::NoVisibleEdit;
    }
    if f.unique_slot_edits {
        return ReplacementChoice::UniqueSlotEdits;
    }
    if f.raw_lines_changed {
        return ReplacementChoice::RawLines;
    }
    if f.new_footnote_owner && f.footnote_insert_edits {
        return ReplacementChoice::FootnoteBodyInsert;
    }
    if f.old_footnote_owner && f.footnote_removal_word_change {
        return ReplacementChoice::FootnoteOwnerRemoved;
    }
    if f.context_changed && f.replacement_word_change {
        return ReplacementChoice::ContextSplit;
    }
    ReplacementChoice::WordOrOpaque
}

// ---------------------------------------------------------------------------
// The walk over the matched block operations
// ---------------------------------------------------------------------------

/// What a pair of owners gives once a replacement is built.
pub struct PairFacts {
    /// Both owners exist and can be diffed through their slots.
    pub can_recurse: bool,
    /// The replacement has edits.
    pub has_edits: bool,
    /// The display surfaces of the new owner.
    pub surfaces_to_mark: Vec<String>,
}

/// What the caller knows of a deleted block and the operation after it,
/// when that operation inserts.
pub struct DeleteStep {
    /// The delete's claim and the insert's claim share a semantic owner.
    pub owners_match: bool,
    /// The insert's claim key.
    pub new_key: Option<SemanticOwnerKey>,
    /// The inserted block's possible surface text.
    pub new_surface: Option<String>,
    /// What the two claims' owners give.
    pub pair: PairFacts,
}

/// What the caller knows of a replaced block pair. The owners of the pair
/// depend on the deferred owners taken, so the pair facts are given for each
/// choice.
pub struct ReplaceStep {
    pub old_owner: bool,
    pub old_blank: bool,
    pub new_owner: bool,
    pub new_blank: bool,
    /// The new block's own claim key.
    pub new_key: Option<SemanticOwnerKey>,
    pub new_surface: Option<String>,
    pub new_is_empty_shell: bool,
    /// The pair with the blocks' own owners.
    pub own: PairFacts,
    /// The pair with the deferred old owner.
    pub old_deferred: PairFacts,
    /// The pair with the deferred new owner.
    pub new_deferred: PairFacts,
    /// The pair with both deferred owners.
    pub both_deferred: PairFacts,
}

/// One matched block operation with the facts its decision reads.
pub enum BlockStep {
    Equal(EqualFacts),
    Delete(DeleteStep),
    /// An inserted block; `true` when its owner is an empty realized
    /// equation.
    Insert(bool),
    Replace(ReplaceStep),
}

/// The decision taken at one operation. A delete paired with the following
/// insert (skipped, replaced or suppressed) covers both operations.
#[derive(Clone, Copy, Debug, PartialEq, Eq, Structural)]
pub enum BlockDecision {
    Equal(EqualAction),
    Delete(DeleteAction),
    /// An inserted block: the owner's base marked inserted (`true`) or a
    /// whole-block insertion.
    Insert(bool),
    /// A replaced pair: the deferred old and new owners taken, and the action.
    Replace(bool, bool, ReplaceAction),
}

/// The pair facts for the deferred owners taken.
pub open spec fn chosen_pair(r: ReplaceStep, taken_old: bool, taken_new: bool) -> PairFacts {
    if taken_old && taken_new {
        r.both_deferred
    } else if taken_old {
        r.old_deferred
    } else if taken_new {
        r.new_deferred
    } else {
        r.own
    }
}

/// The next operation inserts.
pub open spec fn next_inserts(ops: Seq<BlockStep>, i: int) -> bool {
    i + 1 < ops.len() && ops[i + 1] is Insert
}

/// The state after a delete's decision.
pub open spec fn delete_next(d: DeleteStep, a: DeleteAction, st: PlanView) -> PlanView {
    match a {
        DeleteAction::ReplacePair => if d.pair.can_recurse && d.pair.has_edits {
            mark_owner(st, key_view(d.new_key), d.pair.surfaces_to_mark@)
        } else {
            st
        },
        DeleteAction::SuppressPair => PlanView { surfaces: consume_surface(st.surfaces, d.new_surface), ..st },
        _ => st,
    }
}

/// The decision at a replaced pair and the state after it.
pub open spec fn replace_step(r: ReplaceStep, st: PlanView) -> (BlockDecision, PlanView) {
    let taken_old = !r.old_owner && r.old_blank && st.deferred_old;
    let taken_new = !r.new_owner && r.new_blank && st.deferred_new;
    let st1 = PlanView {
        deferred_old: st.deferred_old && !taken_old,
        deferred_new: st.deferred_new && !taken_new,
        ..st
    };
    let key = if taken_new { st.deferred_new_key } else { key_view(r.new_key) };
    let pair = chosen_pair(r, taken_old, taken_new);
    let a = replace_action(key, pair.can_recurse, r.new_surface, r.new_is_empty_shell, st1);
    let st2 = match a {
        ReplaceAction::SuppressSurface => PlanView { surfaces: consume_surface(st1.surfaces, r.new_surface), ..st1 },
        ReplaceAction::SkipCarrier => PlanView { pending: (st1.pending - 1) as nat, ..st1 },
        _ => st1,
    };
    let st3 = if a == ReplaceAction::Replace && pair.can_recurse && pair.has_edits {
        mark_owner(st2, key, pair.surfaces_to_mark@)
    } else {
        st2
    };
    (BlockDecision::Replace(taken_old, taken_new, a), st3)
}

/// The decision at operation `i`, the state after it and the next
/// operation to look at.
pub open spec fn plan_step(ops: Seq<BlockStep>, i: int, st: PlanView) -> (BlockDecision, PlanView, int) {
    match ops[i] {
        BlockStep::Equal(f) => (BlockDecision::Equal(equal_action(f, st)), equal_next(f, st), i + 1),
        BlockStep::Delete(d) => {
            let a = delete_action(next_inserts(ops, i), d.owners_match, key_view(d.new_key), d.pair.can_recurse, d.new_surface, st);
            (BlockDecision::Delete(a), delete_next(d, a, st), if a == DeleteAction::Deleted { i + 1 } else { i + 2 })
        },
        BlockStep::Insert(m) => (BlockDecision::Insert(m), st, i + 1),
        BlockStep::Replace(r) => {
            let (d, st2) = replace_step(r, st);
            (d, st2, i + 1)
        },
    }
}

/// The decisions from operation `i` on, starting in state `st`.
pub open spec fn plan_from(ops: Seq<BlockStep>, i: int, st: PlanView) -> Seq<BlockDecision>
    decreases ops.len() - i,
{
    if i < 0 || i >= ops.len() {
        Seq::empty()
    } else {
        let (d, next, j) = plan_step(ops, i, st);
        if j <= i {
            Seq::empty()
        } else {
            seq![d] + plan_from(ops, j, next)
        }
    }
}

/// The semantic owner that the decision at operation `i` recurses into,
/// when it recurses into one with a key.
pub open spec fn entered_key(ops: Seq<BlockStep>, i: int, st: PlanView) -> Option<OwnerKeyView> {
    match ops[i] {
        BlockStep::Equal(f) => match equal_action(f, st) {
            EqualAction::KeepRecursed | EqualAction::SlotEdits | EqualAction::OwnedSurfaceEdit => key_view(f.new_key),
            _ => None,
        },
        BlockStep::Delete(d) => {
            let a = delete_action(next_inserts(ops, i), d.owners_match, key_view(d.new_key), d.pair.can_recurse, d.new_surface, st);
            if a == DeleteAction::ReplacePair && d.pair.can_recurse && d.pair.has_edits {
                key_view(d.new_key)
            } else {
                None
            }
        },
        BlockStep::Insert(_) => None,
        BlockStep::Replace(r) => {
            let taken_old = !r.old_owner && r.old_blank && st.deferred_old;
            let taken_new = !r.new_owner && r.new_blank && st.deferred_new;
            let st1 = PlanView {
                deferred_old: st.deferred_old && !taken_old,
                deferred_new: st.deferred_new && !taken_new,
                ..st
            };
            let key = if taken_new { st.deferred_new_key } else { key_view(r.new_key) };
            let pair = chosen_pair(r, taken_old, taken_new);
            if replace_action(key, pair.can_recurse, r.new_surface, r.new_is_empty_shell, st1) == ReplaceAction::Replace
                && pair.can_recurse && pair.has_edits {
                key
            } else {
                None
            }
        },
    }
}

/// Each semantic owner is recursed into at most once: an operation never
/// recurses into an owner already recursed into, the owners recursed into
/// are never forgotten, and an owner counts as recursed into only from the
/// operation that recursed into it.
pub proof fn law_owner_entered_once(ops: Seq<BlockStep>, i: int, st: PlanView)
    requires
        0 <= i < ops.len(),
    ensures
        st.recursed.subset_of(plan_step(ops, i, st).1.recursed),
        forall|k: OwnerKeyView| #[trigger] plan_step(ops, i, st).1.recursed.contains(k) && !st.recursed.contains(k)
            ==> entered_key(ops, i, st) == Some(k),
        entered_key(ops, i, st) matches Some(k) ==> !st.recursed.contains(k),
{
    let next = plan_step(ops, i, st).1;
    match ops[i] {
        BlockStep::Replace(r) => {
            let taken_old = !r.old_owner && r.old_blank && st.deferred_old;
            let taken_new = !r.new_owner && r.new_blank && st.deferred_new;
            let st1 = PlanView {
                deferred_old: st.deferred_old && !taken_old,
                deferred_new: st.deferred_new && !taken_new,
                ..st
            };
            let key = if taken_new { st.deferred_new_key } else { key_view(r.new_key) };
            let pair = chosen_pair(r, taken_old, taken_new);
            let a = replace_action(key, pair.can_recurse, r.new_surface, r.new_is_empty_shell, st1);
            assert(st1.recursed == st.recursed);
        },
        _ => {},
    }
    assert forall|k: OwnerKeyView| st.recursed.contains(k) implies next.recursed.contains(k) by {}
}

/// The state before the first operation.
pub open spec fn initial_plan() -> PlanView {
    PlanView {
        recursed: Set::empty(),
        surfaces: Seq::empty(),
        pending: 0,
        deferred_old: false,
        deferred_new: false,
        deferred_new_key: None,
    }
}

fn pick_pair(r: &ReplaceStep, taken_old: bool, taken_new: bool) -> (pair: &PairFacts)
    ensures
        *pair == chosen_pair(*r, taken_old, taken_new),
{
    if taken_old && taken_new {
        &r.both_deferred
    } else if taken_old {
        &r.old_deferred
    } else if taken_new {
        &r.new_deferred
    } else {
        &r.own
    }
}

fn plan_replace(state: &mut DiffPlanState, r: &ReplaceStep) -> (decision: BlockDecision)
    ensures
        (decision, final(state)@) == replace_step(*r, old(state)@),
{
    let (taken_old, taken_new) = take_deferred(state, r.old_owner, r.old_blank, r.new_owner, r.new_blank);
    let key = if taken_new { copy_owner_key(&state.deferred_new_key) } else { copy_owner_key(&r.new_key) };
    let pair = pick_pair(r, taken_old, taken_new);
    let action = plan_replaced_block(state, &key, pair.can_recurse, &r.new_surface, r.new_is_empty_shell);
    if action == ReplaceAction::Replace {
        record_replacement(state, pair.can_recurse, pair.has_edits, &key, &pair.surfaces_to_mark);
    }
    BlockDecision::Replace(taken_old, taken_new, action)
}

/// Plans the realized-tree diff over the matched block operations: walks
/// them in order, carrying the recursed owners, the drawn surfaces, the
/// expected equation carriers and the deferred owners, and gives the
/// decision at each operation (a delete paired with the following insert
/// covers both).
pub fn plan_annotated_diff(ops: &Vec<BlockStep>) -> (decisions: Vec<BlockDecision>)
    ensures
        decisions@ == plan_from(ops@, 0, initial_plan()),
{
    let mut state = DiffPlanState::new();
    let mut decisions: Vec<BlockDecision> = Vec::new();
    let mut i: usize = 0;
    assert(state@ == initial_plan());
    assert(decisions@ + plan_from(ops@, 0, state@) =~= plan_from(ops@, 0, initial_plan()));
    while i < ops.len()
        invariant
            i <= ops@.len(),
            state@.pending <= i,
            decisions@ + plan_from(ops@, i as int, state@) == plan_from(ops@, 0, initial_plan()),
        decreases ops@.len() - i,
    {
        let ghost before = state@;
        let ghost gi = i as int;
        let decision = match &ops[i] {
            BlockStep::Equal(f) => {
                let a = plan_equal_block(&mut state, f);
                i = i + 1;
                BlockDecision::Equal(a)
            },
            BlockStep::Delete(d) => {
                let next_insert = i + 1 < ops.len() && matches!(ops[i + 1], BlockStep::Insert(_));
                let a = plan_deleted_block(&mut state, next_insert, d.owners_match, &d.new_key, d.pair.can_recurse, &d.new_surface);
                if a == DeleteAction::ReplacePair {
                    record_replacement(&mut state, d.pair.can_recurse, d.pair.has_edits, &d.new_key, &d.pair.surfaces_to_mark);
                }
                if a == DeleteAction::Deleted {
                    i = i + 1;
                } else {
                    i = i + 2;
                }
                BlockDecision::Delete(a)
            },
            BlockStep::Insert(m) => {
                i = i + 1;
                BlockDecision::Insert(*m)
            },
            BlockStep::Replace(r) => {
                let d = plan_replace(&mut state, r);
                i = i + 1;
                d
            },
        };
        proof {
            let (d, next, j) = plan_step(ops@, gi, before);
            assert(d == decision && next == state@ && j == i as int);
            assert(plan_from(ops@, gi, before) == seq![d] + plan_from(ops@, j, next));
        }
        decisions.push(decision);
        assert(decisions@ + plan_from(ops@, i as int, state@) =~= plan_from(ops@, 0, initial_plan()));
    }
    decisions
}

} // verus!
