//! Steps of paths from a container element to a text-bearing slot, and
//! whether a path leads to a slot that a replacement can be written into.
//!
//! The element is seen as the shape that slot paths read: sequences, style
//! wrappers and paragraphs are walked through; lists, enums and term lists
//! with their number of items; figures with whether a caption is set; tables
//! and grids with their number of cells in document order; stacks with which
//! children are blocks.

use vstd::prelude::*;

verus! {

/// One step in a path from a container element to a leaf slot.
#[derive(Clone, Copy, Debug, PartialEq, Eq, Structural)]
pub enum SlotStep {
    SequenceChild(usize),
    StyledChild,
    ParBody,
    ItemBody,
    ListItem(usize),
    EnumItem(usize),
    Term(usize),
    TermDescription(usize),
    FigureBody,
    FigureCaption,
    FootnoteBody,
    QuoteBody,
    WrapperBody,
    TableCell(usize),
    GridCell(usize),
    StackChild(usize),
}


/// The shape of an element that slot paths read.
#[derive(Debug)]
pub enum SlotShape {
    Sequence(Vec<SlotShape>),
    Styled(Box<SlotShape>),
    Par(Box<SlotShape>),
    ListItem,
    EnumItem,
    TermItem,
    /// A list with this many items.
    List(usize),
    /// An enum with this many items.
    Enum(usize),
    /// A term list with this many items.
    Terms(usize),
    Figure { has_caption: bool },
    Footnote,
    Quote,
    /// An align, pad, place, columns, box, block, rect, circle or ellipse.
    Wrapper,
    /// A table with this many cells.
    Table(usize),
    /// A grid with this many cells.
    Grid(usize),
    /// A stack: for each child, whether it is a block.
    Stack(Vec<bool>),
    Other,
}

/// Whether the path from step `k` on leads to a slot of the shape: sequence
/// children, style children and paragraph bodies are walked through (a
/// paragraph body may also be the slot itself); every other step must be the
/// last and must fit the shape. An empty path leads nowhere.
pub open spec fn slot_resolves(shape: SlotShape, path: Seq<SlotStep>, k: nat) -> bool
    decreases shape,
{
    if k >= path.len() {
        false
    } else {
        let last = k + 1 == path.len();
        match path[k as int] {
            SlotStep::SequenceChild(i) => match shape {
                SlotShape::Sequence(children) => {
                    if i < children@.len() {
                        proof {
                            assert(decreases_to!(shape => children));
                            assert(decreases_to!(children => children@));
                            assert(decreases_to!(children@ => children@[i as int]));
                        }
                        slot_resolves(children@[i as int], path, k + 1)
                    } else {
                        false
                    }
                },
                _ => false,
            },
            SlotStep::StyledChild => match shape {
                SlotShape::Styled(child) => slot_resolves(*child, path, k + 1),
                _ => false,
            },
            SlotStep::ParBody => match shape {
                SlotShape::Par(body) => last || slot_resolves(*body, path, k + 1),
                _ => false,
            },
            SlotStep::ItemBody => last && (shape is ListItem || shape is EnumItem),
            SlotStep::ListItem(i) => last && (shape matches SlotShape::List(n) && i < n),
            SlotStep::EnumItem(i) => last && (shape matches SlotShape::Enum(n) && i < n),
            SlotStep::Term(i) => last && ((i == 0 && shape is TermItem) || (shape matches SlotShape::Terms(n) && i < n)),
            SlotStep::TermDescription(i) => last && ((i == 0 && shape is TermItem) || (shape matches SlotShape::Terms(n) && i < n)),
            SlotStep::FigureBody => last && shape is Figure,
            SlotStep::FigureCaption => last && (shape matches SlotShape::Figure { has_caption } && has_caption),
            SlotStep::FootnoteBody => last && shape is Footnote,
            SlotStep::QuoteBody => last && shape is Quote,
            SlotStep::WrapperBody => last && shape is Wrapper,
            SlotStep::TableCell(i) => last && (shape matches SlotShape::Table(n) && i < n),
            SlotStep::GridCell(i) => last && (shape matches SlotShape::Grid(n) && i < n),
            SlotStep::StackChild(i) => last && (shape matches SlotShape::Stack(blocks) && i < blocks@.len()
                && blocks@[i as int]),
        }
    }
}

/// Whether a replacement can be written at the end of the path from step
/// `k` on; see [`slot_resolves`].
pub fn slot_path_resolves_from(shape: &SlotShape, path: &[SlotStep], k: usize) -> (b: bool)
    ensures
        b == slot_resolves(*shape, path@, k as nat),
    decreases shape,
{
    if k >= path.len() {
        return false;
    }
    let last = k + 1 == path.len();
    match path[k] {
        SlotStep::SequenceChild(i) => match shape {
            SlotShape::Sequence(children) => {
                if i < children.len() {
                    assert(decreases_to!(*shape => (*shape)->Sequence_0));
                    assert(decreases_to!(*children => children@));
                    assert(decreases_to!(children@ => children@[i as int]));
                    slot_path_resolves_from(&children[i], path, k + 1)
                } else {
                    false
                }
            },
            _ => false,
        },
        SlotStep::StyledChild => match shape {
            SlotShape::Styled(child) => slot_path_resolves_from(&**child, path, k + 1),
            _ => false,
        },
        SlotStep::ParBody => match shape {
            SlotShape::Par(body) => last || slot_path_resolves_from(&**body, path, k + 1),
            _ => false,
        },
        SlotStep::ItemBody => last && matches!(shape, SlotShape::ListItem | SlotShape::EnumItem),
        SlotStep::ListItem(i) => last && match shape {
            SlotShape::List(n) => i < *n,
            _ => false,
        },
        SlotStep::EnumItem(i) => last && match shape {
            SlotShape::Enum(n) => i < *n,
            _ => false,
        },
        SlotStep::Term(i) | SlotStep::TermDescription(i) => last && match shape {
            SlotShape::TermItem => i == 0,
            SlotShape::Terms(n) => i < *n,
            _ => false,
        },
        SlotStep::FigureBody => last && matches!(shape, SlotShape::Figure { .. }),
        SlotStep::FigureCaption => last && match shape {
            SlotShape::Figure { has_caption } => *has_caption,
            _ => false,
        },
        SlotStep::FootnoteBody => last && matches!(shape, SlotShape::Footnote),
        SlotStep::QuoteBody => last && matches!(shape, SlotShape::Quote),
        SlotStep::WrapperBody => last && matches!(shape, SlotShape::Wrapper),
        SlotStep::TableCell(i) => last && match shape {
            SlotShape::Table(n) => i < *n,
            _ => false,
        },
        SlotStep::GridCell(i) => last && match shape {
            SlotShape::Grid(n) => i < *n,
            _ => false,
        },
        SlotStep::StackChild(i) => last && match shape {
            SlotShape::Stack(blocks) => i < blocks.len() && blocks[i],
            _ => false,
        },
    }
}

/// Whether a replacement can be written into the slot that the path leads
/// to; `replace_slot` writes it exactly then.
pub fn slot_path_resolves(shape: &SlotShape, path: &[SlotStep]) -> (b: bool)
    ensures
        b == slot_resolves(*shape, path@, 0),
{
    slot_path_resolves_from(shape, path, 0)
}


/// One step of a resolved slot write: going into a child, or the write at
/// the end.
#[derive(Clone, Copy, Debug, PartialEq, Eq, Structural)]
pub enum SlotAction {
    /// Into the sequence child at this position.
    IntoSequenceChild(usize),
    /// Into the style wrapper's child.
    IntoStyledChild,
    /// Into the paragraph's body.
    IntoParBody,
    /// Write the paragraph's body.
    WriteParBody,
    /// Write the body of a list item.
    WriteListItemBody,
    /// Write the body of an enum item.
    WriteEnumItemBody,
    /// Write the body of the list's item at this position.
    WriteListChild(usize),
    /// Write the body of the enum's item at this position.
    WriteEnumChild(usize),
    /// Write the term of a term item.
    WriteTermItemTerm,
    /// Write the description of a term item.
    WriteTermItemDescription,
    /// Write the term of the term list's item at this position.
    WriteTermsTerm(usize),
    /// Write the description of the term list's item at this position.
    WriteTermsDescription(usize),
    WriteFigureBody,
    WriteFigureCaption,
    WriteFootnoteBody,
    WriteQuoteBody,
    WriteWrapperBody,
    /// Write the cell at this position in document order.
    WriteTableCell(usize),
    /// Write the cell at this position in document order.
    WriteGridCell(usize),
    /// Write the block child of the stack at this position.
    WriteStackChild(usize),
}

/// The last action of a resolved write, for the last step of a path.
pub open spec fn final_action(shape: SlotShape, step: SlotStep) -> Option<SlotAction> {
    match step {
        SlotStep::ParBody => if shape is Par { Some(SlotAction::WriteParBody) } else { None },
        SlotStep::ItemBody => if shape is ListItem {
            Some(SlotAction::WriteListItemBody)
        } else if shape is EnumItem {
            Some(SlotAction::WriteEnumItemBody)
        } else {
            None
        },
        SlotStep::ListItem(i) => if shape matches SlotShape::List(n) && i < n { Some(SlotAction::WriteListChild(i)) } else { None },
        SlotStep::EnumItem(i) => if shape matches SlotShape::Enum(n) && i < n { Some(SlotAction::WriteEnumChild(i)) } else { None },
        SlotStep::Term(i) => if i == 0 && shape is TermItem {
            Some(SlotAction::WriteTermItemTerm)
        } else if shape matches SlotShape::Terms(n) && i < n {
            Some(SlotAction::WriteTermsTerm(i))
        } else {
            None
        },
        SlotStep::TermDescription(i) => if i == 0 && shape is TermItem {
            Some(SlotAction::WriteTermItemDescription)
        } else if shape matches SlotShape::Terms(n) && i < n {
            Some(SlotAction::WriteTermsDescription(i))
        } else {
            None
        },
        SlotStep::FigureBody => if shape is Figure { Some(SlotAction::WriteFigureBody) } else { None },
        SlotStep::FigureCaption => if shape matches SlotShape::Figure { has_caption } && has_caption {
            Some(SlotAction::WriteFigureCaption)
        } else {
            None
        },
        SlotStep::FootnoteBody => if shape is Footnote { Some(SlotAction::WriteFootnoteBody) } else { None },
        SlotStep::QuoteBody => if shape is Quote { Some(SlotAction::WriteQuoteBody) } else { None },
        SlotStep::WrapperBody => if shape is Wrapper { Some(SlotAction::WriteWrapperBody) } else { None },
        SlotStep::TableCell(i) => if shape matches SlotShape::Table(n) && i < n { Some(SlotAction::WriteTableCell(i)) } else { None },
        SlotStep::GridCell(i) => if shape matches SlotShape::Grid(n) && i < n { Some(SlotAction::WriteGridCell(i)) } else { None },
        SlotStep::StackChild(i) => if shape matches SlotShape::Stack(blocks) && i < blocks@.len() && blocks@[i as int] {
            Some(SlotAction::WriteStackChild(i))
        } else {
            None
        },
        _ => None,
    }
}

/// The resolved write for the path from step `k` on: the steps into
/// children, then the write; `None` exactly when the path leads to no slot.
pub open spec fn resolve_spec(shape: SlotShape, path: Seq<SlotStep>, k: nat) -> Option<Seq<SlotAction>>
    decreases shape,
{
    if k >= path.len() {
        None
    } else if k + 1 == path.len() && final_action(shape, path[k as int]) is Some {
        Some(seq![final_action(shape, path[k as int])->Some_0])
    } else {
        match path[k as int] {
            SlotStep::SequenceChild(i) => match shape {
                SlotShape::Sequence(children) => {
                    if i < children@.len() {
                        proof {
                            assert(decreases_to!(shape => children));
                            assert(decreases_to!(children => children@));
                            assert(decreases_to!(children@ => children@[i as int]));
                        }
                        match resolve_spec(children@[i as int], path, k + 1) {
                            Some(rest) => Some(seq![SlotAction::IntoSequenceChild(i)] + rest),
                            None => None,
                        }
                    } else {
                        None
                    }
                },
                _ => None,
            },
            SlotStep::StyledChild => match shape {
                SlotShape::Styled(child) => match resolve_spec(*child, path, k + 1) {
                    Some(rest) => Some(seq![SlotAction::IntoStyledChild] + rest),
                    None => None,
                },
                _ => None,
            },
            SlotStep::ParBody => match shape {
                SlotShape::Par(body) => match resolve_spec(*body, path, k + 1) {
                    Some(rest) => Some(seq![SlotAction::IntoParBody] + rest),
                    None => None,
                },
                _ => None,
            },
            _ => None,
        }
    }
}

proof fn lemma_resolve_iff(shape: SlotShape, path: Seq<SlotStep>, k: nat)
    ensures
        (resolve_spec(shape, path, k) is Some) == slot_resolves(shape, path, k),
    decreases shape,
{
    if k < path.len() {
        match path[k as int] {
            SlotStep::SequenceChild(i) => match shape {
                SlotShape::Sequence(children) => {
                    if i < children@.len() {
                        assert(decreases_to!(shape => children));
                        assert(decreases_to!(children => children@));
                        assert(decreases_to!(children@ => children@[i as int]));
                        lemma_resolve_iff(children@[i as int], path, k + 1);
                    }
                },
                _ => {},
            },
            SlotStep::StyledChild => match shape {
                SlotShape::Styled(child) => lemma_resolve_iff(*child, path, k + 1),
                _ => {},
            },
            SlotStep::ParBody => match shape {
                SlotShape::Par(body) => lemma_resolve_iff(*body, path, k + 1),
                _ => {},
            },
            _ => {},
        }
    }
}

fn final_action_exec(shape: &SlotShape, step: SlotStep) -> (a: Option<SlotAction>)
    ensures
        a == final_action(*shape, step),
{
    match step {
        SlotStep::ParBody => match shape {
            SlotShape::Par(_) => Some(SlotAction::WriteParBody),
            _ => None,
        },
        SlotStep::ItemBody => match shape {
            SlotShape::ListItem => Some(SlotAction::WriteListItemBody),
            SlotShape::EnumItem => Some(SlotAction::WriteEnumItemBody),
            _ => None,
        },
        SlotStep::ListItem(i) => match shape {
            SlotShape::List(n) => if i < *n { Some(SlotAction::WriteListChild(i)) } else { None },
            _ => None,
        },
        SlotStep::EnumItem(i) => match shape {
            SlotShape::Enum(n) => if i < *n { Some(SlotAction::WriteEnumChild(i)) } else { None },
            _ => None,
        },
        SlotStep::Term(i) => match shape {
            SlotShape::TermItem => if i == 0 { Some(SlotAction::WriteTermItemTerm) } else { None },
            SlotShape::Terms(n) => if i < *n { Some(SlotAction::WriteTermsTerm(i)) } else { None },
            _ => None,
        },
        SlotStep::TermDescription(i) => match shape {
            SlotShape::TermItem => if i == 0 { Some(SlotAction::WriteTermItemDescription) } else { None },
            SlotShape::Terms(n) => if i < *n { Some(SlotAction::WriteTermsDescription(i)) } else { None },
            _ => None,
        },
        SlotStep::FigureBody => match shape {
            SlotShape::Figure { .. } => Some(SlotAction::WriteFigureBody),
            _ => None,
        },
        SlotStep::FigureCaption => match shape {
            SlotShape::Figure { has_caption } => if *has_caption { Some(SlotAction::WriteFigureCaption) } else { None },
            _ => None,
        },
        SlotStep::FootnoteBody => match shape {
            SlotShape::Footnote => Some(SlotAction::WriteFootnoteBody),
            _ => None,
        },
        SlotStep::QuoteBody => match shape {
            SlotShape::Quote => Some(SlotAction::WriteQuoteBody),
            _ => None,
        },
        SlotStep::WrapperBody => match shape {
            SlotShape::Wrapper => Some(SlotAction::WriteWrapperBody),
            _ => None,
        },
        SlotStep::TableCell(i) => match shape {
            SlotShape::Table(n) => if i < *n { Some(SlotAction::WriteTableCell(i)) } else { None },
            _ => None,
        },
        SlotStep::GridCell(i) => match shape {
            SlotShape::Grid(n) => if i < *n { Some(SlotAction::WriteGridCell(i)) } else { None },
            _ => None,
        },
        SlotStep::StackChild(i) => match shape {
            SlotShape::Stack(blocks) => if i < blocks.len() && blocks[i] { Some(SlotAction::WriteStackChild(i)) } else { None },
            _ => None,
        },
        _ => None,
    }
}

fn prepend_action(first: SlotAction, rest: Vec<SlotAction>) -> (actions: Vec<SlotAction>)
    ensures
        actions@ == seq![first] + rest@,
{
    let mut actions: Vec<SlotAction> = Vec::new();
    actions.push(first);
    let mut rest = rest;
    actions.append(&mut rest);
    actions
}

/// The resolved write for the path from step `k` on; see [`resolve_spec`].
pub fn resolve_slot_from(shape: &SlotShape, path: &[SlotStep], k: usize) -> (plan: Option<Vec<SlotAction>>)
    ensures
        (match plan {
            Some(actions) => Some(actions@),
            None => None,
        }) == resolve_spec(*shape, path@, k as nat),
    decreases shape,
{
    if k >= path.len() {
        return None;
    }
    if k + 1 == path.len() {
        if let Some(action) = final_action_exec(shape, path[k]) {
            let mut actions: Vec<SlotAction> = Vec::new();
            actions.push(action);
            assert(actions@ =~= seq![action]);
            return Some(actions);
        }
    }
    match path[k] {
        SlotStep::SequenceChild(i) => match shape {
            SlotShape::Sequence(children) => {
                if i < children.len() {
                    assert(decreases_to!(*shape => (*shape)->Sequence_0));
                    assert(decreases_to!(*children => children@));
                    assert(decreases_to!(children@ => children@[i as int]));
                    match resolve_slot_from(&children[i], path, k + 1) {
                        Some(rest) => Some(prepend_action(SlotAction::IntoSequenceChild(i), rest)),
                        None => None,
                    }
                } else {
                    None
                }
            },
            _ => None,
        },
        SlotStep::StyledChild => match shape {
            SlotShape::Styled(child) => match resolve_slot_from(&**child, path, k + 1) {
                Some(rest) => Some(prepend_action(SlotAction::IntoStyledChild, rest)),
                None => None,
            },
            _ => None,
        },
        SlotStep::ParBody => match shape {
            SlotShape::Par(body) => match resolve_slot_from(&**body, path, k + 1) {
                Some(rest) => Some(prepend_action(SlotAction::IntoParBody, rest)),
                None => None,
            },
            _ => None,
        },
        _ => None,
    }
}

/// The resolved write of a replacement into the slot that the path leads
/// to: present exactly when [`slot_path_resolves`] holds.
pub fn resolve_slot(shape: &SlotShape, path: &[SlotStep]) -> (plan: Option<Vec<SlotAction>>)
    ensures
        (match plan {
            Some(actions) => Some(actions@),
            None => None,
        }) == resolve_spec(*shape, path@, 0),
        (plan is Some) == slot_resolves(*shape, path@, 0),
{
    proof {
        lemma_resolve_iff(*shape, path@, 0);
    }
    resolve_slot_from(shape, path, 0)
}

} // verus!
