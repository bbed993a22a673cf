//! Semantic annotations of realized content: what kind of authored element a
//! node stands for, and the named slots inside structured containers.

use vstd::prelude::*;

verus! {

/// The authored element that a realized node stands for.
#[derive(Clone, Copy, Debug, PartialEq, Eq, Hash, Structural)]
pub enum SemanticKind {
    Paragraph,
    Heading,
    RawBlock,
    List,
    Enum,
    Terms,
    Table,
    Grid,
    Stack,
    Figure,
    Quote,
    Equation,
    Wrapper(WrapperKind),
}

/// The layout wrapper that a wrapper node stands for.
#[derive(Clone, Copy, Debug, PartialEq, Eq, Hash, Structural)]
pub enum WrapperKind {
    Align,
    Pad,
    Place,
    Columns,
    Box,
    Block,
    Rect,
    Circle,
    Ellipse,
}

/// One semantic slot label inside a structured container.
#[derive(Clone, Copy, Debug, PartialEq, Eq, Hash, Structural)]
pub enum SlotStep {
    ListItem(usize),
    EnumItem(usize),
    Term(usize),
    TermDescription(usize),
    FigureBody,
    FigureCaption,
    FootnoteBody,
    QuoteBody,
    WrapperBody,
    TableCell(usize),
    GridCell(usize),
    StackChild(usize),
}

/// A named semantic position within an annotated node.
///
/// `path` is relative to the node's patch surface, not incidental realized
/// layout scaffolding. `label` identifies the slot's role (e.g. `ListItem(0)`).
#[derive(Debug)]
pub struct SemanticSlot {
    pub label: SlotStep,
    pub path: Vec<usize>,
    pub patch_path: Option<Vec<usize>>,
}

/// The kind of a structured container.
#[derive(Clone, Copy, Debug, PartialEq, Eq, Structural)]
pub enum ContainerKind {
    List,
    Enum,
    Terms,
    Table,
    Grid,
    Stack,
    Figure,
    Quote,
    Wrapper(WrapperKind),
}

/// The semantic kind of each container kind.
pub open spec fn container_semantic_kind(kind: ContainerKind) -> SemanticKind {
    match kind {
        ContainerKind::List => SemanticKind::List,
        ContainerKind::Enum => SemanticKind::Enum,
        ContainerKind::Terms => SemanticKind::Terms,
        ContainerKind::Table => SemanticKind::Table,
        ContainerKind::Grid => SemanticKind::Grid,
        ContainerKind::Stack => SemanticKind::Stack,
        ContainerKind::Figure => SemanticKind::Figure,
        ContainerKind::Quote => SemanticKind::Quote,
        ContainerKind::Wrapper(w) => SemanticKind::Wrapper(w),
    }
}

impl ContainerKind {
    /// The semantic kind that this container stands for.
    pub fn semantic_kind(&self) -> (kind: SemanticKind)
        ensures
            kind == container_semantic_kind(*self),
    {
        match self {
            ContainerKind::List => SemanticKind::List,
            ContainerKind::Enum => SemanticKind::Enum,
            ContainerKind::Terms => SemanticKind::Terms,
            ContainerKind::Table => SemanticKind::Table,
            ContainerKind::Grid => SemanticKind::Grid,
            ContainerKind::Stack => SemanticKind::Stack,
            ContainerKind::Figure => SemanticKind::Figure,
            ContainerKind::Quote => SemanticKind::Quote,
            ContainerKind::Wrapper(kind) => SemanticKind::Wrapper(*kind),
        }
    }
}

/// The element names whose realized output is an opaque visual: shapes and
/// images.
pub open spec fn opaque_visual_names() -> Seq<Seq<char>> {
    seq!["rect"@, "circle"@, "ellipse"@, "line"@, "polygon"@, "path"@, "image"@]
}

/// Whether an element name is that of an opaque visual.
pub fn is_opaque_visual_element_name(name: &str) -> (b: bool)
    ensures
        b == opaque_visual_names().contains(name@),
{
    let names = ["rect", "circle", "ellipse", "line", "polygon", "path", "image"];
    let ghost views = opaque_visual_names();
    let mut i: usize = 0;
    while i < 7
        invariant
            i <= 7,
            views == opaque_visual_names(),
            forall|k: int| 0 <= k < 7 ==> #[trigger] names@[k]@ == views[k],
            forall|k: int| 0 <= k < i ==> views[k] != name@,
        decreases 7 - i,
    {
        if crate::edit_script::str_eq(names[i], name) {
            assert(views[i as int] == name@);
            return true;
        }
        i += 1;
    }
    false
}

/// The first slot whose logical path is `path`, by position.
pub open spec fn first_slot_with_path(slots: Seq<SemanticSlot>, path: Seq<usize>) -> Option<int> {
    if exists|i: int| 0 <= i < slots.len() && slots[i].path@ == path {
        Some(choose|i: int| 0 <= i < slots.len() && slots[i].path@ == path
            && forall|j: int| 0 <= j < i ==> slots[j].path@ != path)
    } else {
        None
    }
}

fn same_path(a: &Vec<usize>, b: &[usize]) -> (same: bool)
    ensures
        same == (a@ == b@),
{
    if a.len() != b.len() {
        return false;
    }
    let mut i: usize = 0;
    while i < a.len()
        invariant
            a@.len() == b@.len(),
            i <= a@.len(),
            forall|k: int| 0 <= k < i ==> a@[k] == b@[k],
        decreases a@.len() - i,
    {
        if a[i] != b[i] {
            return false;
        }
        i += 1;
    }
    assert(a@ =~= b@);
    true
}

fn copy_path(path: &Vec<usize>) -> (copy: Vec<usize>)
    ensures
        copy@ == path@,
{
    let mut copy: Vec<usize> = Vec::new();
    let mut i: usize = 0;
    while i < path.len()
        invariant
            i <= path@.len(),
            copy@ == path@.subrange(0, i as int),
        decreases path@.len() - i,
    {
        copy.push(path[i]);
        i += 1;
    }
    assert(path@.subrange(0, i as int) =~= path@);
    copy
}

/// The patch path of the first slot at the logical `path`, if that slot has one.
pub fn patch_path_for_logical_path(slots: &[SemanticSlot], path: &[usize]) -> (patch: Option<Vec<usize>>)
    ensures
        match first_slot_with_path(slots@, path@) {
            Some(i) => match slots@[i].patch_path {
                Some(p) => patch is Some && patch.unwrap()@ == p@,
                None => patch is None,
            },
            None => patch is None,
        },
{
    let mut i: usize = 0;
    while i < slots.len()
        invariant
            i <= slots@.len(),
            forall|j: int| 0 <= j < i ==> slots@[j].path@ != path@,
        decreases slots@.len() - i,
    {
        if same_path(&slots[i].path, path) {
            proof {
                let k = choose|k: int| 0 <= k < slots@.len() && slots@[k].path@ == path@
                    && forall|j: int| 0 <= j < k ==> slots@[j].path@ != path@;
                assert(0 <= i < slots@.len() && slots@[i as int].path@ == path@
                    && forall|j: int| 0 <= j < i ==> slots@[j].path@ != path@);
                if k < i {
                    assert(slots@[k].path@ != path@);
                }
                if k > i {
                    assert(slots@[i as int].path@ != path@);
                }
            }
            return match &slots[i].patch_path {
                Some(p) => Some(copy_path(p)),
                None => None,
            };
        }
        i += 1;
    }
    None
}

/// A footnote body slot at `[.., 0]` marks the footnote call at its parent
/// path.
pub open spec fn footnote_call_path_spec(label: SlotStep, path: Seq<usize>) -> Option<Seq<usize>> {
    if label == SlotStep::FootnoteBody && path.len() > 0 && path.last() == 0 {
        Some(path.drop_last())
    } else {
        None
    }
}

/// The path of the footnote call that a footnote body slot belongs to.
pub fn footnote_call_path(slot: &SemanticSlot) -> (call: Option<Vec<usize>>)
    ensures
        match footnote_call_path_spec(slot.label, slot.path@) {
            Some(p) => call is Some && call.unwrap()@ == p,
            None => call is None,
        },
{
    if slot.label != SlotStep::FootnoteBody {
        return None;
    }
    let n = slot.path.len();
    if n == 0 || slot.path[n - 1] != 0 {
        return None;
    }
    let mut parent: Vec<usize> = Vec::new();
    let mut i: usize = 0;
    while i + 1 < n
        invariant
            n == slot.path@.len(),
            n >= 1,
            i <= n - 1,
            parent@ == slot.path@.subrange(0, i as int),
        decreases n - i,
    {
        parent.push(slot.path[i]);
        i += 1;
    }
    assert(parent@ =~= slot.path@.drop_last());
    Some(parent)
}

} // verus!
