//! The transparent children of an element: the content fields that a
//! mapping over the element passes through, in the order it visits them.
//! Elements with no such field are opaque.

use vstd::prelude::*;

verus! {

/// The shape of an element as the mapping over its children reads it.
#[derive(Clone, Copy, Debug, PartialEq, Eq, Structural)]
pub enum ElementShape {
    /// A sequence with this many children.
    Sequence(usize),
    Styled,
    Par,
    Heading,
    Link,
    Strong,
    Emph,
    Highlight,
    Hide,
    /// A figure; `true` when it has a caption.
    Figure(bool),
    FigureCaption,
    /// A footnote; `true` when its body is content (not a label).
    Footnote(bool),
    /// A block; `true` when its body is content.
    Block(bool),
    Align,
    Pad,
    Place,
    Columns,
    /// A box; `true` when it has a body.
    Box(bool),
    /// A rectangle; `true` when it has a body.
    Rect(bool),
    /// A circle; `true` when it has a body.
    Circle(bool),
    /// An ellipse; `true` when it has a body.
    Ellipse(bool),
    Strike,
    ListItem,
    EnumItem,
    TermItem,
    /// A list with this many items.
    List(usize),
    /// An enumeration with this many items.
    Enum(usize),
    /// A term list with this many items.
    Terms(usize),
    Other,
}

/// A content field of an element.
#[derive(Clone, Copy, Debug, PartialEq, Eq, Structural)]
pub enum ChildField {
    /// The child of a sequence at this position.
    Child(usize),
    /// The element's body (or a style wrapper's child).
    Body,
    /// A figure's caption body.
    Caption,
    /// A term item's term.
    Term,
    /// A term item's description.
    Description,
    /// The body of the list or enumeration item at this position.
    ItemBody(usize),
    /// The term of the term list item at this position.
    ItemTerm(usize),
    /// The description of the term list item at this position.
    ItemDescription(usize),
}

/// The field at position `k` of a term list's fields: the term, then the
/// description, of each item.
pub open spec fn term_field(k: int) -> ChildField {
    if k % 2 == 0 {
        ChildField::ItemTerm((k / 2) as usize)
    } else {
        ChildField::ItemDescription((k / 2) as usize)
    }
}

/// The transparent fields of an element in visiting order, or `None` for an
/// opaque element.
pub open spec fn transparent_fields(shape: ElementShape) -> Option<Seq<ChildField>> {
    match shape {
        ElementShape::Sequence(n) => Some(Seq::new(n as nat, |i: int| ChildField::Child(i as usize))),
        ElementShape::Styled | ElementShape::Par | ElementShape::Heading | ElementShape::Link
        | ElementShape::Strong | ElementShape::Emph | ElementShape::Highlight | ElementShape::Hide
        | ElementShape::FigureCaption | ElementShape::Align | ElementShape::Pad | ElementShape::Place
        | ElementShape::Columns | ElementShape::Strike | ElementShape::ListItem
        | ElementShape::EnumItem => Some(seq![ChildField::Body]),
        ElementShape::Figure(caption) => Some(
            if caption {
                seq![ChildField::Body, ChildField::Caption]
            } else {
                seq![ChildField::Body]
            },
        ),
        ElementShape::Footnote(b) | ElementShape::Block(b) | ElementShape::Box(b) | ElementShape::Rect(b)
        | ElementShape::Circle(b) | ElementShape::Ellipse(b) => if b {
            Some(seq![ChildField::Body])
        } else {
            None
        },
        ElementShape::TermItem => Some(seq![ChildField::Term, ChildField::Description]),
        ElementShape::List(n) | ElementShape::Enum(n) => Some(
            Seq::new(n as nat, |i: int| ChildField::ItemBody(i as usize)),
        ),
        ElementShape::Terms(n) => Some(Seq::new(2 * n as nat, |k: int| term_field(k))),
        ElementShape::Other => None,
    }
}

/// The fields `f(0), .., f(n - 1)`.
fn numbered_fields(n: usize, item: bool) -> (fields: Vec<ChildField>)
    ensures
        fields@ == Seq::new(
            n as nat,
            |i: int| if item { ChildField::ItemBody(i as usize) } else { ChildField::Child(i as usize) },
        ),
{
    let mut fields: Vec<ChildField> = Vec::new();
    let mut i: usize = 0;
    while i < n
        invariant
            i <= n,
            fields@ == Seq::new(
                i as nat,
                |j: int| if item { ChildField::ItemBody(j as usize) } else { ChildField::Child(j as usize) },
            ),
        decreases n - i,
    {
        fields.push(if item { ChildField::ItemBody(i) } else { ChildField::Child(i) });
        i += 1;
        assert(fields@ =~= Seq::new(
            i as nat,
            |j: int| if item { ChildField::ItemBody(j as usize) } else { ChildField::Child(j as usize) },
        ));
    }
    fields
}

/// The term and description of each of `n` term list items, in order.
fn term_fields(n: usize) -> (fields: Vec<ChildField>)
    ensures
        fields@ == Seq::new(2 * n as nat, |k: int| term_field(k)),
{
    let mut fields: Vec<ChildField> = Vec::new();
    let mut i: usize = 0;
    while i < n
        invariant
            i <= n,
            fields@ == Seq::new(2 * i as nat, |k: int| term_field(k)),
        decreases n - i,
    {
        let ghost prev = fields@;
        fields.push(ChildField::ItemTerm(i));
        fields.push(ChildField::ItemDescription(i));
        let ghost gi = i as int;
        assert((2 * gi) % 2 == 0 && (2 * gi) / 2 == gi) by (nonlinear_arith);
        assert((2 * gi + 1) % 2 == 1 && (2 * gi + 1) / 2 == gi) by (nonlinear_arith);
        i += 1;
        assert forall|k: int| 0 <= k < 2 * i implies fields@[k] == #[trigger] term_field(k) by {
            if k < 2 * gi {
                assert(fields@[k] == prev[k]);
                assert(prev[k] == Seq::new(2 * gi as nat, |k: int| term_field(k))[k]);
            } else if k == 2 * gi {
                assert(fields@[k] == ChildField::ItemTerm(gi as usize));
                assert(term_field(k) == ChildField::ItemTerm(gi as usize));
            } else {
                assert(k == 2 * gi + 1);
                assert(fields@[k] == ChildField::ItemDescription(gi as usize));
                assert(term_field(k) == ChildField::ItemDescription(gi as usize));
            }
        }
        assert(fields@ =~= Seq::new(2 * i as nat, |k: int| term_field(k)));
    }
    fields
}

/// The transparent fields of an element in the order a mapping over its
/// children visits them; `None` for an element that a mapping cannot enter.
pub fn transparent_children(shape: ElementShape) -> (fields: Option<Vec<ChildField>>)
    requires
        shape matches ElementShape::Terms(n) ==> 2 * n <= usize::MAX,
    ensures
        (match fields {
            Some(v) => Some(v@),
            None => None,
        }) == transparent_fields(shape),
{
    match shape {
        ElementShape::Sequence(n) => Some(numbered_fields(n, false)),
        ElementShape::Styled | ElementShape::Par | ElementShape::Heading | ElementShape::Link
        | ElementShape::Strong | ElementShape::Emph | ElementShape::Highlight | ElementShape::Hide
        | ElementShape::FigureCaption | ElementShape::Align | ElementShape::Pad | ElementShape::Place
        | ElementShape::Columns | ElementShape::Strike | ElementShape::ListItem
        | ElementShape::EnumItem => {
            let v = vec![ChildField::Body];
            assert(v@ =~= seq![ChildField::Body]);
            Some(v)
        },
        ElementShape::Figure(caption) => {
            let v = if caption {
                vec![ChildField::Body, ChildField::Caption]
            } else {
                vec![ChildField::Body]
            };
            assert(v@ =~= if caption {
                seq![ChildField::Body, ChildField::Caption]
            } else {
                seq![ChildField::Body]
            });
            Some(v)
        },
        ElementShape::Footnote(b) | ElementShape::Block(b) | ElementShape::Box(b) | ElementShape::Rect(b)
        | ElementShape::Circle(b) | ElementShape::Ellipse(b) => {
            if b {
                let v = vec![ChildField::Body];
                assert(v@ =~= seq![ChildField::Body]);
                Some(v)
            } else {
                None
            }
        },
        ElementShape::TermItem => {
            let v = vec![ChildField::Term, ChildField::Description];
            assert(v@ =~= seq![ChildField::Term, ChildField::Description]);
            Some(v)
        },
        ElementShape::List(n) | ElementShape::Enum(n) => Some(numbered_fields(n, true)),
        ElementShape::Terms(n) => Some(term_fields(n)),
        ElementShape::Other => None,
    }
}

} // verus!
