//! Where new inline text is grafted into a block, so that the block keeps
//! its outer form (heading level, paragraph styles) and only its text is
//! swapped.
//!
//! The block is seen as the shape that the search reads, and the result is a
//! plan of where the replacement goes; the caller carries it out.

use vstd::prelude::*;

verus! {

/// The shape of content as the graft search reads it.
#[derive(Debug)]
pub enum GraftShape {
    /// A style wrapper: the search goes on in its child (the caller strips
    /// the styles the wrapper already gives from the replacement).
    Styled(Box<GraftShape>),
    /// An element whose body is the text: a paragraph (`par` set), a
    /// heading or a figure caption.
    Body { par: bool },
    /// A footnote or a block with a content body: the search goes on in the
    /// body, and the body is replaced as a whole when it finds nothing.
    Nested(Box<GraftShape>),
    /// A sequence of children.
    Sequence(Vec<GraftShape>),
    /// Anything else: no place for text.
    Other,
}

/// Where the replacement goes.
#[derive(Debug, PartialEq, Eq)]
pub enum GraftPlan {
    /// Into the style wrapper's child, as the inner plan says.
    Styled(Box<GraftPlan>),
    /// As the element's body.
    SetBody,
    /// Into the nested body as the inner plan says, or as the whole body.
    Nested(Option<Box<GraftPlan>>),
    /// As the sequence's children (the replacement's children when it is a
    /// sequence itself).
    ReplaceChildren,
    /// Into the child at this position, as the inner plan says.
    Child(usize, Box<GraftPlan>),
}

/// A child that is neither a paragraph nor a sequence.
pub open spec fn inlineish(shape: GraftShape) -> bool {
    !(shape matches GraftShape::Body { par } && par) && !(shape is Sequence)
}

/// The first `n` children are all inline-ish.
pub open spec fn all_inlineish(children: Seq<GraftShape>, n: nat) -> bool
    decreases n,
{
    if n == 0 || n > children.len() {
        true
    } else {
        all_inlineish(children, (n - 1) as nat) && inlineish(children[n - 1])
    }
}

/// The graft plan of a shape: through style wrappers when their child has a
/// place; into a body; into a nested body, or as it; as the children of an
/// all-inline sequence; else into the first child that has a place. `None`
/// when there is no place.
pub open spec fn graft_spec(shape: GraftShape) -> Option<GraftPlan>
    decreases shape, 0nat,
{
    match shape {
        GraftShape::Styled(child) => match graft_spec(*child) {
            Some(plan) => Some(GraftPlan::Styled(Box::new(plan))),
            None => None,
        },
        GraftShape::Body { .. } => Some(GraftPlan::SetBody),
        GraftShape::Nested(body) => match graft_spec(*body) {
            Some(plan) => Some(GraftPlan::Nested(Some(Box::new(plan)))),
            None => Some(GraftPlan::Nested(None)),
        },
        GraftShape::Sequence(children) => {
            if all_inlineish(children@, children@.len()) {
                Some(GraftPlan::ReplaceChildren)
            } else {
                proof {
                    assert(decreases_to!(shape => children));
                    assert(decreases_to!(children => children@));
                }
                first_graft(children@, 0)
            }
        },
        GraftShape::Other => None,
    }
}

/// The plan into the first child from position `i` on that has a place.
pub open spec fn first_graft(children: Seq<GraftShape>, i: nat) -> Option<GraftPlan>
    decreases children, children.len() - i,
{
    if i >= children.len() {
        None
    } else {
        match graft_spec(children[i as int]) {
            Some(plan) => Some(GraftPlan::Child(i as usize, Box::new(plan))),
            None => first_graft(children, i + 1),
        }
    }
}

fn is_inlineish(shape: &GraftShape) -> (b: bool)
    ensures
        b == inlineish(*shape),
{
    match shape {
        GraftShape::Body { par } => !*par,
        GraftShape::Sequence(_) => false,
        _ => true,
    }
}

/// Finds where new inline text goes in a block; see [`graft_spec`].
pub fn replace_text_container(shape: &GraftShape) -> (plan: Option<GraftPlan>)
    ensures
        plan == graft_spec(*shape),
    decreases shape, 0nat,
{
    match shape {
        GraftShape::Styled(child) => match replace_text_container(&**child) {
            Some(plan) => Some(GraftPlan::Styled(Box::new(plan))),
            None => None,
        },
        GraftShape::Body { .. } => Some(GraftPlan::SetBody),
        GraftShape::Nested(body) => match replace_text_container(&**body) {
            Some(plan) => Some(GraftPlan::Nested(Some(Box::new(plan)))),
            None => Some(GraftPlan::Nested(None)),
        },
        GraftShape::Sequence(children) => {
            let mut all = true;
            let mut k: usize = 0;
            while k < children.len()
                invariant
                    k <= children@.len(),
                    all == all_inlineish(children@, k as nat),
                decreases children@.len() - k,
            {
                all = all && is_inlineish(&children[k]);
                k += 1;
            }
            if all {
                return Some(GraftPlan::ReplaceChildren);
            }
            let mut i: usize = 0;
            while i < children.len()
                invariant
                    i <= children@.len(),
                    *shape == GraftShape::Sequence(*children),
                    first_graft(children@, 0) == first_graft(children@, i as nat),
                    !all_inlineish(children@, children@.len()),
                decreases children@.len() - i,
            {
                assert(decreases_to!(*shape => (*shape)->Sequence_0));
                assert(decreases_to!(*children => children@));
                assert(decreases_to!(children@ => children@[i as int]));
                let found = replace_text_container(&children[i]);
                assert(children[i as int] == children@[i as int]);
                match found {
                    Some(plan) => {
                        assert(first_graft(children@, i as nat) == Some(GraftPlan::Child(i, Box::new(plan))));
                        return Some(GraftPlan::Child(i, Box::new(plan)));
                    },
                    None => {},
                }
                i += 1;
            }
            None
        },
        GraftShape::Other => None,
    }
}

} // verus!
