//! Presentation keys: a text that two pieces of content share exactly when
//! they are shown alike, so that `regular` and `*regular*` differ.
//!
//! The content is seen as a tree of key nodes, built by the caller from the
//! element kinds: nodes written as a label and their children, nodes written
//! as a label around one child, atoms written as a given text, nodes that
//! are looked through, and metadata tags, which write nothing.

use vstd::prelude::*;

use crate::text::push_char;

verus! {

/// The shape of a piece of content that its presentation key reads.
#[derive(Debug)]
pub enum KeyNode {
    /// `label[` then each child's key followed by `;`, skipping metadata
    /// tags, then `]` (sequences and containers).
    List { label: String, children: Vec<KeyNode> },
    /// `label[`, the child's key, `]` (paragraphs, headings, strong and the
    /// other text decorations, styles, blocks with a content body).
    Wrap { label: String, child: Box<KeyNode> },
    /// A fixed text (text, space, equations, opaque visuals, leaves).
    Atom(String),
    /// The child's key alone (links, styles that set nothing that shows).
    Transparent(Box<KeyNode>),
    /// A metadata tag: nothing.
    Skip,
}

/// The presentation key of a node.
pub open spec fn key_spec(node: KeyNode) -> Seq<char>
    decreases node, 0nat,
{
    match node {
        KeyNode::List { label, children } => label@ + seq!['['] + list_key(children@, children@.len()) + seq![']'],
        KeyNode::Wrap { label, child } => label@ + seq!['['] + key_spec(*child) + seq![']'],
        KeyNode::Atom(text) => text@,
        KeyNode::Transparent(child) => key_spec(*child),
        KeyNode::Skip => Seq::empty(),
    }
}

/// The keys of the first `n` children, each followed by `;`, metadata tags
/// left out.
pub open spec fn list_key(children: Seq<KeyNode>, n: nat) -> Seq<char>
    decreases children, n,
{
    if n == 0 || n > children.len() {
        Seq::empty()
    } else if children[n - 1] is Skip {
        list_key(children, (n - 1) as nat)
    } else {
        list_key(children, (n - 1) as nat) + key_spec(children[n - 1]) + seq![';']
    }
}

/// Appends the presentation key of a node; see [`key_spec`].
pub fn write_presentation_key(node: &KeyNode, out: &mut String)
    ensures
        final(out)@ == old(out)@ + key_spec(*node),
    decreases node, 0nat,
{
    match node {
        KeyNode::List { label, children } => {
            out.append(label.as_str());
            push_char(out, '[');
            let ghost head = out@;
            let mut i: usize = 0;
            while i < children.len()
                invariant
                    i <= children@.len(),
                    out@ == head + list_key(children@, i as nat),
                    *node == (KeyNode::List { label: *label, children: *children }),
                decreases children@.len() - i,
            {
                assert(decreases_to!(*node => (*node)->children));
                assert(decreases_to!(*children => children@));
                assert(decreases_to!(children@ => children@[i as int]));
                let child = &children[i];
                assert(*child == children@[i as int]);
                match child {
                    KeyNode::Skip => {},
                    _ => {
                        write_presentation_key(child, out);
                        push_char(out, ';');
                    },
                }
                i += 1;
                assert(out@ =~= head + list_key(children@, i as nat));
            }
            push_char(out, ']');
            assert(out@ =~= old(out)@ + key_spec(*node));
        },
        KeyNode::Wrap { label, child } => {
            out.append(label.as_str());
            push_char(out, '[');
            write_presentation_key(&**child, out);
            push_char(out, ']');
            assert(out@ =~= old(out)@ + key_spec(*node));
        },
        KeyNode::Atom(text) => {
            out.append(text.as_str());
        },
        KeyNode::Transparent(child) => {
            write_presentation_key(&**child, out);
        },
        KeyNode::Skip => {
            assert(out@ =~= old(out)@ + key_spec(*node));
        },
    }
}

/// The presentation key of a node; see [`key_spec`].
pub fn presentation_key(node: &KeyNode) -> (key: String)
    ensures
        key@ == key_spec(*node),
{
    let mut out = String::new();
    write_presentation_key(node, &mut out);
    assert(out@ =~= key_spec(*node));
    out
}

} // verus!
