//! What of old content stays visible when it is shown as deleted: invisible
//! elements go, elements whose text is computed become that text, page
//! styles are dropped, and the structure around visible content is kept.

use vstd::prelude::*;

use crate::text::{chars_of, string_of};

verus! {

/// How an element is treated when old content is retained for display.
#[derive(Clone, Copy, Debug, PartialEq, Eq, Structural)]
pub enum DisplayKind {
    /// A state update, metadata, tag or page break: dropped.
    Invisible,
    /// A context element or a reference: its plain text.
    Computed,
    /// Text, a space, a line or paragraph break, a raw line or an equation:
    /// kept.
    Leaf,
    /// A sequence: its children retained.
    Sequence,
    /// A style wrapper: its child retained, its page styles dropped, and the
    /// wrapper itself dropped when no style is left.
    Styled,
    /// Strong or emphasized text: rebuilt around its retained body.
    Strong,
    Emph,
    /// A link: its retained body, without the link.
    Link,
    /// A paragraph: a new paragraph around its retained body.
    Par,
    /// A highlight, heading, caption, list, enumeration, figure, footnote
    /// with a content body, table, grid, box, block, alignment, padding,
    /// placement, columns, rectangle, circle or ellipse: kept, with each of
    /// its content fields retained.
    Container,
    /// Any other element: its plain text.
    Other,
}

/// An element of old content: its treatment, its plain text, for a style
/// wrapper whether each of its styles is a page style, and its content
/// fields in order.
pub struct DisplayNode {
    pub kind: DisplayKind,
    pub text: String,
    pub page_styles: Vec<bool>,
    pub children: Vec<DisplayNode>,
}

/// No style is left once the page styles are dropped.
pub open spec fn only_page_styles(styles: Seq<bool>) -> bool {
    forall|k: int| 0 <= k < styles.len() ==> #[trigger] styles[k]
}

/// The styles that stay: those that are no page style.
pub open spec fn kept_styles(styles: Seq<bool>) -> Seq<bool> {
    styles.filter(|page: bool| !page)
}

/// A text leaf with no styles and no children.
pub open spec fn is_leaf(out: DisplayNode, text: Seq<char>) -> bool {
    out.kind == DisplayKind::Leaf && out.text@ == text && out.page_styles@.len() == 0
        && out.children@.len() == 0
}

/// An empty sequence.
pub open spec fn is_empty_sequence(out: DisplayNode) -> bool {
    out.kind == DisplayKind::Sequence && out.text@.len() == 0 && out.page_styles@.len() == 0
        && out.children@.len() == 0
}

/// The text leaf for a plain text, or an empty sequence for no text.
pub open spec fn is_text_of(out: DisplayNode, text: Seq<char>) -> bool {
    if text.len() == 0 {
        is_empty_sequence(out)
    } else {
        is_leaf(out, text)
    }
}

/// `out` is `node` retained for display.
pub open spec fn retained(node: DisplayNode, out: DisplayNode) -> bool
    decreases node,
{
    match node.kind {
        DisplayKind::Invisible => is_empty_sequence(out),
        DisplayKind::Computed | DisplayKind::Other => is_text_of(out, node.text@),
        DisplayKind::Leaf => is_leaf(out, node.text@),
        DisplayKind::Link => if node.children@.len() == 1 {
            retained(node.children@[0], out)
        } else {
            is_empty_sequence(out)
        },
        DisplayKind::Styled => if node.children@.len() != 1 {
            is_empty_sequence(out)
        } else if only_page_styles(node.page_styles@) {
            retained(node.children@[0], out)
        } else {
            &&& out.kind == DisplayKind::Styled
            &&& out.text@ == node.text@
            &&& out.page_styles@ == kept_styles(node.page_styles@)
            &&& out.children@.len() == 1
            &&& retained(node.children@[0], out.children@[0])
        },
        _ => {
            &&& out.kind == node.kind
            &&& out.text@ == node.text@
            &&& out.page_styles@.len() == 0
            &&& out.children@.len() == node.children@.len()
            &&& forall|i: int| 0 <= i < node.children@.len() ==> retained(
                #[trigger] node.children@[i],
                out.children@[i],
            )
        },
    }
}

fn empty_sequence() -> (out: DisplayNode)
    ensures
        is_empty_sequence(out),
{
    DisplayNode { kind: DisplayKind::Sequence, text: String::new(), page_styles: Vec::new(), children: Vec::new() }
}

fn copy_text(text: &String) -> (copy: String)
    ensures
        copy@ == text@,
{
    string_of(&chars_of(text.as_str()))
}

fn text_of(text: &String) -> (out: DisplayNode)
    ensures
        is_text_of(out, text@),
{
    if text.as_str().unicode_len() == 0 {
        empty_sequence()
    } else {
        DisplayNode { kind: DisplayKind::Leaf, text: copy_text(text), page_styles: Vec::new(), children: Vec::new() }
    }
}

/// Old content retained for display when it is shown as deleted: state
/// updates, metadata, tags and page breaks become empty; context elements,
/// references and unknown elements become their plain text; style wrappers
/// lose their page styles (and vanish when none is left); links give way to
/// their body; strong and emphasized text and paragraphs are rebuilt around
/// their retained body; other containers keep their shape with each content
/// field retained.
pub fn retain_old_display_content(node: &DisplayNode) -> (out: DisplayNode)
    ensures
        retained(*node, out),
    decreases node,
{
    match node.kind {
        DisplayKind::Invisible => empty_sequence(),
        DisplayKind::Computed | DisplayKind::Other => text_of(&node.text),
        DisplayKind::Leaf => DisplayNode {
            kind: DisplayKind::Leaf,
            text: copy_text(&node.text),
            page_styles: Vec::new(),
            children: Vec::new(),
        },
        DisplayKind::Link => {
            if node.children.len() == 1 {
                retain_old_display_content(&node.children[0])
            } else {
                empty_sequence()
            }
        },
        DisplayKind::Styled => {
            if node.children.len() != 1 {
                return empty_sequence();
            }
            let child = retain_old_display_content(&node.children[0]);
            let mut kept: Vec<bool> = Vec::new();
            let mut only_page = true;
            let mut k: usize = 0;
            while k < node.page_styles.len()
                invariant
                    k <= node.page_styles@.len(),
                    kept@ == kept_styles(node.page_styles@.subrange(0, k as int)),
                    only_page == only_page_styles(node.page_styles@.subrange(0, k as int)),
                decreases node.page_styles@.len() - k,
            {
                let page = node.page_styles[k];
                proof {
                    let pre = node.page_styles@.subrange(0, k as int);
                    let next = node.page_styles@.subrange(0, k + 1);
                    assert(next =~= pre.push(page));
                    reveal(Seq::filter);
                    assert(next.drop_last() =~= pre);
                }
                if !page {
                    kept.push(false);
                    only_page = false;
                }
                k += 1;
                proof {
                    let next = node.page_styles@.subrange(0, k as int);
                    assert(only_page == only_page_styles(next)) by {
                        if !page {
                            assert(!next[k - 1]);
                        }
                    }
                }
            }
            assert(node.page_styles@.subrange(0, k as int) =~= node.page_styles@);
            if only_page {
                child
            } else {
                let mut children: Vec<DisplayNode> = Vec::new();
                children.push(child);
                DisplayNode { kind: DisplayKind::Styled, text: copy_text(&node.text), page_styles: kept, children }
            }
        },
        _ => {
            let mut children: Vec<DisplayNode> = Vec::new();
            let mut i: usize = 0;
            while i < node.children.len()
                invariant
                    i <= node.children@.len(),
                    children@.len() == i,
                    forall|j: int| 0 <= j < i ==> retained(#[trigger] node.children@[j], children@[j]),
                decreases node.children@.len() - i,
            {
                let c = retain_old_display_content(&node.children[i]);
                children.push(c);
                i += 1;
            }
            DisplayNode { kind: node.kind, text: copy_text(&node.text), page_styles: Vec::new(), children }
        },
    }
}

} // verus!
