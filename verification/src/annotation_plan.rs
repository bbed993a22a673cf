//! How the annotated tree is built from the content before realization and
//! the realized content: which route each pair of nodes takes, and how the
//! children of a sequence are paired.
//!
//! - Children that contain footnotes, in a sequence whose realized form has
//!   paragraph blocks, are paired paragraph by paragraph: the children before
//!   realization are cut into paragraph runs at paragraph breaks, and each
//!   realized paragraph takes the next run.
//! - Sequences of equal length with no context element on either side are
//!   paired position by position.
//! - All others are paired by span (see `span_pairing`).

use vstd::prelude::*;

verus! {

/// How the children of a sequence are paired.
#[derive(Clone, Copy, Debug, PartialEq, Eq, Structural)]
pub enum SequencePairing {
    FootnoteParagraphs,
    Positional,
    BySpan,
}

/// The pairing for a sequence: by paragraphs when a child before realization
/// holds a footnote and a realized child is a paragraph; by position when
/// the counts agree and no context element is involved; else by span.
pub fn sequence_pairing(
    pre_has_footnote: bool,
    realized_has_paragraph: bool,
    pre_len: usize,
    realized_len: usize,
    involves_context: bool,
) -> (pairing: SequencePairing)
    ensures
        pairing == (if pre_has_footnote && realized_has_paragraph {
            SequencePairing::FootnoteParagraphs
        } else if pre_len == realized_len && !involves_context {
            SequencePairing::Positional
        } else {
            SequencePairing::BySpan
        }),
{
    if pre_has_footnote && realized_has_paragraph {
        SequencePairing::FootnoteParagraphs
    } else if pre_len == realized_len && !involves_context {
        SequencePairing::Positional
    } else {
        SequencePairing::BySpan
    }
}

/// The shape of a node, as the annotated tree's construction reads it.
#[derive(Clone, Copy, Debug, PartialEq, Eq, Structural)]
pub enum NodeShape {
    Sequence,
    Styled,
    Paragraph,
    Footnote,
    Context,
    /// A list, enum, terms, table, grid, stack, figure, quote or wrapper.
    Container,
    Equation,
    Heading,
    Raw,
    Other,
}

/// What is known of a node before realization and its realized node.
#[derive(Clone, Copy, Debug, PartialEq, Eq, Structural)]
pub struct AnnotateFacts {
    pub pre: NodeShape,
    pub realized: NodeShape,
    /// A child of the sequence before realization holds a footnote.
    pub pre_has_footnote: bool,
    /// A realized child of the sequence is a paragraph block.
    pub realized_has_paragraph: bool,
    /// The number of children of each sequence.
    pub pre_len: usize,
    pub realized_len: usize,
    /// A context element occurs among the children of either sequence.
    pub involves_context: bool,
    /// The realized node holds a context element whose content was recorded.
    pub recorded_context: bool,
    /// The node before realization is a rect, circle, ellipse, line,
    /// polygon, path or image.
    pub opaque_visual: bool,
    /// The realized node has no visible text.
    pub realized_blank: bool,
    /// The two nodes are equal.
    pub same_content: bool,
}

/// How one annotated node is built from a node before realization and its
/// realized node. Every route keeps the realized node as the annotated
/// node's realized content; they differ in what they descend into.
#[derive(Clone, Copy, Debug, PartialEq, Eq, Structural)]
pub enum AnnotateRoute {
    /// The realized root is wrapped in page styles: the same node before
    /// realization against the wrapped child.
    PeelRealizedStyle,
    /// A style wrapper only before realization: its child against the same
    /// realized node.
    PeelPreStyle,
    /// A footnote with its body slot.
    Footnote,
    /// A context element that stayed a context element: a leaf.
    ContextLeaf,
    /// A context element: the recorded content (or the realized node)
    /// against the realized node.
    ContextRecorded,
    /// A container with its slots.
    Container,
    /// An equation leaf.
    EquationLeaf,
    /// A heading with its body slot.
    Heading,
    /// A raw block leaf, whose patch surface is the node before realization
    /// when the two differ.
    RawLeaf,
    /// Two sequences, children paired as the pairing says.
    Sequence(SequencePairing),
    /// A sequence realized as a paragraph: the sequence against the
    /// paragraph's body.
    SequenceInParagraph,
    /// A sequence against a realized node of another shape: each child
    /// against itself.
    SequenceAlone,
    /// Two style wrappers: their children.
    Styled,
    /// Two paragraphs: their bodies.
    Paragraph,
    /// The realized node holds recorded context content: that content
    /// against the realized node.
    RecordedContext,
    /// A visual element realized without text: a leaf whose patch surface is
    /// the node before realization.
    OpaqueVisualLeaf,
    /// A leaf.
    Leaf,
}

/// The route, in the order the construction tries them.
pub open spec fn annotate_route_spec(f: AnnotateFacts) -> AnnotateRoute {
    if f.pre == NodeShape::Sequence && f.realized == NodeShape::Styled {
        AnnotateRoute::PeelRealizedStyle
    } else if f.pre == NodeShape::Styled && f.realized != NodeShape::Styled {
        AnnotateRoute::PeelPreStyle
    } else if f.pre == NodeShape::Footnote {
        AnnotateRoute::Footnote
    } else if f.pre == NodeShape::Context {
        if f.realized == NodeShape::Context {
            AnnotateRoute::ContextLeaf
        } else {
            AnnotateRoute::ContextRecorded
        }
    } else if f.pre == NodeShape::Container {
        AnnotateRoute::Container
    } else if f.pre == NodeShape::Equation {
        AnnotateRoute::EquationLeaf
    } else if f.pre == NodeShape::Heading {
        AnnotateRoute::Heading
    } else if f.pre == NodeShape::Raw {
        AnnotateRoute::RawLeaf
    } else if f.pre == NodeShape::Sequence && f.realized == NodeShape::Sequence {
        AnnotateRoute::Sequence(
            if f.pre_has_footnote && f.realized_has_paragraph {
                SequencePairing::FootnoteParagraphs
            } else if f.pre_len == f.realized_len && !f.involves_context {
                SequencePairing::Positional
            } else {
                SequencePairing::BySpan
            },
        )
    } else if f.pre == NodeShape::Sequence && f.realized == NodeShape::Paragraph {
        AnnotateRoute::SequenceInParagraph
    } else if f.pre == NodeShape::Sequence {
        AnnotateRoute::SequenceAlone
    } else if f.pre == NodeShape::Styled && f.realized == NodeShape::Styled {
        AnnotateRoute::Styled
    } else if f.pre == NodeShape::Paragraph && f.realized == NodeShape::Paragraph {
        AnnotateRoute::Paragraph
    } else if f.recorded_context {
        AnnotateRoute::RecordedContext
    } else if f.opaque_visual && f.realized_blank && !f.same_content {
        AnnotateRoute::OpaqueVisualLeaf
    } else {
        AnnotateRoute::Leaf
    }
}

/// Decides how the annotated node for a node before realization and its
/// realized node is built; see [`annotate_route_spec`].
pub fn annotate_route(f: &AnnotateFacts) -> (route: AnnotateRoute)
    ensures
        route == annotate_route_spec(*f),
{
    if f.pre == NodeShape::Sequence && f.realized == NodeShape::Styled {
        return AnnotateRoute::PeelRealizedStyle;
    }
    if f.pre == NodeShape::Styled && f.realized != NodeShape::Styled {
        return AnnotateRoute::PeelPreStyle;
    }
    match f.pre {
        NodeShape::Footnote => return AnnotateRoute::Footnote,
        NodeShape::Context => {
            return if f.realized == NodeShape::Context {
                AnnotateRoute::ContextLeaf
            } else {
                AnnotateRoute::ContextRecorded
            };
        },
        NodeShape::Container => return AnnotateRoute::Container,
        NodeShape::Equation => return AnnotateRoute::EquationLeaf,
        NodeShape::Heading => return AnnotateRoute::Heading,
        NodeShape::Raw => return AnnotateRoute::RawLeaf,
        _ => {},
    }
    if f.pre == NodeShape::Sequence {
        if f.realized == NodeShape::Sequence {
            let pairing = sequence_pairing(
                f.pre_has_footnote,
                f.realized_has_paragraph,
                f.pre_len,
                f.realized_len,
                f.involves_context,
            );
            return AnnotateRoute::Sequence(pairing);
        }
        if f.realized == NodeShape::Paragraph {
            return AnnotateRoute::SequenceInParagraph;
        }
        return AnnotateRoute::SequenceAlone;
    }
    if f.pre == NodeShape::Styled && f.realized == NodeShape::Styled {
        return AnnotateRoute::Styled;
    }
    if f.pre == NodeShape::Paragraph && f.realized == NodeShape::Paragraph {
        return AnnotateRoute::Paragraph;
    }
    if f.recorded_context {
        return AnnotateRoute::RecordedContext;
    }
    if f.opaque_visual && f.realized_blank && !f.same_content {
        return AnnotateRoute::OpaqueVisualLeaf;
    }
    AnnotateRoute::Leaf
}

/// A child before realization as paragraph runs read it.
#[derive(Clone, Copy, Debug, PartialEq, Eq, Structural)]
pub struct RunChild {
    /// A paragraph break.
    pub parbreak: bool,
    /// Empty content.
    pub empty: bool,
    /// It is or holds a footnote.
    pub has_footnote: bool,
}

/// Some child at the positions is not empty.
pub open spec fn run_has_content(children: Seq<RunChild>, run: Seq<usize>) -> bool {
    exists|k: int| 0 <= k < run.len() && !children[run[k] as int].empty
}

/// The paragraph runs of the first `n` children: the finished runs and the
/// run being gathered. A paragraph break ends the run being gathered, which
/// is kept when some child of it is not empty.
pub open spec fn runs_state(children: Seq<RunChild>, n: nat) -> (Seq<Seq<usize>>, Seq<usize>)
    decreases n,
{
    if n == 0 || n > children.len() {
        (Seq::empty(), Seq::empty())
    } else {
        let (runs, current) = runs_state(children, (n - 1) as nat);
        if children[n - 1].parbreak {
            if run_has_content(children, current) {
                (runs.push(current), Seq::empty())
            } else {
                (runs, Seq::empty())
            }
        } else {
            (runs, current.push((n - 1) as usize))
        }
    }
}

/// The paragraph runs of the children, by position; the last run is kept
/// when some child of it is not empty.
pub open spec fn paragraph_runs_spec(children: Seq<RunChild>) -> Seq<Seq<usize>> {
    let (runs, current) = runs_state(children, children.len());
    if run_has_content(children, current) {
        runs.push(current)
    } else {
        runs
    }
}

fn has_content_exec(children: &[RunChild], run: &Vec<usize>) -> (b: bool)
    requires
        forall|k: int| 0 <= k < run@.len() ==> run@[k] < children@.len(),
    ensures
        b == run_has_content(children@, run@),
{
    let mut k: usize = 0;
    while k < run.len()
        invariant
            k <= run@.len(),
            forall|j: int| 0 <= j < run@.len() ==> run@[j] < children@.len(),
            forall|j: int| 0 <= j < k ==> children@[run@[j] as int].empty,
        decreases run@.len() - k,
    {
        if !children[run[k]].empty {
            return true;
        }
        k += 1;
    }
    false
}

/// The paragraph runs of the children; see [`paragraph_runs_spec`].
pub fn source_paragraph_runs(children: &[RunChild]) -> (runs: Vec<Vec<usize>>)
    ensures
        runs@.map_values(|r: Vec<usize>| r@) == paragraph_runs_spec(children@),
{
    let mut runs: Vec<Vec<usize>> = Vec::new();
    let mut current: Vec<usize> = Vec::new();
    let mut i: usize = 0;
    while i < children.len()
        invariant
            i <= children@.len(),
            runs_state(children@, i as nat) == (runs@.map_values(|r: Vec<usize>| r@), current@),
            forall|k: int| 0 <= k < current@.len() ==> current@[k] < i,
        decreases children@.len() - i,
    {
        if children[i].parbreak {
            let keep = has_content_exec(children, &current);
            if keep {
                let ghost before = runs@.map_values(|r: Vec<usize>| r@);
                let finished = current;
                runs.push(finished);
                assert(runs@.map_values(|r: Vec<usize>| r@) =~= before.push(finished@));
            }
            current = Vec::new();
        } else {
            current.push(i);
        }
        i += 1;
        assert(current@ =~= runs_state(children@, i as nat).1);
    }
    let keep = has_content_exec(children, &current);
    if keep {
        let ghost before = runs@.map_values(|r: Vec<usize>| r@);
        let finished = current;
        runs.push(finished);
        assert(runs@.map_values(|r: Vec<usize>| r@) =~= before.push(finished@));
    }
    runs
}

/// What a realized child of a footnote sequence is paired with.
#[derive(Clone, Copy, Debug, PartialEq, Eq, Structural)]
pub enum ParagraphPairing {
    /// The paragraph run at this index, which holds a footnote.
    FootnoteRun(usize),
    /// The paragraph run at this index, annotated as a sequence.
    Run(usize),
    /// Nothing: the realized child stands alone.
    Alone,
}

/// Some child of the run is or holds a footnote.
pub open spec fn run_has_footnote(children: Seq<RunChild>, run: Seq<usize>) -> bool {
    exists|k: int| 0 <= k < run.len() && children[run[k] as int].has_footnote
}

/// The pairing of the first `n` realized children: each realized paragraph
/// takes the next paragraph run while runs are left; other children stand
/// alone.
pub open spec fn paragraph_pairing_spec(
    children: Seq<RunChild>,
    runs: Seq<Seq<usize>>,
    realized_is_paragraph: Seq<bool>,
    n: nat,
) -> (Seq<ParagraphPairing>, nat)
    decreases n,
{
    if n == 0 || n > realized_is_paragraph.len() {
        (Seq::empty(), 0)
    } else {
        let (out, next) = paragraph_pairing_spec(children, runs, realized_is_paragraph, (n - 1) as nat);
        if realized_is_paragraph[n - 1] && next < runs.len() {
            let pairing = if run_has_footnote(children, runs[next as int]) {
                ParagraphPairing::FootnoteRun(next as usize)
            } else {
                ParagraphPairing::Run(next as usize)
            };
            (out.push(pairing), next + 1)
        } else {
            (out.push(ParagraphPairing::Alone), next)
        }
    }
}

fn has_footnote_exec(children: &[RunChild], run: &Vec<usize>) -> (b: bool)
    requires
        forall|k: int| 0 <= k < run@.len() ==> run@[k] < children@.len(),
    ensures
        b == run_has_footnote(children@, run@),
{
    let mut k: usize = 0;
    while k < run.len()
        invariant
            k <= run@.len(),
            forall|j: int| 0 <= j < run@.len() ==> run@[j] < children@.len(),
            forall|j: int| 0 <= j < k ==> !children@[run@[j] as int].has_footnote,
        decreases run@.len() - k,
    {
        if children[run[k]].has_footnote {
            return true;
        }
        k += 1;
    }
    false
}

/// Pairs the realized children of a footnote sequence with the paragraph
/// runs of the children before realization; see [`paragraph_pairing_spec`].
pub fn pair_with_footnote_paragraphs(
    children: &[RunChild],
    runs: &Vec<Vec<usize>>,
    realized_is_paragraph: &[bool],
) -> (pairs: Vec<ParagraphPairing>)
    requires
        forall|r: int, k: int|
            0 <= r < runs@.len() && 0 <= k < runs@[r]@.len() ==> #[trigger] runs@[r]@[k] < children@.len(),
    ensures
        pairs@ == paragraph_pairing_spec(
            children@,
            runs@.map_values(|r: Vec<usize>| r@),
            realized_is_paragraph@,
            realized_is_paragraph@.len(),
        ).0,
{
    let ghost rv = runs@.map_values(|r: Vec<usize>| r@);
    let mut out: Vec<ParagraphPairing> = Vec::new();
    let mut next: usize = 0;
    let mut i: usize = 0;
    while i < realized_is_paragraph.len()
        invariant
            i <= realized_is_paragraph@.len(),
            rv == runs@.map_values(|r: Vec<usize>| r@),
            forall|r: int, k: int|
                0 <= r < runs@.len() && 0 <= k < runs@[r]@.len() ==> #[trigger] runs@[r]@[k] < children@.len(),
            paragraph_pairing_spec(children@, rv, realized_is_paragraph@, i as nat) == (out@, next as nat),
            next <= i,
        decreases realized_is_paragraph@.len() - i,
    {
        if realized_is_paragraph[i] && next < runs.len() {
            let run = &runs[next];
            assert(rv[next as int] == run@);
            let footnote = has_footnote_exec(children, run);
            if footnote {
                out.push(ParagraphPairing::FootnoteRun(next));
            } else {
                out.push(ParagraphPairing::Run(next));
            }
            next += 1;
        } else {
            out.push(ParagraphPairing::Alone);
        }
        i += 1;
    }
    out
}

} // verus!
