//! Segmentation of a realized document into diffable blocks.
//!
//! The content is seen as a tree of nodes, each with the position of its
//! content in the caller's table: style wrappers (with whether they set page
//! styles), sequences, and leaves classified as space, inline or block-level
//! (paragraph breaks, headings, raw blocks, display equations and unknown
//! elements are block-level). The result is a plan: for each block, what it is
//! made of, the style wrappers whose other styles are applied to it (innermost
//! first), and the style wrappers whose page styles are in effect (outermost
//! first). The caller builds the block contents from the plan.
//!
//! Inline content accumulates into a paragraph; a block-level child ends the
//! paragraph and stands as a block of its own. Style wrappers are looked
//! through and their styles pushed down onto the blocks inside them.

use vstd::prelude::*;

verus! {

/// How a leaf of the content tree takes part in block segmentation.
#[derive(Clone, Copy, Debug, PartialEq, Eq, Structural)]
pub enum LeafClass {
    /// A space element: inline, but alone it makes no paragraph.
    Space,
    /// A known inline element.
    Inline,
    /// A block-level element.
    Block,
}

/// The content tree that block segmentation reads.
#[derive(Debug)]
pub enum BlockNode {
    Leaf { id: usize, class: LeafClass },
    Sequence { id: usize, children: Vec<BlockNode> },
    Styled { id: usize, page_updates: bool, child: Box<BlockNode> },
}

impl BlockNode {
    /// The position of the node's content in the caller's table.
    pub open spec fn node_id(self) -> usize {
        match self {
            BlockNode::Leaf { id, .. } => id,
            BlockNode::Sequence { id, .. } => id,
            BlockNode::Styled { id, .. } => id,
        }
    }

    /// The position of the node's content in the caller's table.
    pub fn id(&self) -> (id: usize)
        ensures
            id == self.node_id(),
    {
        match self {
            BlockNode::Leaf { id, .. } => *id,
            BlockNode::Sequence { id, .. } => *id,
            BlockNode::Styled { id, .. } => *id,
        }
    }
}

/// What a planned block is made of.
#[derive(Debug)]
pub enum BlockBase {
    /// A paragraph of the contents at these positions, in order.
    Paragraph(Vec<usize>),
    /// The content at this position made a paragraph.
    ParagraphOf(usize),
    /// The content at this position as it is.
    Node(usize),
}

/// A planned block as plain values.
pub enum BaseView {
    Paragraph(Seq<usize>),
    ParagraphOf(usize),
    Node(usize),
}

/// One block of the plan.
#[derive(Debug)]
pub struct PlannedBlock {
    pub base: BlockBase,
    /// Style wrappers whose non-page styles apply, innermost first.
    pub wraps: Vec<usize>,
    /// Style wrappers whose page styles are in effect, outermost first.
    pub page_env: Vec<usize>,
}

/// A planned block as plain values.
pub struct PlannedView {
    pub base: BaseView,
    pub wraps: Seq<usize>,
    pub page_env: Seq<usize>,
}

impl View for PlannedBlock {
    type V = PlannedView;

    open spec fn view(&self) -> PlannedView {
        PlannedView {
            base: match self.base {
                BlockBase::Paragraph(ids) => BaseView::Paragraph(ids@),
                BlockBase::ParagraphOf(id) => BaseView::ParagraphOf(id),
                BlockBase::Node(id) => BaseView::Node(id),
            },
            wraps: self.wraps@,
            page_env: self.page_env@,
        }
    }
}

/// The views of planned blocks.
pub open spec fn plan_views(blocks: Seq<PlannedBlock>) -> Seq<PlannedView> {
    blocks.map_values(|b: PlannedBlock| b@)
}

// ---------------------------------------------------------------------------
// Inline classification
// ---------------------------------------------------------------------------

/// A known inline node: an inline or space leaf, or a style wrapper around a
/// sequence of known inline nodes or around a known inline node. A bare
/// sequence is not.
pub open spec fn known_inline(node: BlockNode) -> bool
    decreases node, 0nat,
{
    match node {
        BlockNode::Leaf { class, .. } => class != LeafClass::Block,
        BlockNode::Sequence { .. } => false,
        BlockNode::Styled { child, .. } => match *child {
            BlockNode::Sequence { children, .. } => {
                proof {
                    assert(decreases_to!(node => child));
                }
                all_inline(children@, children@.len())
            },
            _ => known_inline(*child),
        },
    }
}

/// The first `n` nodes are all known inline.
pub open spec fn all_inline(nodes: Seq<BlockNode>, n: nat) -> bool
    decreases nodes, n,
{
    if n == 0 || n > nodes.len() {
        true
    } else {
        all_inline(nodes, (n - 1) as nat) && known_inline(nodes[n - 1])
    }
}

// ---------------------------------------------------------------------------
// The plan as a fold over the tree
// ---------------------------------------------------------------------------

/// The paragraph members gathered so far (position, whether it is a space
/// leaf) and the blocks planned so far.
pub type PlanState = (Seq<(usize, bool)>, Seq<PlannedView>);

/// The positions of paragraph members.
pub open spec fn member_ids(para: Seq<(usize, bool)>) -> Seq<usize> {
    para.map_values(|m: (usize, bool)| m.0)
}

/// Some member is not a space leaf.
pub open spec fn has_content(para: Seq<(usize, bool)>) -> bool {
    exists|k: int| 0 <= k < para.len() && !(#[trigger] para[k]).1
}

/// Ends the paragraph: it becomes a block when some member is not a space.
pub open spec fn flush_spec(st: PlanState, env: Seq<usize>) -> PlanState {
    if has_content(st.0) {
        (
            Seq::empty(),
            st.1.push(PlannedView { base: BaseView::Paragraph(member_ids(st.0)), wraps: Seq::empty(), page_env: env }),
        )
    } else {
        (Seq::empty(), st.1)
    }
}

/// A block of its own, after the paragraph is ended.
pub open spec fn push_block(st: PlanState, env: Seq<usize>, block: PlannedView) -> PlanState {
    let flushed = flush_spec(st, env);
    (flushed.0, flushed.1.push(block))
}

/// The blocks with the wrapper's styles applied last.
pub open spec fn wrapped(blocks: Seq<PlannedView>, id: usize) -> Seq<PlannedView> {
    blocks.map_values(|b: PlannedView| PlannedView { base: b.base, wraps: b.wraps.push(id), page_env: b.page_env })
}

/// The plan after one more child of a sequence.
pub open spec fn step_child(child: BlockNode, env: Seq<usize>, st: PlanState) -> PlanState
    decreases child, 0nat,
{
    match child {
        BlockNode::Styled { id, page_updates, child: inner } => {
            let child_env = env.push(id);
            match *inner {
                BlockNode::Sequence { id: inner_id, children } => {
                    proof {
                        assert(decreases_to!(child => inner));
                    }
                    if all_inline(children@, children@.len()) {
                        if page_updates {
                            push_block(st, env, PlannedView {
                                base: BaseView::ParagraphOf(inner_id),
                                wraps: seq![id],
                                page_env: child_env,
                            })
                        } else {
                            (st.0.push((id, false)), st.1)
                        }
                    } else {
                        let flushed = flush_spec(st, env);
                        (flushed.0, flushed.1 + wrapped(extract_spec(*inner, child_env), id))
                    }
                },
                _ => {
                    if !page_updates && known_inline(*inner) {
                        (st.0.push((id, false)), st.1)
                    } else {
                        push_block(st, env, PlannedView {
                            base: BaseView::Node(inner.node_id()),
                            wraps: seq![id],
                            page_env: child_env,
                        })
                    }
                },
            }
        },
        BlockNode::Sequence { id, children } => {
            if all_inline(children@, children@.len()) {
                (st.0.push((id, false)), st.1)
            } else {
                fold_children(children@, env, st, children@.len())
            }
        },
        BlockNode::Leaf { id, class } => {
            if class == LeafClass::Block {
                push_block(st, env, PlannedView { base: BaseView::Node(id), wraps: Seq::empty(), page_env: env })
            } else {
                (st.0.push((id, class == LeafClass::Space)), st.1)
            }
        },
    }
}

/// The plan after the first `n` children.
pub open spec fn fold_children(children: Seq<BlockNode>, env: Seq<usize>, st: PlanState, n: nat) -> PlanState
    decreases children, n,
{
    if n == 0 || n > children.len() {
        st
    } else {
        step_child(children[n - 1], env, fold_children(children, env, st, (n - 1) as nat))
    }
}

/// The blocks of a node under the page styles of `env`.
pub open spec fn extract_spec(node: BlockNode, env: Seq<usize>) -> Seq<PlannedView>
    decreases node, 0nat,
{
    match node {
        BlockNode::Sequence { children, .. } => {
            let st = fold_children(children@, env, (Seq::empty(), Seq::empty()), children@.len());
            flush_spec(st, env).1
        },
        BlockNode::Styled { id, child: inner, .. } => {
            let child_env = env.push(id);
            match *inner {
                BlockNode::Sequence { id: inner_id, children } => {
                    proof {
                        assert(decreases_to!(node => inner));
                    }
                    if all_inline(children@, children@.len()) {
                        seq![PlannedView { base: BaseView::ParagraphOf(inner_id), wraps: seq![id], page_env: child_env }]
                    } else {
                        wrapped(extract_spec(*inner, child_env), id)
                    }
                },
                _ => seq![PlannedView { base: BaseView::Node(inner.node_id()), wraps: seq![id], page_env: child_env }],
            }
        },
        BlockNode::Leaf { id, .. } => seq![PlannedView { base: BaseView::Node(id), wraps: Seq::empty(), page_env: env }],
    }
}

/// The blocks of a whole document.
pub open spec fn blocks_spec(node: BlockNode) -> Seq<PlannedView> {
    extract_spec(node, Seq::empty())
}


// ---------------------------------------------------------------------------
// Nested sequences are transparent
// ---------------------------------------------------------------------------

/// Folding the first `n` children reads only those children.
proof fn lemma_fold_prefix(s: Seq<BlockNode>, t: Seq<BlockNode>, env: Seq<usize>, st: PlanState, n: nat)
    requires
        n <= s.len(),
        n <= t.len(),
        forall|k: int| 0 <= k < n ==> s[k] == t[k],
    ensures
        fold_children(s, env, st, n) == fold_children(t, env, st, n),
    decreases n,
{
    if n > 0 {
        lemma_fold_prefix(s, t, env, st, (n - 1) as nat);
        assert(s[n - 1] == t[n - 1]);
    }
}

/// Folding a concatenation folds the first part, then the second.
proof fn lemma_fold_concat(a: Seq<BlockNode>, b: Seq<BlockNode>, env: Seq<usize>, st: PlanState, k: nat)
    requires
        k <= b.len(),
    ensures
        fold_children(a + b, env, st, a.len() + k) == fold_children(b, env, fold_children(a, env, st, a.len()), k),
    decreases k,
{
    if k == 0 {
        lemma_fold_prefix(a + b, a, env, st, a.len());
    } else {
        lemma_fold_concat(a, b, env, st, (k - 1) as nat);
        assert((a + b)[a.len() + k - 1] == b[k - 1]);
    }
}

/// A sequence nested in a sequence, when it is not all inline, is looked
/// through: the blocks of a sequence are those of the same sequence with the
/// nested sequence's children spliced in its place. So the nested sequence
/// is never a block of its own, and its children share the paragraph around
/// it.
pub proof fn law_nested_sequence_is_spliced(
    outer: BlockNode,
    flat: BlockNode,
    env: Seq<usize>,
    i: int,
)
    requires
        outer is Sequence,
        flat is Sequence,
        0 <= i < outer->Sequence_children@.len(),
        outer->Sequence_children@[i] is Sequence,
        !all_inline(
            outer->Sequence_children@[i]->Sequence_children@,
            outer->Sequence_children@[i]->Sequence_children@.len(),
        ),
        flat->Sequence_children@ == outer->Sequence_children@.take(i)
            + outer->Sequence_children@[i]->Sequence_children@
            + outer->Sequence_children@.skip(i + 1),
    ensures
        extract_spec(outer, env) == extract_spec(flat, env),
{
    let cs = outer->Sequence_children@;
    let inner = cs[i]->Sequence_children@;
    let pre = cs.take(i);
    let post = cs.skip(i + 1);
    let empty: PlanState = (Seq::empty(), Seq::empty());
    let pre_x = pre.push(cs[i]);
    assert(cs =~= pre_x + post);
    lemma_fold_concat(pre_x, post, env, empty, post.len());
    assert(pre_x =~= pre + seq![cs[i]]);
    lemma_fold_concat(pre, seq![cs[i]], env, empty, 1);
    let after_pre = fold_children(pre, env, empty, pre.len());
    let one = seq![cs[i]];
    assert(one[0] == cs[i]);
    assert(fold_children(one, env, after_pre, 0) == after_pre);
    assert(fold_children(one, env, after_pre, 1) == step_child(one[0], env, fold_children(one, env, after_pre, 0)));
    assert(step_child(cs[i], env, after_pre) == fold_children(inner, env, after_pre, inner.len()));
    let fc = flat->Sequence_children@;
    assert(fc =~= (pre + inner) + post);
    lemma_fold_concat(pre + inner, post, env, empty, post.len());
    lemma_fold_concat(pre, inner, env, empty, inner.len());
}

// ---------------------------------------------------------------------------
// Executable plan
// ---------------------------------------------------------------------------

proof fn lemma_all_inline(nodes: Seq<BlockNode>, n: nat)
    requires
        n <= nodes.len(),
    ensures
        all_inline(nodes, n) <==> forall|k: int| 0 <= k < n ==> known_inline(#[trigger] nodes[k]),
    decreases n,
{
    if n > 0 {
        lemma_all_inline(nodes, (n - 1) as nat);
    }
}

/// Whether the node is known inline; see [`known_inline`].
pub fn is_known_inline(node: &BlockNode) -> (b: bool)
    ensures
        b == known_inline(*node),
    decreases node,
{
    match node {
        BlockNode::Leaf { class, .. } => *class != LeafClass::Block,
        BlockNode::Sequence { .. } => false,
        BlockNode::Styled { child, .. } => match &**child {
            BlockNode::Sequence { children, .. } => is_inline_sequence(children),
            other => is_known_inline(other),
        },
    }
}

/// Whether every node of a sequence is known inline.
pub fn is_inline_sequence(nodes: &Vec<BlockNode>) -> (b: bool)
    ensures
        b == all_inline(nodes@, nodes@.len()),
    decreases nodes,
{
    let mut i: usize = 0;
    while i < nodes.len()
        invariant
            i <= nodes@.len(),
            all_inline(nodes@, i as nat),
        decreases nodes@.len() - i,
    {
        assert(decreases_to!(*nodes => nodes@));
        assert(decreases_to!(nodes@ => nodes@[i as int]));
        if !is_known_inline(&nodes[i]) {
            proof {
                lemma_all_inline(nodes@, nodes@.len());
            }
            return false;
        }
        i += 1;
    }
    true
}

fn copy_ids(ids: &Vec<usize>) -> (copy: Vec<usize>)
    ensures
        copy@ == ids@,
{
    let mut copy: Vec<usize> = Vec::new();
    let mut i: usize = 0;
    while i < ids.len()
        invariant
            i <= ids@.len(),
            copy@ == ids@.subrange(0, i as int),
        decreases ids@.len() - i,
    {
        copy.push(ids[i]);
        i += 1;
        assert(copy@ =~= ids@.subrange(0, i as int));
    }
    assert(ids@.subrange(0, ids@.len() as int) =~= ids@);
    copy
}

fn with_id(ids: &Vec<usize>, id: usize) -> (out: Vec<usize>)
    ensures
        out@ == ids@.push(id),
{
    let mut out = copy_ids(ids);
    out.push(id);
    out
}

fn one_id(id: usize) -> (out: Vec<usize>)
    ensures
        out@ == seq![id],
{
    let mut out: Vec<usize> = Vec::new();
    out.push(id);
    assert(out@ =~= seq![id]);
    out
}

/// Ends the paragraph; see [`flush_spec`].
fn flush_para(para: &mut Vec<(usize, bool)>, blocks: &mut Vec<PlannedBlock>, env: &Vec<usize>)
    ensures
        (final(para)@, plan_views(final(blocks)@)) == flush_spec((old(para)@, plan_views(old(blocks)@)), env@),
{
    let mut ids: Vec<usize> = Vec::new();
    let mut content = false;
    let mut i: usize = 0;
    while i < para.len()
        invariant
            i <= para@.len(),
            ids@ == member_ids(para@.subrange(0, i as int)),
            content == exists|k: int| 0 <= k < i && !(#[trigger] para@[k]).1,
        decreases para@.len() - i,
    {
        let (id, space) = para[i];
        ids.push(id);
        if !space {
            content = true;
        }
        i += 1;
        assert(ids@ =~= member_ids(para@.subrange(0, i as int)));
    }
    assert(para@.subrange(0, para@.len() as int) =~= para@);
    if content {
        let ghost before = plan_views(blocks@);
        let block = PlannedBlock { base: BlockBase::Paragraph(ids), wraps: Vec::new(), page_env: copy_ids(env) };
        blocks.push(block);
        assert(plan_views(blocks@) =~= before.push(block@));
        assert(block@.wraps =~= Seq::<usize>::empty());
    }
    *para = Vec::new();
    assert(para@ =~= Seq::<(usize, bool)>::empty());
}

fn push_planned(para: &mut Vec<(usize, bool)>, blocks: &mut Vec<PlannedBlock>, env: &Vec<usize>, block: PlannedBlock)
    ensures
        (final(para)@, plan_views(final(blocks)@)) == push_block((old(para)@, plan_views(old(blocks)@)), env@, block@),
{
    flush_para(para, blocks, env);
    let ghost before = plan_views(blocks@);
    blocks.push(block);
    assert(plan_views(blocks@) =~= before.push(block@));
}

/// Applies a wrapper's styles last to each block; see [`wrapped`].
fn wrap_blocks(blocks: Vec<PlannedBlock>, id: usize) -> (out: Vec<PlannedBlock>)
    ensures
        plan_views(out@) == wrapped(plan_views(blocks@), id),
{
    let ghost all = plan_views(blocks@);
    let mut rest = blocks;
    let mut out: Vec<PlannedBlock> = Vec::new();
    while rest.len() > 0
        invariant
            plan_views(out@) + wrapped(plan_views(rest@), id) == wrapped(all, id),
        decreases rest@.len(),
    {
        let ghost r = rest@;
        let mut b = rest.remove(0);
        assert(b == r[0]);
        assert(rest@ =~= r.drop_first());
        let ghost bv = b@;
        b.wraps.push(id);
        let ghost before = plan_views(out@);
        out.push(b);
        assert(plan_views(out@) =~= before.push(PlannedView { base: bv.base, wraps: bv.wraps.push(id), page_env: bv.page_env }));
        assert(wrapped(plan_views(r), id) =~= seq![PlannedView { base: bv.base, wraps: bv.wraps.push(id), page_env: bv.page_env }]
            + wrapped(plan_views(rest@), id));
    }
    assert(wrapped(plan_views(rest@), id) =~= Seq::<PlannedView>::empty());
    assert(plan_views(out@) =~= wrapped(all, id));
    out
}

fn append_blocks(blocks: &mut Vec<PlannedBlock>, more: Vec<PlannedBlock>)
    ensures
        plan_views(final(blocks)@) == plan_views(old(blocks)@) + plan_views(more@),
{
    let mut more = more;
    let ghost m = more@;
    blocks.append(&mut more);
    assert(plan_views(final(blocks)@) =~= plan_views(old(blocks)@) + plan_views(m));
}

/// Plans one more child of a sequence; see [`step_child`].
fn plan_child(child: &BlockNode, env: &Vec<usize>, para: &mut Vec<(usize, bool)>, blocks: &mut Vec<PlannedBlock>)
    ensures
        (final(para)@, plan_views(final(blocks)@)) == step_child(*child, env@, (old(para)@, plan_views(old(blocks)@))),
    decreases child, 0nat,
{
    match child {
        BlockNode::Styled { id, page_updates, child: inner } => {
            let child_env = with_id(env, *id);
            match &**inner {
                BlockNode::Sequence { id: inner_id, children } => {
                    if is_inline_sequence(children) {
                        if *page_updates {
                            let block = PlannedBlock {
                                base: BlockBase::ParagraphOf(*inner_id),
                                wraps: one_id(*id),
                                page_env: child_env,
                            };
                            push_planned(para, blocks, env, block);
                        } else {
                            para.push((*id, false));
                        }
                    } else {
                        flush_para(para, blocks, env);
                        let extracted = extract_planned(&**inner, child_env);
                        let extracted = wrap_blocks(extracted, *id);
                        append_blocks(blocks, extracted);
                    }
                },
                other => {
                    if !*page_updates && is_known_inline(other) {
                        para.push((*id, false));
                    } else {
                        let block = PlannedBlock {
                            base: BlockBase::Node(other.id()),
                            wraps: one_id(*id),
                            page_env: child_env,
                        };
                        push_planned(para, blocks, env, block);
                    }
                },
            }
        },
        BlockNode::Sequence { id, children } => {
            if is_inline_sequence(children) {
                para.push((*id, false));
            } else {
                plan_children(children, env, para, blocks);
            }
        },
        BlockNode::Leaf { id, class } => {
            if *class == LeafClass::Block {
                let block = PlannedBlock { base: BlockBase::Node(*id), wraps: Vec::new(), page_env: copy_ids(env) };
                assert(block@.wraps =~= Seq::<usize>::empty());
                push_planned(para, blocks, env, block);
            } else {
                para.push((*id, *class == LeafClass::Space));
            }
        },
    }
}

/// Plans the children of a sequence in order; see [`fold_children`].
fn plan_children(children: &Vec<BlockNode>, env: &Vec<usize>, para: &mut Vec<(usize, bool)>, blocks: &mut Vec<PlannedBlock>)
    ensures
        (final(para)@, plan_views(final(blocks)@)) == fold_children(
            children@,
            env@,
            (old(para)@, plan_views(old(blocks)@)),
            children@.len(),
        ),
    decreases children, 0nat,
{
    let ghost start = (para@, plan_views(blocks@));
    let mut i: usize = 0;
    while i < children.len()
        invariant
            i <= children@.len(),
            (para@, plan_views(blocks@)) == fold_children(children@, env@, start, i as nat),
        decreases children@.len() - i,
    {
        assert(decreases_to!(*children => children@));
        assert(decreases_to!(children@ => children@[i as int]));
        plan_child(&children[i], env, para, blocks);
        i += 1;
    }
}

/// Plans the blocks of a node; see [`extract_spec`].
pub fn extract_planned(node: &BlockNode, env: Vec<usize>) -> (blocks: Vec<PlannedBlock>)
    ensures
        plan_views(blocks@) == extract_spec(*node, env@),
    decreases node, 0nat,
{
    match node {
        BlockNode::Sequence { children, .. } => {
            let mut para: Vec<(usize, bool)> = Vec::new();
            let mut blocks: Vec<PlannedBlock> = Vec::new();
            assert(plan_views(blocks@) =~= Seq::<PlannedView>::empty());
            plan_children(children, &env, &mut para, &mut blocks);
            flush_para(&mut para, &mut blocks, &env);
            blocks
        },
        BlockNode::Styled { id, child: inner, .. } => {
            let child_env = with_id(&env, *id);
            match &**inner {
                BlockNode::Sequence { id: inner_id, children } => {
                    if is_inline_sequence(children) {
                        let mut blocks: Vec<PlannedBlock> = Vec::new();
                        let block = PlannedBlock {
                            base: BlockBase::ParagraphOf(*inner_id),
                            wraps: one_id(*id),
                            page_env: child_env,
                        };
                        blocks.push(block);
                        assert(plan_views(blocks@) =~= seq![block@]);
                        blocks
                    } else {
                        let extracted = extract_planned(&**inner, child_env);
                        wrap_blocks(extracted, *id)
                    }
                },
                other => {
                    let mut blocks: Vec<PlannedBlock> = Vec::new();
                    let block = PlannedBlock { base: BlockBase::Node(other.id()), wraps: one_id(*id), page_env: child_env };
                    blocks.push(block);
                    assert(plan_views(blocks@) =~= seq![block@]);
                    blocks
                },
            }
        },
        BlockNode::Leaf { id, .. } => {
            let mut blocks: Vec<PlannedBlock> = Vec::new();
            let block = PlannedBlock { base: BlockBase::Node(*id), wraps: Vec::new(), page_env: env };
            assert(block@.wraps =~= Seq::<usize>::empty());
            blocks.push(block);
            assert(plan_views(blocks@) =~= seq![block@]);
            blocks
        },
    }
}

/// Plans the blocks of a whole document; see [`blocks_spec`].
pub fn extract_blocks(content: &BlockNode) -> (blocks: Vec<PlannedBlock>)
    ensures
        plan_views(blocks@) == blocks_spec(*content),
{
    let env: Vec<usize> = Vec::new();
    assert(env@ =~= Seq::<usize>::empty());
    extract_planned(content, env)
}

} // verus!
