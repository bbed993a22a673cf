//! Block-level diff: a Myers diff over block identities, then the pairing of
//! deleted and inserted blocks inside each edit zone by text similarity.
//!
//! A block carries what the diff reads of its content (an identity key and
//! its plain text) and the page styles active at its position.

use vstd::multiset::Multiset;
use vstd::prelude::*;

use crate::edit_script::{
    key_views, keyed_myers_diff, keyed_myers_script, lemma_myers_covers_ends, lemma_myers_in_bounds,
    myers_covers, myers_op_in_bounds, identity_script, lcs_len, myers_equal_total, myers_equal_runs_match_keys,
    myers_run_matches, DiffKey, MyersOp,
};
use crate::similarity::{lemma_similarity_den_positive, similarity, similarity_spec, text_fits, Similarity};

verus! {

// ---------------------------------------------------------------------------
// Blocks
// ---------------------------------------------------------------------------

/// What the block diff reads of a block's content.
#[derive(Debug)]
pub struct BlockContent {
    /// The content's identity: two blocks are the same exactly when their
    /// keys are equal.
    pub key: String,
    /// The content's plain text, which similarity compares.
    pub text: String,
}

impl Clone for BlockContent {
    fn clone(&self) -> (copy: Self)
        ensures
            copy == *self,
    {
        BlockContent { key: self.key.clone(), text: self.text.clone() }
    }
}

impl DiffKey for BlockContent {
    open spec fn key_view(&self) -> (Seq<char>, Seq<char>) {
        (self.key@, Seq::empty())
    }

    fn same_key(&self, other: &Self) -> (same: bool) {
        self.key == other.key
    }
}

/// A block-level unit of content together with the page styles active at
/// its position.
///
/// `page_styles` is the canonical text of the page styles; it is empty when
/// no page style is set.
#[derive(Debug)]
pub struct DiffBlock {
    pub content: BlockContent,
    pub page_styles: String,
}

impl Clone for DiffBlock {
    fn clone(&self) -> (copy: Self)
        ensures
            copy == *self,
    {
        DiffBlock { content: self.content.clone(), page_styles: self.page_styles.clone() }
    }
}

impl DiffKey for DiffBlock {
    open spec fn key_view(&self) -> (Seq<char>, Seq<char>) {
        (self.content.key@, Seq::empty())
    }

    fn same_key(&self, other: &Self) -> (same: bool) {
        self.content.key == other.content.key
    }
}

/// A block as plain values.
pub struct BlockView {
    pub key: Seq<char>,
    pub text: Seq<char>,
    pub page_styles: Seq<char>,
}

impl View for DiffBlock {
    type V = BlockView;

    open spec fn view(&self) -> BlockView {
        BlockView { key: self.content.key@, text: self.content.text@, page_styles: self.page_styles@ }
    }
}

/// The views of a sequence of blocks.
pub open spec fn block_views(blocks: Seq<DiffBlock>) -> Seq<BlockView> {
    blocks.map_values(|b: DiffBlock| b@)
}

/// Where the base content of a block edit comes from.
#[derive(Clone, Copy, Debug, PartialEq, Eq, Structural)]
pub enum BlockBaseProvenance {
    LiveNew,
    InertOld,
    MixedInertOldLiveNew,
    Layout,
}

// ---------------------------------------------------------------------------
// Block operations
// ---------------------------------------------------------------------------

/// A block-level diff operation.
///
/// `Equal` and `Replace` carry both the old and the new block.
#[derive(Debug)]
pub enum BlockOp {
    Equal(DiffBlock, DiffBlock),
    Delete(DiffBlock),
    Insert(DiffBlock),
    /// A deleted block paired with an inserted one whose text similarity
    /// reaches the threshold.
    Replace(DiffBlock, DiffBlock),
}

impl Clone for BlockOp {
    fn clone(&self) -> (copy: Self)
        ensures
            copy == *self,
    {
        match self {
            BlockOp::Equal(a, b) => BlockOp::Equal(a.clone(), b.clone()),
            BlockOp::Delete(a) => BlockOp::Delete(a.clone()),
            BlockOp::Insert(b) => BlockOp::Insert(b.clone()),
            BlockOp::Replace(a, b) => BlockOp::Replace(a.clone(), b.clone()),
        }
    }
}

/// A block operation as plain values.
pub enum BlockOpView {
    Equal(BlockView, BlockView),
    Delete(BlockView),
    Insert(BlockView),
    Replace(BlockView, BlockView),
}

impl View for BlockOp {
    type V = BlockOpView;

    open spec fn view(&self) -> BlockOpView {
        match self {
            BlockOp::Equal(a, b) => BlockOpView::Equal(a@, b@),
            BlockOp::Delete(a) => BlockOpView::Delete(a@),
            BlockOp::Insert(b) => BlockOpView::Insert(b@),
            BlockOp::Replace(a, b) => BlockOpView::Replace(a@, b@),
        }
    }
}

/// The views of a sequence of block operations.
pub open spec fn block_op_views(ops: Seq<BlockOp>) -> Seq<BlockOpView> {
    ops.map_values(|op: BlockOp| op@)
}

// ---------------------------------------------------------------------------
// Raw block diff
// ---------------------------------------------------------------------------

/// The block operations that one Myers operation stands for: runs become one
/// operation per block, a replacement its deletes followed by its inserts.
pub open spec fn block_step(old: Seq<BlockView>, new: Seq<BlockView>, op: MyersOp) -> Seq<BlockOpView> {
    match op {
        MyersOp::Equal { old_index, new_index, len } => Seq::new(
            len as nat,
            |d: int| BlockOpView::Equal(old[old_index + d], new[new_index + d]),
        ),
        MyersOp::Delete { old_index, old_len, .. } => Seq::new(
            old_len as nat,
            |d: int| BlockOpView::Delete(old[old_index + d]),
        ),
        MyersOp::Insert { new_index, new_len, .. } => Seq::new(
            new_len as nat,
            |d: int| BlockOpView::Insert(new[new_index + d]),
        ),
        MyersOp::Replace { old_index, old_len, new_index, new_len } => Seq::new(
            old_len as nat,
            |d: int| BlockOpView::Delete(old[old_index + d]),
        ) + Seq::new(new_len as nat, |d: int| BlockOpView::Insert(new[new_index + d])),
    }
}

/// The block operations of a Myers script.
pub open spec fn block_ops(old: Seq<BlockView>, new: Seq<BlockView>, script: Seq<MyersOp>) -> Seq<BlockOpView>
    decreases script.len(),
{
    if script.len() == 0 {
        Seq::empty()
    } else {
        block_step(old, new, script[0]) + block_ops(old, new, script.drop_first())
    }
}

/// The result of [`diff_block_units_raw`]: the Myers diff of the block keys,
/// one operation per block.
pub open spec fn diff_blocks_spec(old: Seq<DiffBlock>, new: Seq<DiffBlock>) -> Seq<BlockOpView> {
    block_ops(block_views(old), block_views(new), keyed_myers_script(key_views(old), key_views(new)))
}

/// The number of blocks kept as equal.
pub open spec fn equal_count(ops: Seq<BlockOpView>) -> nat
    decreases ops.len(),
{
    if ops.len() == 0 {
        0
    } else {
        let here: nat = if ops[0] is Equal { 1 } else { 0 };
        here + equal_count(ops.drop_first())
    }
}

proof fn lemma_equal_count_append(a: Seq<BlockOpView>, b: Seq<BlockOpView>)
    ensures
        equal_count(a + b) == equal_count(a) + equal_count(b),
    decreases a.len(),
{
    if a.len() > 0 {
        assert((a + b).drop_first() =~= a.drop_first() + b);
        lemma_equal_count_append(a.drop_first(), b);
    }
}

proof fn lemma_equal_count_uniform(ops: Seq<BlockOpView>, equal: bool)
    requires
        forall|k: int| 0 <= k < ops.len() ==> (#[trigger] ops[k] is Equal) == equal,
    ensures
        equal_count(ops) == if equal { ops.len() } else { 0 },
    decreases ops.len(),
{
    if ops.len() > 0 {
        assert forall|k: int| 0 <= k < ops.drop_first().len() implies (#[trigger] ops.drop_first()[k] is Equal) == equal by {
            assert(ops.drop_first()[k] == ops[k + 1]);
        }
        lemma_equal_count_uniform(ops.drop_first(), equal);
    }
}

/// The raw block diff keeps as many blocks as the Myers script keeps.
proof fn lemma_block_ops_equal_count(old: Seq<BlockView>, new: Seq<BlockView>, script: Seq<MyersOp>)
    ensures
        equal_count(block_ops(old, new, script)) == myers_equal_total(script),
    decreases script.len(),
{
    if script.len() > 0 {
        lemma_block_ops_equal_count(old, new, script.drop_first());
        let step = block_step(old, new, script[0]);
        lemma_equal_count_append(step, block_ops(old, new, script.drop_first()));
        match script[0] {
            MyersOp::Equal { .. } => {
                lemma_equal_count_uniform(step, true);
            },
            MyersOp::Replace { old_index, old_len, new_index, new_len } => {
                let d = Seq::new(old_len as nat, |k: int| BlockOpView::Delete(old[old_index + k]));
                let i = Seq::new(new_len as nat, |k: int| BlockOpView::Insert(new[new_index + k]));
                lemma_equal_count_uniform(d, false);
                lemma_equal_count_uniform(i, false);
                lemma_equal_count_append(d, i);
            },
            _ => {
                lemma_equal_count_uniform(step, false);
            },
        }
    }
}

/// A raw block diff: no replacement, and every equal operation pairs two
/// blocks with the same key.
pub open spec fn raw_ops_wf(ops: Seq<BlockOpView>) -> bool {
    forall|k: int| 0 <= k < ops.len() ==> match #[trigger] ops[k] {
        BlockOpView::Replace(_, _) => false,
        BlockOpView::Equal(a, b) => a.key == b.key,
        _ => true,
    }
}

proof fn lemma_raw_ops_wf_append(a: Seq<BlockOpView>, b: Seq<BlockOpView>)
    requires
        raw_ops_wf(a),
        raw_ops_wf(b),
    ensures
        raw_ops_wf(a + b),
{
    assert forall|k: int| 0 <= k < (a + b).len() implies match #[trigger] (a + b)[k] {
        BlockOpView::Replace(_, _) => false,
        BlockOpView::Equal(x, y) => x.key == y.key,
        _ => true,
    } by {
        if k < a.len() {
            assert((a + b)[k] == a[k]);
        } else {
            assert((a + b)[k] == b[k - a.len()]);
        }
    }
}

/// The raw block operations of a script whose equal runs pair equal keys
/// hold no replacement and pair equal keys.
proof fn lemma_block_ops_wf<K: DiffKey>(blocks_old: Seq<K>, blocks_new: Seq<K>, old: Seq<BlockView>, new: Seq<BlockView>, script: Seq<MyersOp>)
    requires
        forall|d: int| 0 <= d < old.len() ==> #[trigger] old[d].key == key_views(blocks_old)[d].0,
        forall|d: int| 0 <= d < new.len() ==> #[trigger] new[d].key == key_views(blocks_new)[d].0,
        old.len() == blocks_old.len(),
        new.len() == blocks_new.len(),
        myers_equal_runs_match_keys(key_views(blocks_old), key_views(blocks_new), script),
        forall|m: int| 0 <= m < script.len() ==> myers_op_in_bounds(#[trigger] script[m], old.len() as int, new.len() as int),
    ensures
        raw_ops_wf(block_ops(old, new, script)),
    decreases script.len(),
{
    if script.len() > 0 {
        let rest = script.drop_first();
        assert forall|k: int| 0 <= k < rest.len() implies myers_run_matches(key_views(blocks_old), key_views(blocks_new), #[trigger] rest[k]) by {
            assert(rest[k] == script[k + 1]);
        }
        assert forall|m: int| 0 <= m < rest.len() implies myers_op_in_bounds(#[trigger] rest[m], old.len() as int, new.len() as int) by {
            assert(rest[m] == script[m + 1]);
        }
        lemma_block_ops_wf(blocks_old, blocks_new, old, new, rest);
        let step = block_step(old, new, script[0]);
        assert(myers_run_matches(key_views(blocks_old), key_views(blocks_new), script[0]));
        assert(myers_op_in_bounds(script[0], old.len() as int, new.len() as int));
        assert(raw_ops_wf(step)) by {
            match script[0] {
                MyersOp::Equal { old_index, new_index, len } => {
                    assert forall|k: int| 0 <= k < step.len() implies match #[trigger] step[k] {
                        BlockOpView::Replace(_, _) => false,
                        BlockOpView::Equal(x, y) => x.key == y.key,
                        _ => true,
                    } by {
                        assert(key_views(blocks_old)[old_index + k] == key_views(blocks_new)[new_index + (old_index + k - old_index)]);
                        assert(old[old_index + k].key == key_views(blocks_old)[old_index + k].0);
                        assert(new[new_index + k].key == key_views(blocks_new)[new_index + k].0);
                    }
                },
                MyersOp::Replace { old_index, old_len, new_index, new_len } => {
                    let d = Seq::new(old_len as nat, |k: int| BlockOpView::Delete(old[old_index + k]));
                    let i = Seq::new(new_len as nat, |k: int| BlockOpView::Insert(new[new_index + k]));
                    assert(raw_ops_wf(d));
                    assert(raw_ops_wf(i));
                    lemma_raw_ops_wf_append(d, i);
                },
                _ => {},
            }
        }
        lemma_raw_ops_wf_append(step, block_ops(old, new, rest));
    }
}

/// Every new block paired, as equal, with the old block at its position.
pub open spec fn all_equal_ops(old: Seq<BlockView>, new: Seq<BlockView>) -> Seq<BlockOpView> {
    Seq::new(new.len(), |d: int| BlockOpView::Equal(old[d], new[d]))
}

/// The block operations of the script of a sequence against an equal one.
proof fn lemma_block_ops_identity(old: Seq<BlockView>, new: Seq<BlockView>)
    requires
        old.len() == new.len(),
        new.len() <= usize::MAX,
    ensures
        block_ops(old, new, identity_script(new.len())) == all_equal_ops(old, new),
{
    let script = identity_script(new.len());
    if new.len() > 0 {
        assert(script.drop_first() =~= Seq::<MyersOp>::empty());
        assert(block_ops(old, new, script.drop_first()) =~= Seq::<BlockOpView>::empty());
        assert(block_step(old, new, script[0]) =~= all_equal_ops(old, new));
        assert(block_ops(old, new, script) =~= all_equal_ops(old, new));
    } else {
        assert(block_ops(old, new, script) =~= all_equal_ops(old, new));
    }
}

fn push_equal_run(
    out: &mut Vec<BlockOp>,
    old_blocks: &[DiffBlock],
    new_blocks: &[DiffBlock],
    old_index: usize,
    new_index: usize,
    len: usize,
)
    requires
        old_index + len <= old_blocks@.len(),
        new_index + len <= new_blocks@.len(),
    ensures
        block_op_views(final(out)@) == block_op_views(old(out)@) + block_step(
            block_views(old_blocks@),
            block_views(new_blocks@),
            MyersOp::Equal { old_index, new_index, len },
        ),
{
    let ghost start = block_op_views(out@);
    let n_old = old_blocks.len();
    let n_new = new_blocks.len();
    let mut i: usize = 0;
    while i < len
        invariant
            n_old == old_blocks@.len(),
            n_new == new_blocks@.len(),
            old_index + len <= old_blocks@.len(),
            new_index + len <= new_blocks@.len(),
            i <= len,
            block_op_views(out@) == start + Seq::new(
                i as nat,
                |d: int| BlockOpView::Equal(block_views(old_blocks@)[old_index + d], block_views(new_blocks@)[new_index + d]),
            ),
        decreases len - i,
    {
        let op = BlockOp::Equal(old_blocks[old_index + i].clone(), new_blocks[new_index + i].clone());
        let ghost prev = out@;
        out.push(op);
        assert(block_op_views(out@) =~= block_op_views(prev).push(op@));
        assert(op@ == BlockOpView::Equal(block_views(old_blocks@)[old_index + i], block_views(new_blocks@)[new_index + i]));
        i += 1;
        assert(block_op_views(out@) =~= start + Seq::new(
            i as nat,
            |d: int| BlockOpView::Equal(block_views(old_blocks@)[old_index + d], block_views(new_blocks@)[new_index + d]),
        ));
    }
}

fn push_deletes(out: &mut Vec<BlockOp>, old_blocks: &[DiffBlock], old_index: usize, old_len: usize)
    requires
        old_index + old_len <= old_blocks@.len(),
    ensures
        block_op_views(final(out)@) == block_op_views(old(out)@) + Seq::new(
            old_len as nat,
            |d: int| BlockOpView::Delete(block_views(old_blocks@)[old_index + d]),
        ),
{
    let ghost start = block_op_views(out@);
    let n_old = old_blocks.len();
    let mut i: usize = 0;
    while i < old_len
        invariant
            n_old == old_blocks@.len(),
            old_index + old_len <= old_blocks@.len(),
            i <= old_len,
            block_op_views(out@) == start + Seq::new(
                i as nat,
                |d: int| BlockOpView::Delete(block_views(old_blocks@)[old_index + d]),
            ),
        decreases old_len - i,
    {
        let op = BlockOp::Delete(old_blocks[old_index + i].clone());
        let ghost prev = out@;
        out.push(op);
        assert(block_op_views(out@) =~= block_op_views(prev).push(op@));
        assert(op@ == BlockOpView::Delete(block_views(old_blocks@)[old_index + i]));
        i += 1;
        assert(block_op_views(out@) =~= start + Seq::new(
            i as nat,
            |d: int| BlockOpView::Delete(block_views(old_blocks@)[old_index + d]),
        ));
    }
}

fn push_inserts(out: &mut Vec<BlockOp>, new_blocks: &[DiffBlock], new_index: usize, new_len: usize)
    requires
        new_index + new_len <= new_blocks@.len(),
    ensures
        block_op_views(final(out)@) == block_op_views(old(out)@) + Seq::new(
            new_len as nat,
            |d: int| BlockOpView::Insert(block_views(new_blocks@)[new_index + d]),
        ),
{
    let ghost start = block_op_views(out@);
    let n_new = new_blocks.len();
    let mut i: usize = 0;
    while i < new_len
        invariant
            n_new == new_blocks@.len(),
            new_index + new_len <= new_blocks@.len(),
            i <= new_len,
            block_op_views(out@) == start + Seq::new(
                i as nat,
                |d: int| BlockOpView::Insert(block_views(new_blocks@)[new_index + d]),
            ),
        decreases new_len - i,
    {
        let op = BlockOp::Insert(new_blocks[new_index + i].clone());
        let ghost prev = out@;
        out.push(op);
        assert(block_op_views(out@) =~= block_op_views(prev).push(op@));
        assert(op@ == BlockOpView::Insert(block_views(new_blocks@)[new_index + i]));
        i += 1;
        assert(block_op_views(out@) =~= start + Seq::new(
            i as nat,
            |d: int| BlockOpView::Insert(block_views(new_blocks@)[new_index + d]),
        ));
    }
}

/// Diffs two block sequences with Myers over their content keys: one
/// operation per block, a replacement split into its deletes and inserts.
pub fn diff_block_units_raw(old: &[DiffBlock], new: &[DiffBlock]) -> (ops: Vec<BlockOp>)
    requires
        old@.len() + new@.len() <= usize::MAX,
    ensures
        block_op_views(ops@) == diff_blocks_spec(old@, new@),
        old_side(block_op_views(ops@)) == block_views(old@),
        new_side(block_op_views(ops@)) == block_views(new@),
        key_views(old@) == key_views(new@) ==> block_op_views(ops@) == all_equal_ops(
            block_views(old@),
            block_views(new@),
        ),
        equal_count(block_op_views(ops@)) == lcs_len(key_views(old@), key_views(new@)),
        raw_ops_wf(block_op_views(ops@)),
{
    let script = keyed_myers_diff(old, new);
    let ghost ov = block_views(old@);
    let ghost nv = block_views(new@);
    proof {
        lemma_myers_in_bounds(old@.len() as int, new@.len() as int, script@, 0, 0);
        assert(script@.subrange(0, script@.len() as int) =~= script@);
    }
    let mut result: Vec<BlockOp> = Vec::new();
    let mut k: usize = 0;
    while k < script.len()
        invariant
            k <= script@.len(),
            ov == block_views(old@),
            nv == block_views(new@),
            forall|m: int| 0 <= m < script@.len() ==> myers_op_in_bounds(#[trigger] script@[m], old@.len() as int, new@.len() as int),
            block_op_views(result@) + block_ops(ov, nv, script@.subrange(k as int, script@.len() as int))
                == block_ops(ov, nv, script@),
        decreases script@.len() - k,
    {
        let ghost before = block_op_views(result@);
        let ghost rest = script@.subrange(k as int, script@.len() as int);
        let op = script[k];
        assert(op == script@[k as int]);
        assert(myers_op_in_bounds(op, old@.len() as int, new@.len() as int));
        assert(rest[0] == op);
        assert(rest.drop_first() =~= script@.subrange(k + 1, script@.len() as int));
        match op {
            MyersOp::Equal { old_index, new_index, len } => {
                push_equal_run(&mut result, old, new, old_index, new_index, len);
            },
            MyersOp::Delete { old_index, old_len, new_index } => {
                push_deletes(&mut result, old, old_index, old_len);
            },
            MyersOp::Insert { old_index, new_index, new_len } => {
                push_inserts(&mut result, new, new_index, new_len);
            },
            MyersOp::Replace { old_index, old_len, new_index, new_len } => {
                push_deletes(&mut result, old, old_index, old_len);
                push_inserts(&mut result, new, new_index, new_len);
            },
        }
        assert(block_op_views(result@) == before + block_step(ov, nv, op));
        k += 1;
    }
    proof {
        assert(script@.subrange(0, script@.len() as int) =~= script@);
        lemma_block_ops_sides(ov, nv, script@, 0, 0);
        assert(ov.subrange(0, ov.len() as int) =~= ov);
        assert(nv.subrange(0, nv.len() as int) =~= nv);
        if key_views(old@) == key_views(new@) {
            assert(key_views(old@).len() == old@.len());
            assert(key_views(new@).len() == new@.len());
            lemma_block_ops_identity(ov, nv);
        }
        lemma_block_ops_equal_count(ov, nv, script@);
        lemma_block_ops_wf(old@, new@, ov, nv, script@);
    }
    result
}

/// The views of blocks made of the given contents with no page styles.
pub open spec fn plain_block_views(contents: Seq<BlockContent>) -> Seq<BlockView> {
    contents.map_values(|c: BlockContent| BlockView { key: c.key@, text: c.text@, page_styles: Seq::empty() })
}

/// The result of [`diff_blocks_raw`].
pub open spec fn diff_contents_spec(old: Seq<BlockContent>, new: Seq<BlockContent>) -> Seq<BlockOpView> {
    block_ops(plain_block_views(old), plain_block_views(new), keyed_myers_script(key_views(old), key_views(new)))
}

fn plain_blocks(contents: &[BlockContent]) -> (blocks: Vec<DiffBlock>)
    ensures
        block_views(blocks@) == plain_block_views(contents@),
        key_views(blocks@) == key_views(contents@),
{
    let mut blocks: Vec<DiffBlock> = Vec::new();
    let mut i: usize = 0;
    while i < contents.len()
        invariant
            i <= contents@.len(),
            block_views(blocks@) == plain_block_views(contents@).subrange(0, i as int),
            key_views(blocks@) == key_views(contents@).subrange(0, i as int),
        decreases contents@.len() - i,
    {
        let block = DiffBlock { content: contents[i].clone(), page_styles: String::new() };
        let ghost prev = blocks@;
        blocks.push(block);
        assert(block_views(blocks@) =~= block_views(prev).push(block@));
        assert(key_views(blocks@) =~= key_views(prev).push(block.key_view()));
        i += 1;
        assert(block_views(blocks@) =~= plain_block_views(contents@).subrange(0, i as int));
        assert(key_views(blocks@) =~= key_views(contents@).subrange(0, i as int));
    }
    assert(plain_block_views(contents@).subrange(0, i as int) =~= plain_block_views(contents@));
    assert(key_views(contents@).subrange(0, i as int) =~= key_views(contents@));
    blocks
}

/// Diffs two sequences of block contents that carry no page styles.
pub fn diff_blocks_raw(old: &[BlockContent], new: &[BlockContent]) -> (ops: Vec<BlockOp>)
    requires
        old@.len() + new@.len() <= usize::MAX,
    ensures
        block_op_views(ops@) == diff_contents_spec(old@, new@),
        old_side(block_op_views(ops@)) == plain_block_views(old@),
        new_side(block_op_views(ops@)) == plain_block_views(new@),
        key_views(old@) == key_views(new@) ==> block_op_views(ops@) == all_equal_ops(
            plain_block_views(old@),
            plain_block_views(new@),
        ),
        equal_count(block_op_views(ops@)) == lcs_len(key_views(old@), key_views(new@)),
        raw_ops_wf(block_op_views(ops@)),
{
    let old_blocks = plain_blocks(old);
    let new_blocks = plain_blocks(new);
    diff_block_units_raw(old_blocks.as_slice(), new_blocks.as_slice())
}

// ---------------------------------------------------------------------------
// Edit zones
// ---------------------------------------------------------------------------

/// The best unused candidate among `inserts[0..j]` for a deleted text: the
/// highest similarity, the later insert on ties.
pub open spec fn best_candidate(
    text: Seq<char>,
    inserts: Seq<BlockView>,
    used: Seq<bool>,
    j: nat,
) -> Option<(int, Similarity)>
    decreases j,
{
    if j == 0 {
        None
    } else {
        let prev = best_candidate(text, inserts, used, (j - 1) as nat);
        if used[j - 1] {
            prev
        } else {
            let s = similarity_spec(text, inserts[j - 1].text);
            match prev {
                Some(best) => if best.1.spec_not_above(s) {
                    Some(((j - 1) as int, s))
                } else {
                    prev
                },
                None => Some(((j - 1) as int, s)),
            }
        }
    }
}

/// After deciding `deletes[0..i]` in order: the insert each delete was paired
/// with, and which inserts are taken. A delete takes its best candidate when
/// the similarity reaches the threshold.
pub open spec fn pairing(deletes: Seq<BlockView>, inserts: Seq<BlockView>, i: nat) -> (Seq<Option<int>>, Seq<bool>)
    decreases i,
{
    if i == 0 {
        (Seq::empty(), Seq::new(inserts.len(), |j: int| false))
    } else {
        let prev = pairing(deletes, inserts, (i - 1) as nat);
        match best_candidate(deletes[i - 1].text, inserts, prev.1, inserts.len()) {
            Some(best) => if best.1.spec_reaches_threshold() {
                (prev.0.push(Some(best.0)), prev.1.update(best.0, true))
            } else {
                (prev.0.push(None), prev.1)
            },
            None => (prev.0.push(None), prev.1),
        }
    }
}

/// The inserts among `inserts[0..j]` that no delete took, in order.
pub open spec fn unused_inserts(inserts: Seq<BlockView>, used: Seq<bool>, j: nat) -> Seq<BlockOpView>
    decreases j,
{
    if j == 0 {
        Seq::empty()
    } else if used[j - 1] {
        unused_inserts(inserts, used, (j - 1) as nat)
    } else {
        unused_inserts(inserts, used, (j - 1) as nat).push(BlockOpView::Insert(inserts[j - 1]))
    }
}

/// The deletes, each as a replacement by its paired insert or as a delete,
/// in order; then the unpaired inserts in order.
pub open spec fn pair_zone_spec(deletes: Seq<BlockView>, inserts: Seq<BlockView>) -> Seq<BlockOpView> {
    let p = pairing(deletes, inserts, deletes.len());
    Seq::new(
        deletes.len(),
        |i: int| match p.0[i] {
            Some(j) => BlockOpView::Replace(deletes[i], inserts[j]),
            None => BlockOpView::Delete(deletes[i]),
        },
    ) + unused_inserts(inserts, p.1, inserts.len())
}

/// The texts of every block of the operation fit a Rust string.
pub open spec fn op_texts_fit(op: BlockOpView) -> bool {
    match op {
        BlockOpView::Equal(a, b) => text_fits(a.text) && text_fits(b.text),
        BlockOpView::Delete(a) => text_fits(a.text),
        BlockOpView::Insert(b) => text_fits(b.text),
        BlockOpView::Replace(a, b) => text_fits(a.text) && text_fits(b.text),
    }
}

/// Every block text fits a Rust string.
pub open spec fn texts_fit(blocks: Seq<BlockView>) -> bool {
    forall|k: int| 0 <= k < blocks.len() ==> text_fits(#[trigger] blocks[k].text)
}

proof fn lemma_best_candidate(text: Seq<char>, inserts: Seq<BlockView>, used: Seq<bool>, j: nat)
    requires
        j <= inserts.len(),
        used.len() == inserts.len(),
    ensures
        match best_candidate(text, inserts, used, j) {
            Some(best) => 0 <= best.0 < j && !used[best.0],
            None => true,
        },
    decreases j,
{
    if j > 0 {
        lemma_best_candidate(text, inserts, used, (j - 1) as nat);
    }
}

/// The index and score of a candidate as plain values.
pub open spec fn candidate_view(c: Option<(usize, Similarity)>) -> Option<(int, Similarity)> {
    match c {
        Some(best) => Some((best.0 as int, best.1)),
        None => None,
    }
}

/// The paired indices as plain values.
pub open spec fn paired_view(p: Seq<Option<usize>>) -> Seq<Option<int>> {
    p.map_values(|o: Option<usize>| match o {
        Some(j) => Some(j as int),
        None => None,
    })
}

/// Pairs the deletes and inserts of one edit zone and appends the result.
///
/// Each delete in turn takes the most similar insert that is still free
/// (the later one on ties) when the similarity reaches `3 / 10`.
pub fn pair_edit_zone(deletes: Vec<DiffBlock>, inserts: Vec<DiffBlock>, out: &mut Vec<BlockOp>)
    requires
        texts_fit(block_views(deletes@)),
        texts_fit(block_views(inserts@)),
    ensures
        block_op_views(final(out)@) == block_op_views(old(out)@) + pair_zone_spec(
            block_views(deletes@),
            block_views(inserts@),
        ),
{
    let ghost dv = block_views(deletes@);
    let ghost iv = block_views(inserts@);
    let n_del = deletes.len();
    let n_ins = inserts.len();
    let mut used: Vec<bool> = Vec::new();
    let mut j: usize = 0;
    while j < n_ins
        invariant
            n_ins == inserts@.len(),
            j <= n_ins,
            used@ == Seq::new(j as nat, |k: int| false),
        decreases n_ins - j,
    {
        used.push(false);
        j += 1;
        assert(used@ =~= Seq::new(j as nat, |k: int| false));
    }
    let mut paired: Vec<Option<usize>> = Vec::new();
    let mut i: usize = 0;
    while i < n_del
        invariant
            n_del == deletes@.len(),
            n_ins == inserts@.len(),
            dv == block_views(deletes@),
            iv == block_views(inserts@),
            texts_fit(dv),
            texts_fit(iv),
            i <= n_del,
            used@.len() == n_ins,
            paired@.len() == i,
            (paired_view(paired@), used@) == pairing(dv, iv, i as nat),
        decreases n_del - i,
    {
        let text = deletes[i].content.text.as_str();
        assert(text@ == dv[i as int].text);
        assert(text_fits(dv[i as int].text));
        let mut best: Option<(usize, Similarity)> = None;
        let mut j: usize = 0;
        while j < n_ins
            invariant
                n_ins == inserts@.len(),
                iv == block_views(inserts@),
                texts_fit(iv),
                text_fits(text@),
                j <= n_ins,
                used@.len() == n_ins,
                candidate_view(best) == best_candidate(text@, iv, used@, j as nat),
            decreases n_ins - j,
        {
            if !used[j] {
                let candidate = inserts[j].content.text.as_str();
                assert(candidate@ == iv[j as int].text);
                assert(text_fits(iv[j as int].text));
                let s = similarity(text, candidate);
                match best {
                    Some(b) => {
                        if b.1.not_above(&s) {
                            best = Some((j, s));
                        }
                    },
                    None => {
                        best = Some((j, s));
                    },
                }
            }
            j += 1;
        }
        proof {
            lemma_best_candidate(text@, iv, used@, n_ins as nat);
        }
        let ghost prev = paired_view(paired@);
        match best {
            Some(b) => {
                if b.1.reaches_threshold() {
                    used.set(b.0, true);
                    paired.push(Some(b.0));
                } else {
                    paired.push(None);
                }
            },
            None => {
                paired.push(None);
            },
        }
        assert(paired_view(paired@) =~= prev.push(paired_view(paired@).last()));
        i += 1;
    }
    let ghost p = pairing(dv, iv, n_del as nat);
    let ghost start = block_op_views(out@);
    let ghost replaced = Seq::new(
        n_del as nat,
        |k: int| match p.0[k] {
            Some(j) => BlockOpView::Replace(dv[k], iv[j]),
            None => BlockOpView::Delete(dv[k]),
        },
    );
    proof {
        lemma_pairing_in_bounds(dv, iv, n_del as nat);
    }
    let mut k: usize = 0;
    while k < n_del
        invariant
            n_del == deletes@.len(),
            n_ins == inserts@.len(),
            dv == block_views(deletes@),
            iv == block_views(inserts@),
            k <= n_del,
            paired@.len() == n_del,
            paired_view(paired@) == p.0,
            p.0.len() == n_del,
            replaced == Seq::new(
                n_del as nat,
                |k: int| match p.0[k] {
                    Some(j) => BlockOpView::Replace(dv[k], iv[j]),
                    None => BlockOpView::Delete(dv[k]),
                },
            ),
            forall|m: int| 0 <= m < n_del ==> match #[trigger] p.0[m] {
                Some(j) => 0 <= j < n_ins,
                None => true,
            },
            block_op_views(out@) == start + replaced.subrange(0, k as int),
        decreases n_del - k,
    {
        let ghost before = out@;
        assert(paired_view(paired@)[k as int] == p.0[k as int]);
        let op = match paired[k] {
            Some(j) => BlockOp::Replace(deletes[k].clone(), inserts[j].clone()),
            None => BlockOp::Delete(deletes[k].clone()),
        };
        assert(op@ == replaced[k as int]);
        out.push(op);
        assert(block_op_views(out@) =~= block_op_views(before).push(op@));
        k += 1;
        assert(replaced.subrange(0, k as int) =~= replaced.subrange(0, k - 1).push(replaced[k - 1]));
    }
    assert(replaced.subrange(0, n_del as int) =~= replaced);
    let ghost mid = block_op_views(out@);
    let mut j: usize = 0;
    while j < n_ins
        invariant
            n_ins == inserts@.len(),
            iv == block_views(inserts@),
            j <= n_ins,
            used@ == p.1,
            used@.len() == n_ins,
            block_op_views(out@) == mid + unused_inserts(iv, p.1, j as nat),
        decreases n_ins - j,
    {
        if !used[j] {
            let ghost before = out@;
            let op = BlockOp::Insert(inserts[j].clone());
            out.push(op);
            assert(block_op_views(out@) =~= block_op_views(before).push(op@));
        }
        j += 1;
    }
}

proof fn lemma_pairing_in_bounds(deletes: Seq<BlockView>, inserts: Seq<BlockView>, i: nat)
    ensures
        pairing(deletes, inserts, i).0.len() == i,
        pairing(deletes, inserts, i).1.len() == inserts.len(),
        forall|m: int| 0 <= m < i ==> match #[trigger] pairing(deletes, inserts, i).0[m] {
            Some(j) => 0 <= j < inserts.len(),
            None => true,
        },
    decreases i,
{
    if i > 0 {
        let prev = pairing(deletes, inserts, (i - 1) as nat);
        lemma_pairing_in_bounds(deletes, inserts, (i - 1) as nat);
        lemma_best_candidate(deletes[i - 1].text, inserts, prev.1, inserts.len());
        let cur = pairing(deletes, inserts, i);
        assert forall|m: int| 0 <= m < i implies match #[trigger] cur.0[m] {
            Some(j) => 0 <= j < inserts.len(),
            None => true,
        } by {
            if m < i - 1 {
                assert(cur.0[m] == prev.0[m]);
            }
        }
    }
}


/// A delete or an insert.
pub open spec fn is_block_change(op: BlockOpView) -> bool {
    op is Delete || op is Insert
}

/// The end of the run of deletes and inserts starting at `i`.
pub open spec fn change_run_end(ops: Seq<BlockOpView>, i: nat) -> nat
    decreases ops.len() - i,
{
    if i < ops.len() && is_block_change(ops[i as int]) {
        change_run_end(ops, i + 1)
    } else {
        i
    }
}

/// The deleted blocks of a zone, in order.
pub open spec fn zone_deletes(zone: Seq<BlockOpView>) -> Seq<BlockView>
    decreases zone.len(),
{
    if zone.len() == 0 {
        Seq::empty()
    } else {
        match zone.last() {
            BlockOpView::Delete(b) => zone_deletes(zone.drop_last()).push(b),
            _ => zone_deletes(zone.drop_last()),
        }
    }
}

/// The inserted blocks of a zone, in order.
pub open spec fn zone_inserts(zone: Seq<BlockOpView>) -> Seq<BlockView>
    decreases zone.len(),
{
    if zone.len() == 0 {
        Seq::empty()
    } else {
        match zone.last() {
            BlockOpView::Insert(b) => zone_inserts(zone.drop_last()).push(b),
            _ => zone_inserts(zone.drop_last()),
        }
    }
}

/// The operations from `i` on with every maximal run of deletes and inserts
/// paired by [`pair_zone_spec`]; equal runs and replacements pass through.
pub open spec fn match_from(ops: Seq<BlockOpView>, i: nat) -> Seq<BlockOpView>
    decreases ops.len() - i,
{
    if i >= ops.len() {
        Seq::empty()
    } else if is_block_change(ops[i as int]) {
        let j = change_run_end(ops, i);
        let next = if i < j && j <= ops.len() { j } else { i + 1 };
        let zone = ops.subrange(i as int, next as int);
        pair_zone_spec(zone_deletes(zone), zone_inserts(zone)) + match_from(ops, next)
    } else {
        seq![ops[i as int]] + match_from(ops, i + 1)
    }
}

proof fn lemma_change_run_end_bounds(ops: Seq<BlockOpView>, i: nat)
    requires
        i <= ops.len(),
    ensures
        i <= change_run_end(ops, i) <= ops.len(),
        i < ops.len() && is_block_change(ops[i as int]) ==> change_run_end(ops, i) > i,
    decreases ops.len() - i,
{
    if i < ops.len() && is_block_change(ops[i as int]) {
        lemma_change_run_end_bounds(ops, i + 1);
    }
}

/// Whether the operation is a delete or an insert.
fn is_change_op(op: &BlockOp) -> (b: bool)
    ensures
        b == is_block_change(op@),
{
    match op {
        BlockOp::Delete(_) | BlockOp::Insert(_) => true,
        _ => false,
    }
}

/// Pairs the deletes and inserts of every edit zone, a maximal run of
/// deletes and inserts, by similarity; see [`pair_edit_zone`].
pub fn match_edit_zones(ops: Vec<BlockOp>) -> (matched: Vec<BlockOp>)
    requires
        forall|k: int| 0 <= k < ops@.len() ==> op_texts_fit(#[trigger] ops@[k]@),
    ensures
        block_op_views(matched@) == match_from(block_op_views(ops@), 0),
{
    let ghost opsv = block_op_views(ops@);
    let n = ops.len();
    let mut result: Vec<BlockOp> = Vec::new();
    let mut i: usize = 0;
    while i < n
        invariant
            n == ops@.len(),
            opsv == block_op_views(ops@),
            forall|k: int| 0 <= k < ops@.len() ==> op_texts_fit(#[trigger] ops@[k]@),
            i <= n,
            block_op_views(result@) + match_from(opsv, i as nat) == match_from(opsv, 0),
        decreases n - i,
    {
        if is_change_op(&ops[i]) {
            let start = i;
            proof {
                lemma_change_run_end_bounds(opsv, i as nat);
            }
            while i < n && is_change_op(&ops[i])
                invariant
                    n == ops@.len(),
                    opsv == block_op_views(ops@),
                    start <= i <= n,
                    change_run_end(opsv, start as nat) == change_run_end(opsv, i as nat),
                decreases n - i,
            {
                i += 1;
            }
            proof {
                lemma_change_run_end_bounds(opsv, start as nat);
            }
            let mut deletes: Vec<DiffBlock> = Vec::new();
            let mut inserts: Vec<DiffBlock> = Vec::new();
            let mut k: usize = start;
            while k < i
                invariant
                    n == ops@.len(),
                    opsv == block_op_views(ops@),
                    forall|m: int| 0 <= m < ops@.len() ==> op_texts_fit(#[trigger] ops@[m]@),
                    start <= k <= i <= n,
                    block_views(deletes@) == zone_deletes(opsv.subrange(start as int, k as int)),
                    block_views(inserts@) == zone_inserts(opsv.subrange(start as int, k as int)),
                    texts_fit(block_views(deletes@)),
                    texts_fit(block_views(inserts@)),
                decreases i - k,
            {
                let ghost zone = opsv.subrange(start as int, k + 1);
                assert(zone.drop_last() =~= opsv.subrange(start as int, k as int));
                assert(zone.last() == ops@[k as int]@);
                assert(op_texts_fit(ops@[k as int]@));
                match &ops[k] {
                    BlockOp::Delete(b) => {
                        let ghost before = deletes@;
                        deletes.push(b.clone());
                        assert(block_views(deletes@) =~= block_views(before).push(b@));
                    },
                    BlockOp::Insert(b) => {
                        let ghost before = inserts@;
                        inserts.push(b.clone());
                        assert(block_views(inserts@) =~= block_views(before).push(b@));
                    },
                    _ => {},
                }
                k += 1;
            }
            let ghost before = block_op_views(result@);
            pair_edit_zone(deletes, inserts, &mut result);
            assert(block_op_views(result@) + match_from(opsv, i as nat) =~= before + match_from(opsv, start as nat));
        } else {
            let ghost before = result@;
            result.push(ops[i].clone());
            assert(block_op_views(result@) =~= block_op_views(before).push(opsv[i as int]));
            i += 1;
            assert(block_op_views(result@) + match_from(opsv, i as nat) =~= block_op_views(before) + match_from(opsv, (i - 1) as nat));
        }
    }
    assert(block_op_views(result@) =~= block_op_views(result@) + match_from(opsv, n as nat));
    result
}


// ---------------------------------------------------------------------------
// Sticky page styles
// ---------------------------------------------------------------------------

/// The page styles of each block.
pub open spec fn page_styles_of(blocks: Seq<DiffBlock>) -> Seq<Seq<char>> {
    blocks.map_values(|b: DiffBlock| b.page_styles@)
}

/// The page styles in force after the first `i` blocks: those of the last of
/// them that sets any, or none.
pub open spec fn sticky_styles(styles: Seq<Seq<char>>, i: nat) -> Seq<char>
    decreases i,
{
    if i == 0 {
        Seq::empty()
    } else if styles[i - 1].len() > 0 {
        styles[i - 1]
    } else {
        sticky_styles(styles, (i - 1) as nat)
    }
}

/// Propagates page styles forward: a block that sets page styles keeps them,
/// a block that sets none takes those of the nearest earlier block that does.
pub fn make_page_styles_sticky(blocks: &mut Vec<DiffBlock>)
    ensures
        final(blocks)@.len() == old(blocks)@.len(),
        forall|i: int| 0 <= i < final(blocks)@.len() ==> (#[trigger] final(blocks)@[i]).content == old(blocks)@[i].content,
        forall|i: int| 0 <= i < final(blocks)@.len() ==> (#[trigger] final(blocks)@[i]).page_styles@
            == sticky_styles(page_styles_of(old(blocks)@), (i + 1) as nat),
{
    let ghost styles = page_styles_of(blocks@);
    let ghost original = blocks@;
    let mut current = String::new();
    let mut i: usize = 0;
    while i < blocks.len()
        invariant
            blocks@.len() == original.len(),
            styles == page_styles_of(original),
            i <= blocks@.len(),
            current@ == sticky_styles(styles, i as nat),
            forall|k: int| i <= k < blocks@.len() ==> #[trigger] blocks@[k] == original[k],
            forall|k: int| 0 <= k < i ==> (#[trigger] blocks@[k]).content == original[k].content,
            forall|k: int| 0 <= k < i ==> (#[trigger] blocks@[k]).page_styles@ == sticky_styles(styles, (k + 1) as nat),
        decreases blocks@.len() - i,
    {
        assert(styles[i as int] == blocks@[i as int].page_styles@);
        if !blocks[i].page_styles.as_str().is_empty() {
            current = blocks[i].page_styles.clone();
        }
        let block = DiffBlock { content: blocks[i].content.clone(), page_styles: current.clone() };
        blocks.set(i, block);
        i += 1;
    }
}

/// A block that sets page styles keeps them; one that sets none inherits
/// those of the nearest earlier block that sets some, and has none when no
/// earlier block does.
pub proof fn lemma_sticky_styles_inherit(styles: Seq<Seq<char>>, i: int)
    requires
        0 <= i < styles.len(),
    ensures
        styles[i].len() > 0 ==> sticky_styles(styles, (i + 1) as nat) == styles[i],
        forall|k: int| 0 <= k < i && styles[k].len() > 0
            && (forall|m: int| k < m <= i ==> #[trigger] styles[m].len() == 0)
            ==> sticky_styles(styles, (i + 1) as nat) == #[trigger] styles[k],
        (forall|m: int| 0 <= m <= i ==> #[trigger] styles[m].len() == 0)
            ==> sticky_styles(styles, (i + 1) as nat).len() == 0,
    decreases i,
{
    if i > 0 {
        lemma_sticky_styles_inherit(styles, i - 1);
        assert forall|k: int| 0 <= k < i && styles[k].len() > 0
            && (forall|m: int| k < m <= i ==> #[trigger] styles[m].len() == 0)
            implies sticky_styles(styles, (i + 1) as nat) == #[trigger] styles[k] by {
            assert(styles[i].len() == 0);
            if k < i - 1 {
                assert(forall|m: int| k < m <= i - 1 ==> #[trigger] styles[m].len() == 0);
            }
        }
    }
    if forall|m: int| 0 <= m <= i ==> #[trigger] styles[m].len() == 0 {
        assert(styles[i].len() == 0);
        assert(sticky_styles(styles, (i + 1) as nat) == sticky_styles(styles, i as nat));
        if i > 0 {
            assert(forall|m: int| 0 <= m <= i - 1 ==> #[trigger] styles[m].len() == 0);
            assert(sticky_styles(styles, i as nat).len() == 0);
        }
    }
}


// ---------------------------------------------------------------------------
// Sides of a block diff
// ---------------------------------------------------------------------------

/// The old block an operation reads, if any.
pub open spec fn op_old(op: BlockOpView) -> Seq<BlockView> {
    match op {
        BlockOpView::Equal(a, _) => seq![a],
        BlockOpView::Delete(a) => seq![a],
        BlockOpView::Insert(_) => Seq::empty(),
        BlockOpView::Replace(a, _) => seq![a],
    }
}

/// The new block an operation reads, if any.
pub open spec fn op_new(op: BlockOpView) -> Seq<BlockView> {
    match op {
        BlockOpView::Equal(_, b) => seq![b],
        BlockOpView::Delete(_) => Seq::empty(),
        BlockOpView::Insert(b) => seq![b],
        BlockOpView::Replace(_, b) => seq![b],
    }
}

/// The old blocks that a sequence of operations reads, in order.
pub open spec fn old_side(ops: Seq<BlockOpView>) -> Seq<BlockView>
    decreases ops.len(),
{
    if ops.len() == 0 {
        Seq::empty()
    } else {
        op_old(ops[0]) + old_side(ops.drop_first())
    }
}

/// The new blocks that a sequence of operations reads, in order.
pub open spec fn new_side(ops: Seq<BlockOpView>) -> Seq<BlockView>
    decreases ops.len(),
{
    if ops.len() == 0 {
        Seq::empty()
    } else {
        op_new(ops[0]) + new_side(ops.drop_first())
    }
}

/// The sides of a concatenation are the concatenated sides.
pub proof fn lemma_sides_append(a: Seq<BlockOpView>, b: Seq<BlockOpView>)
    ensures
        old_side(a + b) == old_side(a) + old_side(b),
        new_side(a + b) == new_side(a) + new_side(b),
    decreases a.len(),
{
    if a.len() == 0 {
        assert(a + b =~= b);
    } else {
        lemma_sides_append(a.drop_first(), b);
        assert((a + b).drop_first() =~= a.drop_first() + b);
        assert(old_side(a + b) =~= old_side(a) + old_side(b));
        assert(new_side(a + b) =~= new_side(a) + new_side(b));
    }
}

proof fn lemma_old_side_each(s: Seq<BlockOpView>, xs: Seq<BlockView>)
    requires
        s.len() == xs.len(),
        forall|k: int| 0 <= k < s.len() ==> op_old(#[trigger] s[k]) == seq![xs[k]],
    ensures
        old_side(s) == xs,
    decreases s.len(),
{
    if s.len() > 0 {
        lemma_old_side_each(s.drop_first(), xs.drop_first());
        assert(op_old(s[0]) == seq![xs[0]]);
        assert(old_side(s) =~= xs);
    }
}

proof fn lemma_new_side_each(s: Seq<BlockOpView>, xs: Seq<BlockView>)
    requires
        s.len() == xs.len(),
        forall|k: int| 0 <= k < s.len() ==> op_new(#[trigger] s[k]) == seq![xs[k]],
    ensures
        new_side(s) == xs,
    decreases s.len(),
{
    if s.len() > 0 {
        lemma_new_side_each(s.drop_first(), xs.drop_first());
        assert(op_new(s[0]) == seq![xs[0]]);
        assert(new_side(s) =~= xs);
    }
}

proof fn lemma_old_side_none(s: Seq<BlockOpView>)
    requires
        forall|k: int| 0 <= k < s.len() ==> op_old(#[trigger] s[k]).len() == 0,
    ensures
        old_side(s).len() == 0,
    decreases s.len(),
{
    if s.len() > 0 {
        assert(op_old(s[0]).len() == 0);
        lemma_old_side_none(s.drop_first());
    }
}

proof fn lemma_new_side_none(s: Seq<BlockOpView>)
    requires
        forall|k: int| 0 <= k < s.len() ==> op_new(#[trigger] s[k]).len() == 0,
    ensures
        new_side(s).len() == 0,
    decreases s.len(),
{
    if s.len() > 0 {
        assert(op_new(s[0]).len() == 0);
        lemma_new_side_none(s.drop_first());
    }
}

proof fn lemma_block_step_sides(old: Seq<BlockView>, new: Seq<BlockView>, op: MyersOp)
    requires
        myers_op_in_bounds(op, old.len() as int, new.len() as int),
    ensures
        match op {
            MyersOp::Equal { old_index, new_index, len } =>
                old_side(block_step(old, new, op)) == old.subrange(old_index as int, old_index + len)
                && new_side(block_step(old, new, op)) == new.subrange(new_index as int, new_index + len),
            MyersOp::Delete { old_index, old_len, .. } =>
                old_side(block_step(old, new, op)) == old.subrange(old_index as int, old_index + old_len)
                && new_side(block_step(old, new, op)).len() == 0,
            MyersOp::Insert { new_index, new_len, .. } =>
                old_side(block_step(old, new, op)).len() == 0
                && new_side(block_step(old, new, op)) == new.subrange(new_index as int, new_index + new_len),
            MyersOp::Replace { old_index, old_len, new_index, new_len } =>
                old_side(block_step(old, new, op)) == old.subrange(old_index as int, old_index + old_len)
                && new_side(block_step(old, new, op)) == new.subrange(new_index as int, new_index + new_len),
        },
{
    match op {
        MyersOp::Equal { old_index, new_index, len } => {
            let s = block_step(old, new, op);
            lemma_old_side_each(s, old.subrange(old_index as int, old_index + len));
            lemma_new_side_each(s, new.subrange(new_index as int, new_index + len));
        },
        MyersOp::Delete { old_index, old_len, .. } => {
            let s = block_step(old, new, op);
            lemma_old_side_each(s, old.subrange(old_index as int, old_index + old_len));
            lemma_new_side_none(s);
        },
        MyersOp::Insert { new_index, new_len, .. } => {
            let s = block_step(old, new, op);
            lemma_old_side_none(s);
            lemma_new_side_each(s, new.subrange(new_index as int, new_index + new_len));
        },
        MyersOp::Replace { old_index, old_len, new_index, new_len } => {
            let dels = Seq::new(old_len as nat, |d: int| BlockOpView::Delete(old[old_index + d]));
            let ins = Seq::new(new_len as nat, |d: int| BlockOpView::Insert(new[new_index + d]));
            lemma_sides_append(dels, ins);
            lemma_old_side_each(dels, old.subrange(old_index as int, old_index + old_len));
            lemma_new_side_none(dels);
            lemma_old_side_none(ins);
            lemma_new_side_each(ins, new.subrange(new_index as int, new_index + new_len));
            assert(old_side(dels + ins) =~= old.subrange(old_index as int, old_index + old_len));
            assert(new_side(dels + ins) =~= new.subrange(new_index as int, new_index + new_len));
        },
    }
}

/// The operations of a script that walks both sequences from `(i, j)` read
/// the rest of each sequence, in order.
proof fn lemma_block_ops_sides(old: Seq<BlockView>, new: Seq<BlockView>, script: Seq<MyersOp>, i: int, j: int)
    requires
        myers_covers(old.len() as int, new.len() as int, script, i, j),
        0 <= i,
        0 <= j,
    ensures
        old_side(block_ops(old, new, script)) == old.subrange(i, old.len() as int),
        new_side(block_ops(old, new, script)) == new.subrange(j, new.len() as int),
    decreases script.len(),
{
    lemma_myers_in_bounds(old.len() as int, new.len() as int, script, i, j);
    lemma_myers_covers_ends(old.len() as int, new.len() as int, script, i, j);
    if script.len() == 0 {
        assert(old.subrange(i, old.len() as int) =~= Seq::<BlockView>::empty());
        assert(new.subrange(j, new.len() as int) =~= Seq::<BlockView>::empty());
    } else {
        let op = script[0];
        let rest = script.drop_first();
        assert(myers_op_in_bounds(op, old.len() as int, new.len() as int));
        lemma_block_step_sides(old, new, op);
        lemma_sides_append(block_step(old, new, op), block_ops(old, new, rest));
        match op {
            MyersOp::Equal { old_index, new_index, len } => {
                lemma_block_ops_sides(old, new, rest, i + len, j + len);
            },
            MyersOp::Delete { old_index, old_len, new_index } => {
                lemma_block_ops_sides(old, new, rest, i + old_len, j);
            },
            MyersOp::Insert { old_index, new_index, new_len } => {
                lemma_block_ops_sides(old, new, rest, i, j + new_len);
            },
            MyersOp::Replace { old_index, old_len, new_index, new_len } => {
                lemma_block_ops_sides(old, new, rest, i + old_len, j + new_len);
            },
        }
        assert(old_side(block_ops(old, new, script)) =~= old.subrange(i, old.len() as int));
        assert(new_side(block_ops(old, new, script)) =~= new.subrange(j, new.len() as int));
    }
}


// ---------------------------------------------------------------------------
// Laws of edit-zone matching
// ---------------------------------------------------------------------------

proof fn lemma_side_single(x: BlockOpView)
    ensures
        old_side(seq![x]) == op_old(x),
        new_side(seq![x]) == op_new(x),
{
    let e = Seq::<BlockOpView>::empty();
    assert(seq![x].drop_first() =~= e);
    assert(old_side(e) == Seq::<BlockView>::empty());
    assert(new_side(e) == Seq::<BlockView>::empty());
    assert(seq![x][0] == x);
    assert(old_side(seq![x]) =~= op_old(x));
    assert(new_side(seq![x]) =~= op_new(x));
}

proof fn lemma_unused_inserts_are_inserts(inserts: Seq<BlockView>, used: Seq<bool>, j: nat)
    requires
        j <= inserts.len(),
        j <= used.len(),
    ensures
        forall|k: int| 0 <= k < unused_inserts(inserts, used, j).len()
            ==> #[trigger] unused_inserts(inserts, used, j)[k] is Insert,
    decreases j,
{
    if j > 0 {
        lemma_unused_inserts_are_inserts(inserts, used, (j - 1) as nat);
    }
}

proof fn lemma_pair_zone_old_side(deletes: Seq<BlockView>, inserts: Seq<BlockView>)
    ensures
        old_side(pair_zone_spec(deletes, inserts)) == deletes,
{
    let p = pairing(deletes, inserts, deletes.len());
    lemma_pairing_in_bounds(deletes, inserts, deletes.len());
    let first = Seq::new(
        deletes.len(),
        |i: int| match p.0[i] {
            Some(j) => BlockOpView::Replace(deletes[i], inserts[j]),
            None => BlockOpView::Delete(deletes[i]),
        },
    );
    let rest = unused_inserts(inserts, p.1, inserts.len());
    assert forall|k: int| 0 <= k < first.len() implies op_old(#[trigger] first[k]) == seq![deletes[k]] by {
        match p.0[k] {
            Some(j) => {},
            None => {},
        }
    }
    lemma_old_side_each(first, deletes);
    lemma_unused_inserts_are_inserts(inserts, p.1, inserts.len());
    lemma_old_side_none(rest);
    lemma_sides_append(first, rest);
    assert(old_side(first + rest) =~= deletes);
}

proof fn lemma_zone_old_side(zone: Seq<BlockOpView>)
    requires
        forall|k: int| 0 <= k < zone.len() ==> is_block_change(#[trigger] zone[k]),
    ensures
        old_side(zone) == zone_deletes(zone),
    decreases zone.len(),
{
    if zone.len() > 0 {
        let init = zone.drop_last();
        lemma_zone_old_side(init);
        assert(init + seq![zone.last()] =~= zone);
        lemma_sides_append(init, seq![zone.last()]);
        lemma_side_single(zone.last());
        assert(is_block_change(zone[zone.len() - 1]));
        assert(old_side(zone) =~= zone_deletes(zone));
    }
}

proof fn lemma_change_run(ops: Seq<BlockOpView>, i: nat)
    requires
        i <= ops.len(),
    ensures
        forall|k: int| i <= k < change_run_end(ops, i) ==> is_block_change(#[trigger] ops[k]),
    decreases ops.len() - i,
{
    if i < ops.len() && is_block_change(ops[i as int]) {
        lemma_change_run(ops, i + 1);
    }
}

proof fn lemma_match_from_old_side(ops: Seq<BlockOpView>, i: nat)
    requires
        i <= ops.len(),
    ensures
        old_side(match_from(ops, i)) == old_side(ops.subrange(i as int, ops.len() as int)),
    decreases ops.len() - i,
{
    let tail = ops.subrange(i as int, ops.len() as int);
    if i == ops.len() {
        assert(tail =~= Seq::<BlockOpView>::empty());
    } else if is_block_change(ops[i as int]) {
        lemma_change_run_end_bounds(ops, i);
        lemma_change_run(ops, i);
        let next = change_run_end(ops, i);
        let zone = ops.subrange(i as int, next as int);
        lemma_match_from_old_side(ops, next);
        lemma_pair_zone_old_side(zone_deletes(zone), zone_inserts(zone));
        lemma_zone_old_side(zone);
        lemma_sides_append(pair_zone_spec(zone_deletes(zone), zone_inserts(zone)), match_from(ops, next));
        assert(zone + ops.subrange(next as int, ops.len() as int) =~= tail);
        lemma_sides_append(zone, ops.subrange(next as int, ops.len() as int));
    } else {
        lemma_match_from_old_side(ops, i + 1);
        lemma_sides_append(seq![ops[i as int]], match_from(ops, i + 1));
        assert(seq![ops[i as int]] + ops.subrange((i + 1) as int, ops.len() as int) =~= tail);
        lemma_sides_append(seq![ops[i as int]], ops.subrange((i + 1) as int, ops.len() as int));
    }
}

/// Matching edit zones keeps the old side: the old blocks that the
/// operations read, in order, are those of the unmatched operations.
pub proof fn law_match_keeps_old_side(ops: Seq<BlockOpView>)
    ensures
        old_side(match_from(ops, 0)) == old_side(ops),
{
    lemma_match_from_old_side(ops, 0);
    assert(ops.subrange(0, ops.len() as int) =~= ops);
}

/// Every replacement pairs two blocks whose text similarity reaches the
/// threshold.
pub open spec fn replacements_reach_threshold(ops: Seq<BlockOpView>) -> bool {
    forall|k: int| 0 <= k < ops.len() ==> match #[trigger] ops[k] {
        BlockOpView::Replace(a, b) => similarity_spec(a.text, b.text).spec_reaches_threshold(),
        _ => true,
    }
}

proof fn lemma_best_candidate_score(text: Seq<char>, inserts: Seq<BlockView>, used: Seq<bool>, j: nat)
    requires
        j <= inserts.len(),
        used.len() == inserts.len(),
    ensures
        match best_candidate(text, inserts, used, j) {
            Some(best) => best.1 == similarity_spec(text, inserts[best.0].text),
            None => true,
        },
    decreases j,
{
    if j > 0 {
        lemma_best_candidate_score(text, inserts, used, (j - 1) as nat);
    }
}

proof fn lemma_pairing_scores(deletes: Seq<BlockView>, inserts: Seq<BlockView>, i: nat)
    requires
        i <= deletes.len(),
    ensures
        forall|m: int| 0 <= m < i ==> match #[trigger] pairing(deletes, inserts, i).0[m] {
            Some(j) => similarity_spec(deletes[m].text, inserts[j].text).spec_reaches_threshold(),
            None => true,
        },
    decreases i,
{
    if i > 0 {
        let prev = pairing(deletes, inserts, (i - 1) as nat);
        lemma_pairing_scores(deletes, inserts, (i - 1) as nat);
        lemma_pairing_in_bounds(deletes, inserts, (i - 1) as nat);
        lemma_best_candidate_score(deletes[i - 1].text, inserts, prev.1, inserts.len());
        let cur = pairing(deletes, inserts, i);
        assert forall|m: int| 0 <= m < i implies match #[trigger] cur.0[m] {
            Some(j) => similarity_spec(deletes[m].text, inserts[j].text).spec_reaches_threshold(),
            None => true,
        } by {
            if m < i - 1 {
                assert(cur.0[m] == prev.0[m]);
            }
        }
    }
}

// ---------------------------------------------------------------------------
// A delete takes the most similar free insert
// ---------------------------------------------------------------------------

proof fn lemma_not_above_trans(a: Similarity, b: Similarity, c: Similarity)
    requires
        a.spec_not_above(b),
        b.spec_not_above(c),
        b.den > 0,
    ensures
        a.spec_not_above(c),
{
    let (an, ad, bn, bd, cn, cd) = (a.num as int, a.den as int, b.num as int, b.den as int, c.num as int, c.den as int);
    assert(an * bd <= bn * ad);
    assert(bn * cd <= cn * bd);
    assert(an * cd * bd <= cn * ad * bd) by (nonlinear_arith)
        requires
            an * bd <= bn * ad,
            bn * cd <= cn * bd,
            ad >= 0,
            cd >= 0,
    {
        assert(an * bd * cd <= bn * ad * cd);
        assert(bn * cd * ad <= cn * bd * ad);
    }
    assert(an * cd <= cn * ad) by (nonlinear_arith)
        requires
            an * cd * bd <= cn * ad * bd,
            bd > 0,
    ;
}

/// The best candidate is at least as similar as every free insert before `j`;
/// there is none only when every insert before `j` is taken.
proof fn lemma_best_candidate_max(text: Seq<char>, inserts: Seq<BlockView>, used: Seq<bool>, j: nat)
    requires
        j <= inserts.len(),
        used.len() == inserts.len(),
        text_fits(text),
        texts_fit(inserts),
    ensures
        match best_candidate(text, inserts, used, j) {
            Some(best) => (forall|k: int| 0 <= k < j && !used[k]
                ==> #[trigger] similarity_spec(text, inserts[k].text).spec_not_above(best.1))
                && (forall|k: int| best.0 < k < j && !used[k]
                ==> !best.1.spec_not_above(#[trigger] similarity_spec(text, inserts[k].text))),
            None => forall|k: int| 0 <= k < j ==> #[trigger] used[k],
        },
    decreases j,
{
    if j > 0 {
        lemma_best_candidate_max(text, inserts, used, (j - 1) as nat);
        lemma_best_candidate_score(text, inserts, used, (j - 1) as nat);
        lemma_best_candidate(text, inserts, used, (j - 1) as nat);
        let prev = best_candidate(text, inserts, used, (j - 1) as nat);
        if !used[j - 1] {
            let s = similarity_spec(text, inserts[j - 1].text);
            assert(text_fits(inserts[j - 1].text));
            lemma_similarity_den_positive(text, inserts[j - 1].text);
            match prev {
                Some(best) => {
                    assert(text_fits(inserts[best.0].text));
                    lemma_similarity_den_positive(text, inserts[best.0].text);
                    if best.1.spec_not_above(s) {
                        assert forall|k: int| 0 <= k < j && !used[k]
                            implies #[trigger] similarity_spec(text, inserts[k].text).spec_not_above(s) by {
                            if k < j - 1 {
                                lemma_not_above_trans(similarity_spec(text, inserts[k].text), best.1, s);
                            }
                        }
                    } else {
                        assert(s.spec_not_above(best.1));
                        assert forall|k: int| best.0 < k < j && !used[k]
                            implies !best.1.spec_not_above(#[trigger] similarity_spec(text, inserts[k].text)) by {
                            if k == j - 1 {
                                assert(similarity_spec(text, inserts[k].text) == s);
                            }
                        }
                    }
                },
                None => {},
            }
        }
    }
}

/// An insert is taken after `i` deletes only if one of them took it.
proof fn lemma_pairing_used(deletes: Seq<BlockView>, inserts: Seq<BlockView>, i: nat, k: int)
    requires
        i <= deletes.len(),
        0 <= k < inserts.len(),
        pairing(deletes, inserts, i).1[k],
    ensures
        exists|m: int| 0 <= m < i && #[trigger] pairing(deletes, inserts, i).0[m] == Some(k),
    decreases i,
{
    lemma_pairing_in_bounds(deletes, inserts, i);
    if i > 0 {
        let prev = pairing(deletes, inserts, (i - 1) as nat);
        let cur = pairing(deletes, inserts, i);
        lemma_pairing_in_bounds(deletes, inserts, (i - 1) as nat);
        lemma_best_candidate(deletes[i - 1].text, inserts, prev.1, inserts.len());
        if prev.1[k] {
            lemma_pairing_used(deletes, inserts, (i - 1) as nat, k);
            let m = choose|m: int| 0 <= m < i - 1 && #[trigger] prev.0[m] == Some(k);
            assert(cur.0[m] == prev.0[m]);
        } else {
            assert(cur.0[i - 1] == Some(k));
        }
    }
}

/// The decision for a delete does not change once later deletes are decided.
proof fn lemma_pairing_prefix(deletes: Seq<BlockView>, inserts: Seq<BlockView>, i: nat, n: nat)
    requires
        i < n <= deletes.len(),
    ensures
        pairing(deletes, inserts, n).0[i as int] == pairing(deletes, inserts, i + 1).0[i as int],
    decreases n,
{
    lemma_pairing_in_bounds(deletes, inserts, (n - 1) as nat);
    if n > i + 1 {
        lemma_pairing_prefix(deletes, inserts, i, (n - 1) as nat);
    }
}

/// The position of the insert that delete `i` of an edit zone is paired
/// with, or -1.
pub open spec fn p_index(deletes: Seq<BlockView>, inserts: Seq<BlockView>, i: int) -> int {
    match pairing(deletes, inserts, deletes.len()).0[i] {
        Some(j) => j,
        None => -1,
    }
}

/// Each delete of an edit zone that becomes a replacement takes an insert at
/// least as similar to it as every insert still free when it is decided
/// (one that no earlier delete took): no free insert is strictly more
/// similar, and a free insert after the one taken is strictly less similar
/// (ties go to the later insert). A delete left alone had every free insert
/// below the threshold.
pub proof fn law_pair_zone_takes_most_similar(deletes: Seq<BlockView>, inserts: Seq<BlockView>)
    requires
        texts_fit(deletes),
        texts_fit(inserts),
    ensures
        forall|i: int, k: int| #![trigger pair_zone_spec(deletes, inserts)[i], inserts[k]]
            0 <= i < deletes.len() && 0 <= k < inserts.len()
            && (forall|m: int| 0 <= m < i ==> pair_zone_spec(deletes, inserts)[m] != BlockOpView::Replace(deletes[m], inserts[k]))
            ==> match pair_zone_spec(deletes, inserts)[i] {
                BlockOpView::Replace(d, b) => d == deletes[i] && similarity_spec(d.text, inserts[k].text)
                    .spec_not_above(similarity_spec(d.text, b.text))
                    && (p_index(deletes, inserts, i) < k ==> !similarity_spec(d.text, b.text)
                    .spec_not_above(similarity_spec(d.text, inserts[k].text))),
                BlockOpView::Delete(d) => d == deletes[i] && !similarity_spec(d.text, inserts[k].text).spec_reaches_threshold(),
                _ => false,
            },
{
    let n = deletes.len();
    let out = pair_zone_spec(deletes, inserts);
    let p = pairing(deletes, inserts, n);
    lemma_pairing_in_bounds(deletes, inserts, n);
    assert forall|i: int, k: int| #![trigger out[i], inserts[k]]
        0 <= i < deletes.len() && 0 <= k < inserts.len()
        && (forall|m: int| 0 <= m < i ==> out[m] != BlockOpView::Replace(deletes[m], inserts[k]))
        implies match out[i] {
            BlockOpView::Replace(d, b) => d == deletes[i] && similarity_spec(d.text, inserts[k].text)
                .spec_not_above(similarity_spec(d.text, b.text))
                && (p_index(deletes, inserts, i) < k ==> !similarity_spec(d.text, b.text)
                .spec_not_above(similarity_spec(d.text, inserts[k].text))),
            BlockOpView::Delete(d) => d == deletes[i] && !similarity_spec(d.text, inserts[k].text).spec_reaches_threshold(),
            _ => false,
        } by {
        let before = pairing(deletes, inserts, i as nat);
        lemma_pairing_in_bounds(deletes, inserts, i as nat);
        lemma_pairing_in_bounds(deletes, inserts, (i + 1) as nat);
        lemma_pairing_prefix(deletes, inserts, i as nat, n);
        if before.1[k] {
            lemma_pairing_used(deletes, inserts, i as nat, k);
            let m = choose|m: int| 0 <= m < i && #[trigger] before.0[m] == Some(k);
            lemma_pairing_prefix(deletes, inserts, m as nat, i as nat);
            lemma_pairing_prefix(deletes, inserts, m as nat, n);
            assert(p.0[m] == Some(k));
            assert(out[m] == BlockOpView::Replace(deletes[m], inserts[k]));
            assert(false);
        }
        assert(text_fits(deletes[i].text));
        lemma_best_candidate_max(deletes[i].text, inserts, before.1, inserts.len());
        lemma_best_candidate_score(deletes[i].text, inserts, before.1, inserts.len());
        lemma_best_candidate(deletes[i].text, inserts, before.1, inserts.len());
        assert(out[i] == match p.0[i] {
            Some(j) => BlockOpView::Replace(deletes[i], inserts[j]),
            None => BlockOpView::Delete(deletes[i]),
        });
        let text = deletes[i].text;
        let s = similarity_spec(text, inserts[k].text);
        match best_candidate(text, inserts, before.1, inserts.len()) {
            Some(best) => {
                if !best.1.spec_reaches_threshold() {
                    assert(s.spec_not_above(best.1));
                    assert(text_fits(inserts[k].text));
                    assert(text_fits(inserts[best.0].text));
                    lemma_similarity_den_positive(text, inserts[k].text);
                    lemma_similarity_den_positive(text, inserts[best.0].text);
                    assert(!s.spec_reaches_threshold()) by (nonlinear_arith)
                        requires
                            s.num * best.1.den <= best.1.num * s.den,
                            10 * best.1.num < 3 * best.1.den,
                            s.den > 0,
                            best.1.den > 0,
                    ;
                }
            },
            None => {},
        }
    }
}

/// Every replacement that pairing one edit zone makes joins a deleted and an
/// inserted block whose similarity reaches the threshold of 3/10.
pub proof fn law_pair_zone_reaches_threshold(deletes: Seq<BlockView>, inserts: Seq<BlockView>)
    ensures
        replacements_reach_threshold(pair_zone_spec(deletes, inserts)),
{
    let p = pairing(deletes, inserts, deletes.len());
    lemma_pairing_in_bounds(deletes, inserts, deletes.len());
    lemma_pairing_scores(deletes, inserts, deletes.len());
    lemma_unused_inserts_are_inserts(inserts, p.1, inserts.len());
    let out = pair_zone_spec(deletes, inserts);
    let n = deletes.len() as int;
    assert forall|k: int| 0 <= k < out.len() implies match #[trigger] out[k] {
        BlockOpView::Replace(a, b) => similarity_spec(a.text, b.text).spec_reaches_threshold(),
        _ => true,
    } by {
        if k < n {
            match p.0[k] {
                Some(j) => {},
                None => {},
            }
        } else {
            assert(out[k] == unused_inserts(inserts, p.1, inserts.len())[k - n]);
        }
    }
}

proof fn lemma_match_from_reaches(ops: Seq<BlockOpView>, i: nat)
    requires
        i <= ops.len(),
        replacements_reach_threshold(ops),
    ensures
        replacements_reach_threshold(match_from(ops, i)),
    decreases ops.len() - i,
{
    if i < ops.len() {
        if is_block_change(ops[i as int]) {
            lemma_change_run_end_bounds(ops, i);
            let next = change_run_end(ops, i);
            let zone = ops.subrange(i as int, next as int);
            lemma_match_from_reaches(ops, next);
            law_pair_zone_reaches_threshold(zone_deletes(zone), zone_inserts(zone));
            let a = pair_zone_spec(zone_deletes(zone), zone_inserts(zone));
            let b = match_from(ops, next);
            assert forall|k: int| 0 <= k < (a + b).len() implies match #[trigger] (a + b)[k] {
                BlockOpView::Replace(x, y) => similarity_spec(x.text, y.text).spec_reaches_threshold(),
                _ => true,
            } by {
                if k < a.len() {
                    assert((a + b)[k] == a[k]);
                } else {
                    assert((a + b)[k] == b[k - a.len()]);
                }
            }
        } else {
            lemma_match_from_reaches(ops, i + 1);
            let a = seq![ops[i as int]];
            let b = match_from(ops, i + 1);
            assert forall|k: int| 0 <= k < (a + b).len() implies match #[trigger] (a + b)[k] {
                BlockOpView::Replace(x, y) => similarity_spec(x.text, y.text).spec_reaches_threshold(),
                _ => true,
            } by {
                if k < a.len() {
                    assert((a + b)[k] == ops[i as int]);
                } else {
                    assert((a + b)[k] == b[k - a.len()]);
                }
            }
        }
    }
}

/// Matching edit zones only creates replacements whose similarity reaches
/// the threshold.
pub proof fn law_match_replacements_reach_threshold(ops: Seq<BlockOpView>)
    requires
        replacements_reach_threshold(ops),
    ensures
        replacements_reach_threshold(match_from(ops, 0)),
{
    lemma_match_from_reaches(ops, 0);
}


/// The operation that pairing gives delete `i`.
pub open spec fn paired_op(deletes: Seq<BlockView>, inserts: Seq<BlockView>, p: Seq<Option<int>>, i: int) -> BlockOpView {
    match p[i] {
        Some(j) => BlockOpView::Replace(deletes[i], inserts[j]),
        None => BlockOpView::Delete(deletes[i]),
    }
}

/// The operations of the first `k` deletes after pairing them.
pub open spec fn paired_prefix(deletes: Seq<BlockView>, inserts: Seq<BlockView>, k: nat) -> Seq<BlockOpView> {
    Seq::new(k, |i: int| paired_op(deletes, inserts, pairing(deletes, inserts, k).0, i))
}

proof fn lemma_unused_all(inserts: Seq<BlockView>, used: Seq<bool>, n: nat)
    requires
        n <= inserts.len(),
        n <= used.len(),
        forall|j: int| 0 <= j < n ==> !used[j],
    ensures
        new_side(unused_inserts(inserts, used, n)) == inserts.take(n as int),
    decreases n,
{
    if n > 0 {
        lemma_unused_all(inserts, used, (n - 1) as nat);
        let prev = unused_inserts(inserts, used, (n - 1) as nat);
        lemma_sides_append(prev, seq![BlockOpView::Insert(inserts[n - 1])]);
        lemma_side_single(BlockOpView::Insert(inserts[n - 1]));
        assert(prev.push(BlockOpView::Insert(inserts[n - 1])) =~= prev + seq![BlockOpView::Insert(inserts[n - 1])]);
        assert(inserts.take(n as int) =~= inserts.take(n - 1).push(inserts[n - 1]));
    }
}

proof fn lemma_unused_take(inserts: Seq<BlockView>, used: Seq<bool>, n: nat, j: int)
    requires
        n <= inserts.len(),
        n <= used.len(),
        0 <= j < used.len(),
        !used[j],
    ensures
        new_side(unused_inserts(inserts, used, n)).to_multiset() == (if j < n {
            new_side(unused_inserts(inserts, used.update(j, true), n)).to_multiset().insert(inserts[j])
        } else {
            new_side(unused_inserts(inserts, used.update(j, true), n)).to_multiset()
        }),
    decreases n,
{
    broadcast use vstd::seq_lib::group_to_multiset_ensures;
    broadcast use vstd::multiset::group_multiset_axioms;

    let used2 = used.update(j, true);
    if n == 0 {
    } else {
        lemma_unused_take(inserts, used, (n - 1) as nat, j);
        let a = unused_inserts(inserts, used, (n - 1) as nat);
        let b = unused_inserts(inserts, used2, (n - 1) as nat);
        let x = BlockOpView::Insert(inserts[n - 1]);
        lemma_side_single(x);
        lemma_sides_append(a, seq![x]);
        lemma_sides_append(b, seq![x]);
        assert(a.push(x) =~= a + seq![x]);
        assert(b.push(x) =~= b + seq![x]);
        assert(new_side(a.push(x)) =~= new_side(a).push(inserts[n - 1]));
        assert(new_side(b.push(x)) =~= new_side(b).push(inserts[n - 1]));
        if n - 1 == j {
            assert(used2[n - 1]);
            assert(new_side(unused_inserts(inserts, used, n)).to_multiset() =~= new_side(
                unused_inserts(inserts, used2, n),
            ).to_multiset().insert(inserts[j]));
        } else {
            assert(used2[n - 1] == used[n - 1]);
            if !used[n - 1] {
                assert(new_side(unused_inserts(inserts, used, n)).to_multiset() =~= new_side(a).to_multiset().insert(
                    inserts[n - 1],
                ));
                assert(new_side(unused_inserts(inserts, used2, n)).to_multiset() =~= new_side(b).to_multiset().insert(
                    inserts[n - 1],
                ));
            }
            if j < n {
                assert(new_side(unused_inserts(inserts, used, n)).to_multiset() =~= new_side(
                    unused_inserts(inserts, used2, n),
                ).to_multiset().insert(inserts[j]));
            } else {
                assert(new_side(unused_inserts(inserts, used, n)).to_multiset() =~= new_side(
                    unused_inserts(inserts, used2, n),
                ).to_multiset());
            }
        }
    }
}

proof fn lemma_pairing_new_side(deletes: Seq<BlockView>, inserts: Seq<BlockView>, k: nat)
    requires
        k <= deletes.len(),
    ensures
        new_side(paired_prefix(deletes, inserts, k)).to_multiset().add(
            new_side(unused_inserts(inserts, pairing(deletes, inserts, k).1, inserts.len())).to_multiset(),
        ) == inserts.to_multiset(),
    decreases k,
{
    broadcast use vstd::seq_lib::group_to_multiset_ensures;
    broadcast use vstd::multiset::group_multiset_axioms;

    lemma_pairing_in_bounds(deletes, inserts, k);
    if k == 0 {
        let used = pairing(deletes, inserts, 0).1;
        lemma_unused_all(inserts, used, inserts.len());
        assert(inserts.take(inserts.len() as int) =~= inserts);
        assert(paired_prefix(deletes, inserts, 0) =~= Seq::<BlockOpView>::empty());
        assert(new_side(Seq::<BlockOpView>::empty()) =~= Seq::<BlockView>::empty());
        assert(Seq::<BlockView>::empty().to_multiset() =~= Multiset::<BlockView>::empty());
        assert(Multiset::<BlockView>::empty().add(inserts.to_multiset()) =~= inserts.to_multiset());
    } else {
        lemma_pairing_new_side(deletes, inserts, (k - 1) as nat);
        lemma_pairing_in_bounds(deletes, inserts, (k - 1) as nat);
        let prev = pairing(deletes, inserts, (k - 1) as nat);
        let cur = pairing(deletes, inserts, k);
        let pre = paired_prefix(deletes, inserts, (k - 1) as nat);
        let op = paired_op(deletes, inserts, cur.0, k - 1);
        assert(paired_prefix(deletes, inserts, k) =~= pre.push(op)) by {
            assert forall|i: int| 0 <= i < k - 1 implies cur.0[i] == prev.0[i] by {}
        }
        lemma_sides_append(pre, seq![op]);
        lemma_side_single(op);
        assert(pre.push(op) =~= pre + seq![op]);
        lemma_best_candidate(deletes[k - 1].text, inserts, prev.1, inserts.len());
        let n = inserts.len();
        match cur.0[k - 1] {
            Some(j) => {
                assert(!prev.1[j]);
                assert(cur.1 == prev.1.update(j, true));
                lemma_unused_take(inserts, prev.1, n, j);
                assert(new_side(pre.push(op)) =~= new_side(pre).push(inserts[j]));
                let a = new_side(pre).to_multiset();
                let u = new_side(unused_inserts(inserts, cur.1, n)).to_multiset();
                assert(new_side(pre.push(op)).to_multiset() =~= a.insert(inserts[j]));
                assert(a.insert(inserts[j]).add(u) =~= a.add(u.insert(inserts[j])));
            },
            None => {
                assert(cur.1 == prev.1);
                assert(new_side(pre.push(op)) =~= new_side(pre));
            },
        }
    }
}

proof fn lemma_pair_zone_new_side(deletes: Seq<BlockView>, inserts: Seq<BlockView>)
    ensures
        new_side(pair_zone_spec(deletes, inserts)).to_multiset() == inserts.to_multiset(),
{
    broadcast use vstd::seq_lib::lemma_multiset_commutative;

    let p = pairing(deletes, inserts, deletes.len());
    lemma_pairing_new_side(deletes, inserts, deletes.len());
    let first = paired_prefix(deletes, inserts, deletes.len());
    let rest = unused_inserts(inserts, p.1, inserts.len());
    assert(pair_zone_spec(deletes, inserts) =~= first + rest);
    lemma_sides_append(first, rest);
    assert((new_side(first) + new_side(rest)).to_multiset() =~= new_side(first).to_multiset().add(
        new_side(rest).to_multiset(),
    ));
}

proof fn lemma_zone_new_side(zone: Seq<BlockOpView>)
    requires
        forall|k: int| 0 <= k < zone.len() ==> is_block_change(#[trigger] zone[k]),
    ensures
        new_side(zone) == zone_inserts(zone),
    decreases zone.len(),
{
    if zone.len() > 0 {
        let init = zone.drop_last();
        lemma_zone_new_side(init);
        assert(init + seq![zone.last()] =~= zone);
        lemma_sides_append(init, seq![zone.last()]);
        lemma_side_single(zone.last());
        assert(is_block_change(zone[zone.len() - 1]));
        assert(new_side(zone) =~= zone_inserts(zone));
    }
}

proof fn lemma_match_from_new_side(ops: Seq<BlockOpView>, i: nat)
    requires
        i <= ops.len(),
    ensures
        new_side(match_from(ops, i)).to_multiset() == new_side(ops.subrange(i as int, ops.len() as int)).to_multiset(),
    decreases ops.len() - i,
{
    broadcast use vstd::seq_lib::lemma_multiset_commutative;

    let tail = ops.subrange(i as int, ops.len() as int);
    if i == ops.len() {
        assert(tail =~= Seq::<BlockOpView>::empty());
    } else if is_block_change(ops[i as int]) {
        lemma_change_run_end_bounds(ops, i);
        lemma_change_run(ops, i);
        let next = change_run_end(ops, i);
        let zone = ops.subrange(i as int, next as int);
        let after = ops.subrange(next as int, ops.len() as int);
        lemma_match_from_new_side(ops, next);
        lemma_pair_zone_new_side(zone_deletes(zone), zone_inserts(zone));
        lemma_zone_new_side(zone);
        let a = pair_zone_spec(zone_deletes(zone), zone_inserts(zone));
        lemma_sides_append(a, match_from(ops, next));
        assert(zone + after =~= tail);
        lemma_sides_append(zone, after);
        assert((new_side(a) + new_side(match_from(ops, next))).to_multiset() =~= new_side(a).to_multiset().add(
            new_side(match_from(ops, next)).to_multiset(),
        ));
        assert((new_side(zone) + new_side(after)).to_multiset() =~= new_side(zone).to_multiset().add(
            new_side(after).to_multiset(),
        ));
    } else {
        let a = seq![ops[i as int]];
        let after = ops.subrange((i + 1) as int, ops.len() as int);
        lemma_match_from_new_side(ops, i + 1);
        lemma_sides_append(a, match_from(ops, i + 1));
        assert(a + after =~= tail);
        lemma_sides_append(a, after);
        assert((new_side(a) + new_side(match_from(ops, i + 1))).to_multiset() =~= new_side(a).to_multiset().add(
            new_side(match_from(ops, i + 1)).to_multiset(),
        ));
        assert((new_side(a) + new_side(after)).to_multiset() =~= new_side(a).to_multiset().add(
            new_side(after).to_multiset(),
        ));
    }
}

/// Matching edit zones loses and duplicates no new block: the new blocks
/// that the operations read are those of the unmatched operations, as a
/// multiset (a paired insert moves up to its delete).
pub proof fn law_match_keeps_new_blocks(ops: Seq<BlockOpView>)
    ensures
        new_side(match_from(ops, 0)).to_multiset() == new_side(ops).to_multiset(),
{
    lemma_match_from_new_side(ops, 0);
    assert(ops.subrange(0, ops.len() as int) =~= ops);
}

} // verus!
