//! Normalisation of the children of a content sequence.
//!
//! A sequence is seen here as the kinds of its children, and the result is a
//! plan in terms of child positions; the caller rebuilds the content from it.
//!
//! - Runs of bare list, enum or term items (with the spaces and paragraph
//!   breaks between them) are grouped into one container each, as Typst's
//!   evaluator sometimes emits items as siblings instead of inside their
//!   container.
//! - Neighbouring text and space children are merged into one text, so that
//!   equal paragraphs split into different text pieces compare equal.

use vstd::prelude::*;

use crate::text::push_char;

verus! {

/// A child of a sequence as list grouping sees it.
#[derive(Clone, Copy, Debug, PartialEq, Eq, Structural)]
pub enum RunChildKind {
    ListItem,
    EnumItem,
    TermItem,
    /// A space or a paragraph break: swallowed inside a run of items.
    Separator,
    Other,
}

/// The container a grouped run becomes, or a child kept as it is.
#[derive(Clone, Copy, Debug, PartialEq, Eq, Structural)]
pub enum GroupKind {
    Kept,
    List,
    Enum,
    Terms,
}

/// One child of the grouped sequence: a child kept at its position, or a
/// container holding the items at the given positions (the container takes
/// the span of its first item).
#[derive(Debug)]
pub struct GroupedChild {
    pub kind: GroupKind,
    pub positions: Vec<usize>,
}

impl View for GroupedChild {
    type V = (GroupKind, Seq<usize>);

    open spec fn view(&self) -> (GroupKind, Seq<usize>) {
        (self.kind, self.positions@)
    }
}

/// The views of grouped children.
pub open spec fn group_views(groups: Seq<GroupedChild>) -> Seq<(GroupKind, Seq<usize>)> {
    groups.map_values(|g: GroupedChild| g@)
}

/// The item kind that starts a run, with its container.
pub open spec fn container_of(kind: RunChildKind) -> GroupKind {
    match kind {
        RunChildKind::ListItem => GroupKind::List,
        RunChildKind::EnumItem => GroupKind::Enum,
        RunChildKind::TermItem => GroupKind::Terms,
        _ => GroupKind::Kept,
    }
}

/// Whether the child starts a run of items.
pub open spec fn is_item(kind: RunChildKind) -> bool {
    kind == RunChildKind::ListItem || kind == RunChildKind::EnumItem || kind == RunChildKind::TermItem
}

/// The end of the run of `item` children and separators from `i` on.
pub open spec fn run_end(kinds: Seq<RunChildKind>, item: RunChildKind, i: nat) -> nat
    decreases kinds.len() - i,
{
    if i < kinds.len() && (kinds[i as int] == item || kinds[i as int] == RunChildKind::Separator) {
        run_end(kinds, item, i + 1)
    } else {
        i
    }
}

/// The positions in `start..end` that hold `item` children.
pub open spec fn run_positions(kinds: Seq<RunChildKind>, item: RunChildKind, start: nat, end: nat) -> Seq<usize>
    decreases end,
{
    if end <= start {
        Seq::empty()
    } else {
        let before = run_positions(kinds, item, start, (end - 1) as nat);
        if kinds[end - 1] == item {
            before.push((end - 1) as usize)
        } else {
            before
        }
    }
}

/// The grouping of the children from position `i` on: a run of items of one
/// kind, with the separators inside and after it, becomes one container of
/// those items; any other child is kept.
pub open spec fn grouping(kinds: Seq<RunChildKind>, i: nat) -> Seq<(GroupKind, Seq<usize>)>
    decreases kinds.len() - i,
{
    if i >= kinds.len() {
        Seq::empty()
    } else if is_item(kinds[i as int]) {
        let item = kinds[i as int];
        let end = run_end(kinds, item, i + 1);
        proof {
            lemma_run_end_bounds(kinds, item, i + 1);
        }
        seq![(container_of(item), run_positions(kinds, item, i, end))] + grouping(kinds, end)
    } else {
        seq![(GroupKind::Kept, seq![i as usize])] + grouping(kinds, i + 1)
    }
}

pub proof fn lemma_run_end_bounds(kinds: Seq<RunChildKind>, item: RunChildKind, i: nat)
    ensures
        i <= run_end(kinds, item, i),
        i <= kinds.len() ==> run_end(kinds, item, i) <= kinds.len(),
    decreases kinds.len() - i,
{
    if i < kinds.len() && (kinds[i as int] == item || kinds[i as int] == RunChildKind::Separator) {
        lemma_run_end_bounds(kinds, item, i + 1);
    }
}

/// The positions of all groups, in order.
pub open spec fn flat_positions(groups: Seq<(GroupKind, Seq<usize>)>) -> Seq<usize>
    decreases groups.len(),
{
    if groups.len() == 0 {
        Seq::empty()
    } else {
        groups[0].1 + flat_positions(groups.drop_first())
    }
}

/// The positions are strictly increasing and lie in `lo..hi`.
pub open spec fn increasing_in(ps: Seq<usize>, lo: nat, hi: nat) -> bool {
    &&& forall|k: int| 0 <= k < ps.len() ==> lo <= #[trigger] ps[k] < hi
    &&& forall|a: int, b: int| 0 <= a < b < ps.len() ==> ps[a] < ps[b]
}

/// The item kind that a container holds.
pub open spec fn item_of(kind: GroupKind) -> RunChildKind {
    match kind {
        GroupKind::List => RunChildKind::ListItem,
        GroupKind::Enum => RunChildKind::EnumItem,
        GroupKind::Terms => RunChildKind::TermItem,
        GroupKind::Kept => RunChildKind::Other,
    }
}

/// A group is well formed: a kept child is one position; a container holds
/// one or more positions, all of its item kind.
pub open spec fn group_wf(kinds: Seq<RunChildKind>, g: (GroupKind, Seq<usize>)) -> bool {
    &&& g.1.len() >= 1
    &&& g.0 == GroupKind::Kept ==> g.1.len() == 1
    &&& g.0 != GroupKind::Kept ==> forall|k: int| 0 <= k < g.1.len() ==> kinds[#[trigger] g.1[k] as int] == item_of(g.0)
}

proof fn lemma_run_positions(kinds: Seq<RunChildKind>, item: RunChildKind, start: nat, end: nat)
    requires
        end <= kinds.len(),
        kinds.len() <= usize::MAX,
    ensures
        increasing_in(run_positions(kinds, item, start, end), start, if end >= start { end } else { start }),
        forall|j: nat| start <= j < end && kinds[j as int] == item ==> run_positions(kinds, item, start, end).contains(j as usize),
        forall|k: int| 0 <= k < run_positions(kinds, item, start, end).len() ==> kinds[#[trigger] run_positions(kinds, item, start, end)[k] as int] == item,
    decreases end,
{
    if end > start {
        lemma_run_positions(kinds, item, start, (end - 1) as nat);
        let before = run_positions(kinds, item, start, (end - 1) as nat);
        let now = run_positions(kinds, item, start, end);
        assert forall|j: nat| start <= j < end && kinds[j as int] == item implies now.contains(j as usize) by {
            if j < end - 1 {
                assert(before.contains(j as usize));
                let k = choose|k: int| 0 <= k < before.len() && before[k] == j as usize;
                assert(now[k] == j as usize);
            } else {
                assert(now[now.len() - 1] == j as usize);
            }
        }
        assert forall|k: int| 0 <= k < now.len() implies kinds[#[trigger] now[k] as int] == item by {
            if k < before.len() {
                assert(now[k] == before[k]);
            }
        }
    }
}

proof fn lemma_run_end(kinds: Seq<RunChildKind>, item: RunChildKind, i: nat)
    requires
        i <= kinds.len(),
    ensures
        i <= run_end(kinds, item, i) <= kinds.len(),
        forall|k: int| i <= k < run_end(kinds, item, i) ==> #[trigger] kinds[k] == item || kinds[k] == RunChildKind::Separator,
    decreases kinds.len() - i,
{
    if i < kinds.len() && (kinds[i as int] == item || kinds[i as int] == RunChildKind::Separator) {
        lemma_run_end(kinds, item, i + 1);
    }
}

proof fn lemma_grouping(kinds: Seq<RunChildKind>, i: nat)
    requires
        i <= kinds.len(),
        kinds.len() <= usize::MAX,
    ensures
        increasing_in(flat_positions(grouping(kinds, i)), i, kinds.len()),
        forall|j: nat| i <= j < kinds.len() && kinds[j as int] != RunChildKind::Separator ==> flat_positions(grouping(kinds, i)).contains(j as usize),
        forall|g: int| 0 <= g < grouping(kinds, i).len() ==> group_wf(kinds, #[trigger] grouping(kinds, i)[g]),
    decreases kinds.len() - i,
{
    if i < kinds.len() {
        let gs = grouping(kinds, i);
        let item = kinds[i as int];
        let (head, next): ((GroupKind, Seq<usize>), nat) = if is_item(item) {
            let end = run_end(kinds, item, i + 1);
            ((container_of(item), run_positions(kinds, item, i, end)), end)
        } else {
            ((GroupKind::Kept, seq![i as usize]), i + 1)
        };
        if is_item(item) {
            lemma_run_end(kinds, item, i + 1);
            lemma_run_positions(kinds, item, i, next);
        }
        lemma_grouping(kinds, next);
        let rest = grouping(kinds, next);
        assert(gs == seq![head] + rest);
        assert(gs.drop_first() =~= rest);
        let f = flat_positions(gs);
        let fr = flat_positions(rest);
        assert(f == head.1 + fr);
        assert(increasing_in(head.1, i, next));
        assert forall|a: int, b: int| 0 <= a < b < f.len() implies f[a] < f[b] by {
            if b < head.1.len() {
            } else if a >= head.1.len() {
                assert(f[a] == fr[a - head.1.len()]);
                assert(f[b] == fr[b - head.1.len()]);
            } else {
                assert(f[b] == fr[b - head.1.len()]);
            }
        }
        assert forall|k: int| 0 <= k < f.len() implies i <= #[trigger] f[k] < kinds.len() by {
            if k >= head.1.len() {
                assert(f[k] == fr[k - head.1.len()]);
            }
        }
        assert forall|j: nat| i <= j < kinds.len() && kinds[j as int] != RunChildKind::Separator implies f.contains(j as usize) by {
            if j < next {
                if is_item(item) {
                    assert(kinds[j as int] == item) by {
                        if j > i {
                            assert(kinds[j as int] == item || kinds[j as int] == RunChildKind::Separator);
                        }
                    }
                    assert(head.1.contains(j as usize));
                } else {
                    assert(j == i);
                    assert(head.1[0] == j as usize);
                }
                let k = choose|k: int| 0 <= k < head.1.len() && head.1[k] == j as usize;
                assert(f[k] == j as usize);
            } else {
                assert(fr.contains(j as usize));
                let k = choose|k: int| 0 <= k < fr.len() && fr[k] == j as usize;
                assert(f[k + head.1.len()] == j as usize);
            }
        }
        assert forall|g: int| 0 <= g < gs.len() implies group_wf(kinds, #[trigger] gs[g]) by {
            if g > 0 {
                assert(gs[g] == rest[g - 1]);
            } else if is_item(item) {
                assert(head.1.contains(i as usize));
            }
        }
    }
}

/// The grouping keeps the children in order and drops nothing but
/// separators: its positions are strictly increasing, and every child that
/// is not a space or paragraph break is in one group. A kept child is alone
/// in its group; a container holds one or more items, all of its kind.
pub proof fn law_grouping_keeps_children(kinds: Seq<RunChildKind>)
    requires
        kinds.len() <= usize::MAX,
    ensures
        increasing_in(flat_positions(grouping(kinds, 0)), 0, kinds.len()),
        forall|j: nat| j < kinds.len() && kinds[j as int] != RunChildKind::Separator ==> flat_positions(grouping(kinds, 0)).contains(j as usize),
        forall|g: int| 0 <= g < grouping(kinds, 0).len() ==> group_wf(kinds, #[trigger] grouping(kinds, 0)[g]),
{
    lemma_grouping(kinds, 0);
}

/// Collects the run of `item` children that starts at `start`.
fn collect_run(kinds: &[RunChildKind], start: usize, item: RunChildKind) -> (run: (Vec<usize>, usize))
    requires
        start < kinds@.len(),
        kinds@[start as int] == item,
    ensures
        run.1 == run_end(kinds@, item, start as nat + 1),
        run.0@ == run_positions(kinds@, item, start as nat, run.1 as nat),
        start < run.1 <= kinds@.len(),
{
    let n = kinds.len();
    let mut positions: Vec<usize> = Vec::new();
    positions.push(start);
    let mut index = start + 1;
    proof {
        assert(run_positions(kinds@, item, start as nat, start as nat) =~= Seq::<usize>::empty());
        assert(positions@ =~= run_positions(kinds@, item, start as nat, index as nat));
    }
    while index < kinds.len() && (kinds[index] == item || kinds[index] == RunChildKind::Separator)
        invariant
            start < index <= kinds@.len(),
            run_end(kinds@, item, index as nat) == run_end(kinds@, item, start as nat + 1),
            positions@ == run_positions(kinds@, item, start as nat, index as nat),
        decreases kinds@.len() - index,
    {
        if kinds[index] == item {
            positions.push(index);
        }
        index += 1;
    }
    (positions, index)
}

/// Groups runs of bare list, enum and term items; see [`grouping`].
pub fn group_list_item_runs(kinds: &[RunChildKind]) -> (groups: Vec<GroupedChild>)
    ensures
        group_views(groups@) == grouping(kinds@, 0),
{
    let mut groups: Vec<GroupedChild> = Vec::new();
    let mut index: usize = 0;
    while index < kinds.len()
        invariant
            index <= kinds@.len(),
            group_views(groups@) + grouping(kinds@, index as nat) == grouping(kinds@, 0),
        decreases kinds@.len() - index,
    {
        let kind = kinds[index];
        let ghost before = group_views(groups@);
        let container = match kind {
            RunChildKind::ListItem => GroupKind::List,
            RunChildKind::EnumItem => GroupKind::Enum,
            RunChildKind::TermItem => GroupKind::Terms,
            _ => GroupKind::Kept,
        };
        if container == GroupKind::Kept {
            let mut positions: Vec<usize> = Vec::new();
            positions.push(index);
            groups.push(GroupedChild { kind: GroupKind::Kept, positions });
            assert(group_views(groups@) =~= before.push((GroupKind::Kept, seq![index as usize])));
            index += 1;
        } else {
            let (positions, end) = collect_run(kinds, index, kind);
            let group = GroupedChild { kind: container, positions };
            groups.push(group);
            assert(group_views(groups@) =~= before.push(group@));
            index = end;
        }
        assert(group_views(groups@) + grouping(kinds@, index as nat) =~= grouping(kinds@, 0));
    }
    groups
}

// ---------------------------------------------------------------------------
// Text runs
// ---------------------------------------------------------------------------

/// A child of a sequence as text-run merging sees it.
#[derive(Debug)]
pub enum TextPiece {
    /// A text element with its text.
    Text(String),
    /// A space element.
    Space,
    /// Any other child, at its position.
    Other(usize),
}

/// A child of the merged sequence: a merged text, or the child at a position.
#[derive(Debug)]
pub enum MergedChild {
    Text(String),
    Kept(usize),
}

/// A merged child as plain values.
pub enum MergedView {
    Text(Seq<char>),
    Kept(nat),
}

impl View for MergedChild {
    type V = MergedView;

    open spec fn view(&self) -> MergedView {
        match self {
            MergedChild::Text(t) => MergedView::Text(t@),
            MergedChild::Kept(p) => MergedView::Kept(*p as nat),
        }
    }
}

/// A text piece as plain values: its text (a space is one ` `), or `None`
/// for another child.
pub open spec fn piece_text(piece: TextPiece) -> Option<Seq<char>> {
    match piece {
        TextPiece::Text(t) => Some(t@),
        TextPiece::Space => Some(seq![' ']),
        TextPiece::Other(_) => None,
    }
}

/// The merge state after the first `n` pieces: the children emitted so far
/// and the text still pending.
pub open spec fn merge_state(pieces: Seq<TextPiece>, n: nat) -> (Seq<MergedView>, Seq<char>)
    decreases n,
{
    if n == 0 || n > pieces.len() {
        (Seq::empty(), Seq::empty())
    } else {
        let (out, pending) = merge_state(pieces, (n - 1) as nat);
        match pieces[n - 1] {
            TextPiece::Text(t) => (out, pending + t@),
            TextPiece::Space => (out, pending.push(' ')),
            TextPiece::Other(p) => (flush_pending(out, pending).push(MergedView::Kept(p as nat)), Seq::empty()),
        }
    }
}

/// The pending text emitted as one text child, if there is any.
pub open spec fn flush_pending(out: Seq<MergedView>, pending: Seq<char>) -> Seq<MergedView> {
    if pending.len() > 0 {
        out.push(MergedView::Text(pending))
    } else {
        out
    }
}

/// The merged children: each maximal run of text and space children becomes
/// one text (spaces as ` `), empty runs vanish, other children are kept.
pub open spec fn merged_text_runs(pieces: Seq<TextPiece>) -> Seq<MergedView> {
    let (out, pending) = merge_state(pieces, pieces.len());
    flush_pending(out, pending)
}

/// The views of merged children.
pub open spec fn merged_views(children: Seq<MergedChild>) -> Seq<MergedView> {
    children.map_values(|c: MergedChild| c@)
}

fn flush_text(children: &mut Vec<MergedChild>, text: &mut String)
    ensures
        merged_views(final(children)@) == flush_pending(merged_views(old(children)@), old(text)@),
        final(text)@ == Seq::<char>::empty(),
{
    if text.unicode_len() > 0 {
        let t = text.clone();
        children.push(MergedChild::Text(t));
        *text = String::new();
        assert(merged_views(final(children)@) =~= flush_pending(merged_views(old(children)@), old(text)@));
    } else {
        *text = String::new();
        assert(merged_views(final(children)@) =~= flush_pending(merged_views(old(children)@), old(text)@));
    }
}

/// Merges neighbouring text and space children; see [`merged_text_runs`].
pub fn normalize_text_runs(pieces: &[TextPiece]) -> (children: Vec<MergedChild>)
    ensures
        merged_views(children@) == merged_text_runs(pieces@),
{
    let mut children: Vec<MergedChild> = Vec::new();
    let mut text = String::new();
    let mut i: usize = 0;
    while i < pieces.len()
        invariant
            i <= pieces@.len(),
            merge_state(pieces@, i as nat) == (merged_views(children@), text@),
        decreases pieces@.len() - i,
    {
        match &pieces[i] {
            TextPiece::Text(t) => {
                text.append(t.as_str());
            },
            TextPiece::Space => {
                push_char(&mut text, ' ');
            },
            TextPiece::Other(p) => {
                flush_text(&mut children, &mut text);
                let ghost before = merged_views(children@);
                children.push(MergedChild::Kept(*p));
                assert(merged_views(children@) =~= before.push(MergedView::Kept(*p as nat)));
            },
        }
        i += 1;
    }
    flush_text(&mut children, &mut text);
    children
}


// ---------------------------------------------------------------------------
// Merged text runs keep the text and leave no neighbouring texts
// ---------------------------------------------------------------------------

/// A character of text, by its code point, or a child kept at a position.
pub enum StreamItem {
    Letter(int),
    Mark(nat),
}

/// Characters as stream items.
pub open spec fn char_items(cs: Seq<char>) -> Seq<StreamItem>
    decreases cs.len(),
{
    if cs.len() == 0 {
        Seq::empty()
    } else {
        char_items(cs.drop_last()).push(StreamItem::Letter(cs.last() as int))
    }
}

/// The stream of the children of a sequence: the characters of text and
/// space children (a space as ` `), and a mark for every other child.
pub open spec fn pieces_stream(pieces: Seq<TextPiece>) -> Seq<StreamItem>
    decreases pieces.len(),
{
    if pieces.len() == 0 {
        Seq::empty()
    } else {
        pieces_stream(pieces.drop_last()) + match pieces.last() {
            TextPiece::Text(t) => char_items(t@),
            TextPiece::Space => seq![StreamItem::Letter(' ' as int)],
            TextPiece::Other(p) => seq![StreamItem::Mark(p as nat)],
        }
    }
}

/// The stream of merged children.
pub open spec fn merged_stream(children: Seq<MergedView>) -> Seq<StreamItem>
    decreases children.len(),
{
    if children.len() == 0 {
        Seq::empty()
    } else {
        merged_stream(children.drop_last()) + match children.last() {
            MergedView::Text(t) => char_items(t),
            MergedView::Kept(p) => seq![StreamItem::Mark(p)],
        }
    }
}

/// No two neighbouring children are texts, and no text is empty.
pub open spec fn texts_separated(children: Seq<MergedView>) -> bool {
    &&& forall|k: int| 0 <= k < children.len() - 1 ==> !(#[trigger] children[k] is Text && children[k + 1] is Text)
    &&& forall|k: int| 0 <= k < children.len() ==> (#[trigger] children[k] matches MergedView::Text(t) ==> t.len() > 0)
}

proof fn lemma_char_items_add(a: Seq<char>, b: Seq<char>)
    ensures
        char_items(a + b) == char_items(a) + char_items(b),
    decreases b.len(),
{
    reveal_with_fuel(char_items, 2);
    if b.len() == 0 {
        assert(a + b =~= a);
        assert(char_items(a) + char_items(b) =~= char_items(a));
    } else {
        lemma_char_items_add(a, b.drop_last());
        assert((a + b).drop_last() =~= a + b.drop_last());
        assert((a + b).last() == b.last());
        let x = StreamItem::Letter(b.last() as int);
        assert(char_items(a + b) == char_items((a + b).drop_last()).push(x));
        assert(char_items(a + b) == char_items(a + b.drop_last()).push(x));
        assert(char_items(b) == char_items(b.drop_last()).push(x));
        assert(char_items(a + b) =~= char_items(a) + char_items(b));
    }
}

proof fn lemma_merged_stream_push(out: Seq<MergedView>, x: MergedView)
    ensures
        merged_stream(out.push(x)) == merged_stream(out) + match x {
            MergedView::Text(t) => char_items(t),
            MergedView::Kept(p) => seq![StreamItem::Mark(p)],
        },
{
    assert(out.push(x).drop_last() =~= out);
}

#[verifier::spinoff_prover]
#[verifier::rlimit(40)]
proof fn lemma_flush_pending(out: Seq<MergedView>, pending: Seq<char>)
    requires
        out.len() > 0 ==> out.last() is Kept,
        texts_separated(out),
    ensures
        texts_separated(flush_pending(out, pending)),
        merged_stream(flush_pending(out, pending)) == merged_stream(out) + char_items(pending),
{
    if pending.len() > 0 {
        let res = out.push(MergedView::Text(pending));
        lemma_merged_stream_push(out, MergedView::Text(pending));
        assert forall|k: int| 0 <= k < res.len() - 1 implies !(#[trigger] res[k] is Text && res[k + 1] is Text) by {
            if k < out.len() - 1 {
                assert(res[k] == out[k] && res[k + 1] == out[k + 1]);
            } else {
                assert(res[k] == out.last());
            }
        }
        assert forall|k: int| 0 <= k < res.len() implies (#[trigger] res[k] matches MergedView::Text(t) ==> t.len() > 0) by {
            if k < out.len() {
                assert(res[k] == out[k]);
            }
        }
    } else {
        assert(char_items(pending) =~= Seq::<StreamItem>::empty());
        assert(merged_stream(out) + char_items(pending) =~= merged_stream(out));
    }
}

proof fn lemma_push_kept(out: Seq<MergedView>, p: nat)
    requires
        texts_separated(out),
    ensures
        texts_separated(out.push(MergedView::Kept(p))),
        merged_stream(out.push(MergedView::Kept(p))) == merged_stream(out) + seq![StreamItem::Mark(p)],
{
    let res = out.push(MergedView::Kept(p));
    lemma_merged_stream_push(out, MergedView::Kept(p));
    assert forall|k: int| 0 <= k < res.len() - 1 implies !(#[trigger] res[k] is Text && res[k + 1] is Text) by {
        assert(res[k] == out[k]);
        if k + 1 < out.len() {
            assert(res[k + 1] == out[k + 1]);
        }
    }
    assert forall|k: int| 0 <= k < res.len() implies (#[trigger] res[k] matches MergedView::Text(t) ==> t.len() > 0) by {
        if k < out.len() {
            assert(res[k] == out[k]);
        }
    }
}

proof fn lemma_pieces_stream_push(pre: Seq<TextPiece>, cur: Seq<TextPiece>, x: TextPiece)
    requires
        cur == pre.push(x),
    ensures
        pieces_stream(cur) == pieces_stream(pre) + match x {
            TextPiece::Text(t) => char_items(t@),
            TextPiece::Space => seq![StreamItem::Letter(' ' as int)],
            TextPiece::Other(p) => seq![StreamItem::Mark(p as nat)],
        },
{
    assert(cur.drop_last() =~= pre);
}

#[verifier::spinoff_prover]
#[verifier::rlimit(40)]
proof fn lemma_merge_state(pieces: Seq<TextPiece>, n: nat)
    requires
        n <= pieces.len(),
    ensures
        merged_stream(merge_state(pieces, n).0) + char_items(merge_state(pieces, n).1)
            == pieces_stream(pieces.take(n as int)),
        merge_state(pieces, n).0.len() > 0 ==> merge_state(pieces, n).0.last() is Kept,
        texts_separated(merge_state(pieces, n).0),
    decreases n,
{
    if n == 0 {
        assert(pieces.take(0) =~= Seq::<TextPiece>::empty());
        assert(char_items(Seq::<char>::empty()) =~= Seq::<StreamItem>::empty());
        assert(merged_stream(Seq::<MergedView>::empty()) =~= Seq::<StreamItem>::empty());
    } else {
        lemma_merge_state(pieces, (n - 1) as nat);
        let (out, pending) = merge_state(pieces, (n - 1) as nat);
        let pre = pieces.take(n - 1);
        let cur = pieces.take(n as int);
        assert(cur =~= pre.push(pieces[n - 1]));
        lemma_pieces_stream_push(pre, cur, pieces[n - 1]);
        match pieces[n - 1] {
            TextPiece::Text(t) => {
                lemma_char_items_add(pending, t@);
            },
            TextPiece::Space => {
                lemma_char_items_add(pending, seq![' ']);
                assert(pending + seq![' '] =~= pending.push(' '));
                assert(seq![' '].drop_last() =~= Seq::<char>::empty());
                assert(char_items(Seq::<char>::empty()) == Seq::<StreamItem>::empty());
                assert(char_items(seq![' ']) == char_items(seq![' '].drop_last()).push(StreamItem::Letter(' ' as int)));
                assert(char_items(seq![' ']) =~= seq![StreamItem::Letter(' ' as int)]);
            },
            TextPiece::Other(p) => {
                lemma_flush_pending(out, pending);
                lemma_push_kept(flush_pending(out, pending), p as nat);
                assert(char_items(Seq::<char>::empty()) =~= Seq::<StreamItem>::empty());
            },
        }
    }
}

/// Merging text runs keeps every character and every other child in order
/// (the merged children read as the same stream as the pieces), and leaves
/// no two neighbouring texts and no empty text. So each maximal run of text
/// and space pieces becomes exactly one text, their concatenation, and two
/// sequences whose runs concatenate alike merge alike however the text was
/// split.
pub proof fn law_merged_runs_keep_text(pieces: Seq<TextPiece>)
    ensures
        merged_stream(merged_text_runs(pieces)) == pieces_stream(pieces),
        texts_separated(merged_text_runs(pieces)),
{
    let n = pieces.len();
    lemma_merge_state(pieces, n);
    assert(pieces.take(n as int) =~= pieces);
    let (out, pending) = merge_state(pieces, n);
    lemma_flush_pending(out, pending);
}

} // verus!
