//! The modification log: one entry per edit that changes visible text.

use vstd::prelude::*;

use crate::log_text::{
    collect_word_op_text, has_textual_word_change, join, log_entry, push_log_entry,
    selected_texts, textual_word_change, tokens_text,
};
use crate::tokens::{has_visible, op_views, OpKind, WordOp, WordOpView};
use crate::text::is_whitespace;

verus! {

/// What the log reads of the base content of a modified edit: its log text
/// and whether it is a figure caption.
pub struct LogBase {
    pub text: String,
    pub is_figure_caption: bool,
}

/// What the modification log reads of an edit's content.
pub enum EditLogContent {
    /// Inserted content, by its log text.
    Inserted(String),
    /// Deleted content, by its log text.
    Deleted(String),
    /// An opaque visual replaced by another.
    OpaqueReplacement,
    /// Content changed word by word.
    Modified { base: LogBase, word_ops: Vec<WordOp> },
    /// Edits nested inside a container.
    Nested(Vec<EditLogContent>),
}

/// The kind name of each edit content.
pub open spec fn kind_name(content: EditLogContent) -> Seq<char> {
    match content {
        EditLogContent::Inserted(_) => "inserted"@,
        EditLogContent::Deleted(_) => "deleted"@,
        EditLogContent::OpaqueReplacement => "opaque_replacement"@,
        EditLogContent::Modified { .. } => "modified"@,
        EditLogContent::Nested(_) => "nested"@,
    }
}

/// The kind name of an edit content.
pub fn edit_content_kind(content: &EditLogContent) -> (kind: &'static str)
    ensures
        kind@ == kind_name(*content),
{
    match content {
        EditLogContent::Inserted(_) => "inserted",
        EditLogContent::Deleted(_) => "deleted",
        EditLogContent::OpaqueReplacement => "opaque_replacement",
        EditLogContent::Modified { .. } => "modified",
        EditLogContent::Nested(_) => "nested",
    }
}

/// The text of the equal and inserted runs, joined by ` | `.
pub open spec fn new_runs_text(word_ops: Seq<WordOp>) -> Seq<char> {
    join(selected_texts(op_views(word_ops), seq![OpKind::Equal, OpKind::Insert], word_ops.len()), " | "@)
}

/// The text logged for a modified block: for a figure caption the text of
/// its equal and inserted runs when that is visible, else the base's log text.
pub open spec fn modified_text(base: LogBase, word_ops: Seq<WordOp>) -> Seq<char> {
    if base.is_figure_caption && has_visible(new_runs_text(word_ops)) {
        new_runs_text(word_ops)
    } else {
        base.text@
    }
}

fn text_has_visible(text: &String) -> (b: bool)
    ensures
        b == has_visible(text@),
{
    !crate::tokens::text_is_white(text)
}

/// The text logged for a modified block; see [`modified_text`].
pub fn modified_block_log_text(base: &LogBase, word_ops: &[WordOp]) -> (text: String)
    ensures
        text@ == modified_text(*base, word_ops@),
{
    if base.is_figure_caption {
        let kinds = [OpKind::Equal, OpKind::Insert];
        let text = collect_word_op_text(word_ops, &kinds);
        assert(kinds@ =~= seq![OpKind::Equal, OpKind::Insert]);
        if text_has_visible(&text) {
            return text;
        }
    }
    base.text.clone()
}


/// The token text of the runs of one kind, joined by ` | `.
pub open spec fn runs_text(word_ops: Seq<WordOp>, kind: OpKind) -> Seq<char> {
    join(selected_texts(op_views(word_ops), seq![kind], word_ops.len()), " | "@)
}

/// The log entries of an edit content: an insert or a delete of visible
/// text, a modification whose runs change visible text, an opaque
/// replacement, or the entries of the nested edits in order.
pub open spec fn content_log(content: EditLogContent, index: nat) -> Seq<char>
    decreases content, 0nat,
{
    match content {
        EditLogContent::Inserted(text) => if has_visible(text@) {
            log_entry(index, "insert"@, seq![("text"@, text@)])
        } else {
            Seq::empty()
        },
        EditLogContent::Deleted(text) => if has_visible(text@) {
            log_entry(index, "delete"@, seq![("text"@, text@)])
        } else {
            Seq::empty()
        },
        EditLogContent::OpaqueReplacement => log_entry(
            index,
            "modify"@,
            seq![
                ("block"@, "[opaque visual content]"@),
                ("deleted"@, "[old visual]"@),
                ("inserted"@, "[new visual]"@),
            ],
        ),
        EditLogContent::Modified { base, word_ops } => if textual_word_change(op_views(word_ops@)) {
            log_entry(
                index,
                "modify"@,
                seq![
                    ("block"@, modified_text(base, word_ops@)),
                    ("deleted"@, runs_text(word_ops@, OpKind::Delete)),
                    ("inserted"@, runs_text(word_ops@, OpKind::Insert)),
                ],
            )
        } else {
            Seq::empty()
        },
        EditLogContent::Nested(edits) => nested_log(edits@, index, edits@.len()),
    }
}

/// The log entries of the first `n` nested edits.
pub open spec fn nested_log(edits: Seq<EditLogContent>, index: nat, n: nat) -> Seq<char>
    decreases edits, n,
{
    if n == 0 || n > edits.len() {
        Seq::empty()
    } else {
        nested_log(edits, index, (n - 1) as nat) + content_log(edits[n - 1], index)
    }
}

/// Appends the log entries of an edit content; see [`content_log`].
pub fn log_edit_content(log: &mut String, content: &EditLogContent, index: usize)
    ensures
        final(log)@ == old(log)@ + content_log(*content, index as nat),
    decreases content,
{
    match content {
        EditLogContent::Inserted(text) => {
            if text_has_visible(text) {
                let fields = [("text", text.clone())];
                push_log_entry(log, index, "insert", &fields);
                assert(crate::log_text::field_views(fields@) =~= seq![("text"@, text@)]);
            }
        },
        EditLogContent::Deleted(text) => {
            if text_has_visible(text) {
                let fields = [("text", text.clone())];
                push_log_entry(log, index, "delete", &fields);
                assert(crate::log_text::field_views(fields@) =~= seq![("text"@, text@)]);
            }
        },
        EditLogContent::OpaqueReplacement => {
            let fields = [
                ("block", "[opaque visual content]".to_owned()),
                ("deleted", "[old visual]".to_owned()),
                ("inserted", "[new visual]".to_owned()),
            ];
            push_log_entry(log, index, "modify", &fields);
            assert(crate::log_text::field_views(fields@) =~= seq![
                ("block"@, "[opaque visual content]"@),
                ("deleted"@, "[old visual]"@),
                ("inserted"@, "[new visual]"@),
            ]);
        },
        EditLogContent::Modified { base, word_ops } => {
            if has_textual_word_change(word_ops.as_slice()) {
                let delete_kind = [OpKind::Delete];
                let insert_kind = [OpKind::Insert];
                assert(delete_kind@ =~= seq![OpKind::Delete]);
                assert(insert_kind@ =~= seq![OpKind::Insert]);
                let deletes = collect_word_op_text(word_ops.as_slice(), &delete_kind);
                let inserts = collect_word_op_text(word_ops.as_slice(), &insert_kind);
                let block = modified_block_log_text(base, word_ops.as_slice());
                let fields = [("block", block), ("deleted", deletes), ("inserted", inserts)];
                push_log_entry(log, index, "modify", &fields);
                assert(crate::log_text::field_views(fields@) =~= seq![
                    ("block"@, modified_text(*base, word_ops@)),
                    ("deleted"@, runs_text(word_ops@, OpKind::Delete)),
                    ("inserted"@, runs_text(word_ops@, OpKind::Insert)),
                ]);
            }
        },
        EditLogContent::Nested(edits) => {
            let ghost start = log@;
            let mut i: usize = 0;
            while i < edits.len()
                invariant
                    i <= edits@.len(),
                    *content == EditLogContent::Nested(*edits),
                    log@ == start + nested_log(edits@, index as nat, i as nat),
                decreases edits@.len() - i,
            {
                assert((*content)->Nested_0 == *edits);
                assert(decreases_to!(*content => (*content)->Nested_0));
                assert(decreases_to!(*edits => edits@));
                assert(decreases_to!(edits@ => edits@[i as int]));
                log_edit_content(log, &edits[i], index);
                i += 1;
                assert(log@ =~= start + nested_log(edits@, index as nat, i as nat));
            }
        },
    }
}


// ---------------------------------------------------------------------------
// The fields of a modify entry
// ---------------------------------------------------------------------------

/// The token texts of the operations of one kind, in order.
pub open spec fn kind_texts(ops: Seq<WordOpView>, kind: OpKind) -> Seq<Seq<char>> {
    ops.filter(|o: WordOpView| o.0 == kind).map_values(|o: WordOpView| tokens_text(o.1))
}

proof fn lemma_selected_one_kind(ops: Seq<WordOpView>, kind: OpKind, n: nat)
    requires
        n <= ops.len(),
    ensures
        selected_texts(ops, seq![kind], n) == kind_texts(ops.take(n as int), kind),
    decreases n,
{
    reveal(Seq::filter);
    let pred = |o: WordOpView| o.0 == kind;
    if n == 0 {
        assert(ops.take(0) =~= Seq::<WordOpView>::empty());
        assert(kind_texts(ops.take(0), kind) =~= Seq::<Seq<char>>::empty());
    } else {
        lemma_selected_one_kind(ops, kind, (n - 1) as nat);
        let pre = ops.take(n - 1);
        let cur = ops.take(n as int);
        assert(cur.drop_last() =~= pre);
        assert(cur.last() == ops[n - 1]);
        assert(seq![kind][0] == kind);
        assert(seq![kind].contains(ops[n - 1].0) <==> ops[n - 1].0 == kind);
        if ops[n - 1].0 == kind {
            assert(cur.filter(pred) == pre.filter(pred).push(ops[n - 1]));
            assert(kind_texts(cur, kind) =~= kind_texts(pre, kind).push(tokens_text(ops[n - 1].1)));
        } else {
            assert(cur.filter(pred) == pre.filter(pred));
        }
    }
}

/// A modify entry names the changed block, then lists the token text of
/// every deleted run of the word diff, in order, joined by ` | `, and the
/// token text of every inserted run likewise: the deleted field holds the
/// deleted runs and nothing else, the inserted field the inserted runs and
/// nothing else. Word diffs that change no visible text log nothing.
pub proof fn law_modify_entry_fields(base: LogBase, word_ops: Vec<WordOp>, index: nat)
    ensures
        textual_word_change(op_views(word_ops@)) ==> content_log(EditLogContent::Modified { base, word_ops }, index)
            == log_entry(
            index,
            "modify"@,
            seq![
                ("block"@, modified_text(base, word_ops@)),
                ("deleted"@, join(kind_texts(op_views(word_ops@), OpKind::Delete), " | "@)),
                ("inserted"@, join(kind_texts(op_views(word_ops@), OpKind::Insert), " | "@)),
            ],
        ),
        !textual_word_change(op_views(word_ops@)) ==> content_log(EditLogContent::Modified { base, word_ops }, index)
            == Seq::<char>::empty(),
{
    let ops = op_views(word_ops@);
    lemma_selected_one_kind(ops, OpKind::Delete, ops.len());
    lemma_selected_one_kind(ops, OpKind::Insert, ops.len());
    assert(ops.take(ops.len() as int) =~= ops);
}

/// The edits of one part of a diff result, with the index they are logged under.
pub struct LoggedEdits {
    pub index: usize,
    pub edits: Vec<EditLogContent>,
}

/// The log entries of the first `n` edits of a part.
pub open spec fn part_log(edits: Seq<EditLogContent>, index: nat, n: nat) -> Seq<char>
    decreases n,
{
    if n == 0 || n > edits.len() {
        Seq::empty()
    } else {
        part_log(edits, index, (n - 1) as nat) + content_log(edits[n - 1], index)
    }
}

/// The log entries of the first `n` parts.
pub open spec fn parts_log(parts: Seq<LoggedEdits>, n: nat) -> Seq<char>
    decreases n,
{
    if n == 0 || n > parts.len() {
        Seq::empty()
    } else {
        parts_log(parts, (n - 1) as nat) + part_log(parts[n - 1].edits@, parts[n - 1].index as nat, parts[n - 1].edits@.len())
    }
}

/// The modification log: a `generated_by` line, a blank line, then the
/// entries of every part in order (blocks, then page regions, then rendered
/// regions, as the caller lists them).
pub open spec fn modification_log_spec(generated_by: Seq<char>, parts: Seq<LoggedEdits>) -> Seq<char> {
    "generated_by: "@ + generated_by + "\n\n"@ + parts_log(parts, parts.len())
}

/// The modification log of a diff; see [`modification_log_spec`].
pub fn modification_log(generated_by: &str, parts: &[LoggedEdits]) -> (log: String)
    ensures
        log@ == modification_log_spec(generated_by@, parts@),
{
    let mut log = "generated_by: ".to_owned();
    log.append(generated_by);
    log.append("\n\n");
    let ghost head = log@;
    let mut p: usize = 0;
    while p < parts.len()
        invariant
            p <= parts@.len(),
            log@ == head + parts_log(parts@, p as nat),
        decreases parts@.len() - p,
    {
        let part = &parts[p];
        let ghost before = log@;
        let mut i: usize = 0;
        while i < part.edits.len()
            invariant
                i <= part.edits@.len(),
                log@ == before + part_log(part.edits@, part.index as nat, i as nat),
            decreases part.edits@.len() - i,
        {
            log_edit_content(&mut log, &part.edits[i], part.index);
            i += 1;
            assert(log@ =~= before + part_log(part.edits@, part.index as nat, i as nat));
        }
        p += 1;
        assert(log@ =~= head + parts_log(parts@, p as nat));
    }
    log
}


/// The header line of the modification log and the blank line after it.
pub open spec fn log_header(generated_by: Seq<char>) -> Seq<char> {
    "generated_by: "@ + generated_by + "\n\n"@
}

/// No edit of any part writes a log entry.
pub open spec fn no_logged_edit(parts: Seq<LoggedEdits>) -> bool {
    forall|p: int, k: int|
        0 <= p < parts.len() && 0 <= k < parts[p].edits@.len() ==> #[trigger] content_log(
            parts[p].edits@[k],
            parts[p].index as nat,
        ).len() == 0
}

proof fn lemma_part_log_empty(edits: Seq<EditLogContent>, index: nat, n: nat)
    requires
        forall|k: int| 0 <= k < edits.len() ==> #[trigger] content_log(edits[k], index).len() == 0,
    ensures
        part_log(edits, index, n) == Seq::<char>::empty(),
    decreases n,
{
    if n > 0 && n <= edits.len() {
        lemma_part_log_empty(edits, index, (n - 1) as nat);
        assert(content_log(edits[n - 1], index).len() == 0);
        assert(part_log(edits, index, n) =~= Seq::<char>::empty());
    }
}

proof fn lemma_parts_log_empty(parts: Seq<LoggedEdits>, n: nat)
    requires
        no_logged_edit(parts),
    ensures
        parts_log(parts, n) == Seq::<char>::empty(),
    decreases n,
{
    if n > 0 && n <= parts.len() {
        lemma_parts_log_empty(parts, (n - 1) as nat);
        let part = parts[n - 1];
        assert forall|k: int| 0 <= k < part.edits@.len() implies #[trigger] content_log(part.edits@[k], part.index as nat).len() == 0 by {
            assert(content_log(parts[n - 1].edits@[k], parts[n - 1].index as nat).len() == 0);
        }
        lemma_part_log_empty(part.edits@, part.index as nat, part.edits@.len());
        assert(parts_log(parts, n) =~= Seq::<char>::empty());
    }
}

/// The modification log starts with the `generated_by` line and a blank
/// line; when no edit of any part writes an entry, it is only that.
pub proof fn law_log_starts_with_header(generated_by: Seq<char>, parts: Seq<LoggedEdits>)
    ensures
        modification_log_spec(generated_by, parts).len() >= log_header(generated_by).len(),
        modification_log_spec(generated_by, parts).subrange(0, log_header(generated_by).len() as int)
            == log_header(generated_by),
        no_logged_edit(parts) ==> modification_log_spec(generated_by, parts) == log_header(generated_by),
{
    let log = modification_log_spec(generated_by, parts);
    let head = log_header(generated_by);
    assert(log =~= head + parts_log(parts, parts.len()));
    assert(log.subrange(0, head.len() as int) =~= head);
    if no_logged_edit(parts) {
        lemma_parts_log_empty(parts, parts.len());
        assert(log =~= head);
    }
}

} // verus!
