//! How word operations are drawn: the render policy shared by inline
//! content and Typst markup, and the markup itself.
//!
//! Deleted runs are struck through in red, inserted runs are coloured green.
//! In compact mode deleted runs are hidden and an insert next to a delete is
//! coloured blue. Outside compact mode a space is put before or after an
//! inserted run where its neighbour would otherwise glue to it.

use vstd::prelude::*;

use crate::text::{chars_of, is_ascii_punct, is_ascii_punctuation, is_white_space, is_whitespace, push_char};
use crate::tokens::{op_views, OpKind, Token, WordOp, WordOpView};

verus! {

// ---------------------------------------------------------------------------
// Colours
// ---------------------------------------------------------------------------

/// The colour of an inserted run.
#[derive(Clone, Copy, Debug, PartialEq, Eq, Structural)]
pub enum ChangeColor {
    Green,
    Blue,
}

/// The hexadecimal Typst colour of each change colour.
pub open spec fn hex_spec(color: ChangeColor) -> Seq<char> {
    match color {
        ChangeColor::Green => "#00b400"@,
        ChangeColor::Blue => "#0064dc"@,
    }
}

impl ChangeColor {
    /// The colour as a Typst hexadecimal colour string.
    pub fn typst_hex(self) -> (hex: &'static str)
        ensures
            hex@ == hex_spec(self),
    {
        match self {
            ChangeColor::Green => "#00b400",
            ChangeColor::Blue => "#0064dc",
        }
    }
}

// ---------------------------------------------------------------------------
// Separators
// ---------------------------------------------------------------------------

/// Two token runs would glue into one word: the last character of the left
/// run and the first of the right run are both neither white space nor ASCII
/// punctuation.
pub open spec fn needs_separator_spec(left: Seq<Token>, right: Seq<Token>) -> bool {
    &&& left.len() > 0
    &&& right.len() > 0
    &&& left.last().text@.len() > 0
    &&& right[0].text@.len() > 0
    &&& !is_white_space(left.last().text@.last())
    &&& !is_white_space(right[0].text@[0])
    &&& !is_ascii_punct(left.last().text@.last())
    &&& !is_ascii_punct(right[0].text@[0])
}

/// Whether a separator is needed between two token runs.
pub fn needs_separator(left: &[Token], right: &[Token]) -> (b: bool)
    ensures
        b == needs_separator_spec(left@, right@),
{
    if left.len() == 0 || right.len() == 0 {
        return false;
    }
    let left_chars = chars_of(left[left.len() - 1].text.as_str());
    let right_chars = chars_of(right[0].text.as_str());
    if left_chars.len() == 0 || right_chars.len() == 0 {
        return false;
    }
    let l = left_chars[left_chars.len() - 1];
    let r = right_chars[0];
    !is_whitespace(l) && !is_whitespace(r) && !is_ascii_punctuation(l) && !is_ascii_punctuation(r)
}

// ---------------------------------------------------------------------------
// Render runs
// ---------------------------------------------------------------------------

/// How one word operation is drawn.
#[derive(Clone, Copy, Debug)]
pub enum WordRenderRun<'a> {
    Equal(&'a [Token]),
    Insert {
        tokens: &'a [Token],
        color: ChangeColor,
        leading_separator: bool,
        trailing_separator: bool,
    },
    Delete { tokens: &'a [Token], visible: bool },
}

/// A render run as plain values.
pub enum RenderRunView {
    Equal(Seq<Token>),
    Insert { tokens: Seq<Token>, color: ChangeColor, leading_separator: bool, trailing_separator: bool },
    Delete { tokens: Seq<Token>, visible: bool },
}

impl<'a> View for WordRenderRun<'a> {
    type V = RenderRunView;

    open spec fn view(&self) -> RenderRunView {
        match *self {
            WordRenderRun::Equal(tokens) => RenderRunView::Equal(tokens@),
            WordRenderRun::Insert { tokens, color, leading_separator, trailing_separator } => {
                RenderRunView::Insert { tokens: tokens@, color, leading_separator, trailing_separator }
            },
            WordRenderRun::Delete { tokens, visible } => RenderRunView::Delete { tokens: tokens@, visible },
        }
    }
}

/// The tokens that an insert can glue to: those of an equal or a deleted run.
pub open spec fn glue_tokens(op: WordOpView) -> Option<Seq<Token>> {
    match op.0 {
        OpKind::Insert => None,
        _ => Some(op.1),
    }
}

/// Whether a separator goes between the run `a` and the inserted `tokens`,
/// `a` on the left when `before`.
pub open spec fn separator_next_to(a: WordOpView, tokens: Seq<Token>, before: bool) -> bool {
    match glue_tokens(a) {
        Some(t) => if before { needs_separator_spec(t, tokens) } else { needs_separator_spec(tokens, t) },
        None => false,
    }
}

/// How operation `i` of `ops` is drawn.
pub open spec fn render_run_spec(ops: Seq<WordOpView>, i: int, compact: bool) -> RenderRunView {
    let op = ops[i];
    match op.0 {
        OpKind::Equal => RenderRunView::Equal(op.1),
        OpKind::Delete => RenderRunView::Delete { tokens: op.1, visible: !compact },
        OpKind::Insert => {
            let has_prev = i > 0;
            let has_next = i + 1 < ops.len();
            let adjacent_delete = (has_prev && ops[i - 1].0 == OpKind::Delete) || (has_next && ops[i
                + 1].0 == OpKind::Delete);
            RenderRunView::Insert {
                tokens: op.1,
                color: if compact && adjacent_delete { ChangeColor::Blue } else { ChangeColor::Green },
                leading_separator: !compact && has_prev && separator_next_to(ops[i - 1], op.1, true),
                trailing_separator: !compact && has_next && separator_next_to(ops[i + 1], op.1, false),
            }
        },
    }
}

/// An operation right before or right after position `i` deletes.
pub open spec fn next_to_delete(ops: Seq<WordOpView>, i: int) -> bool {
    exists|j: int| 0 <= j < ops.len() && (j == i - 1 || j == i + 1) && (#[trigger] ops[j]).0 == OpKind::Delete
}

/// An inserted run is coloured blue exactly when compact substitutions are
/// drawn and a neighbouring operation deletes; otherwise it is green. So an
/// insert with no deleted neighbour is green in both modes, and outside
/// compact mode every insert is green.
pub proof fn law_insert_colour(ops: Seq<WordOpView>, i: int, compact: bool)
    requires
        0 <= i < ops.len(),
        ops[i].0 == OpKind::Insert,
    ensures
        render_run_spec(ops, i, compact) matches RenderRunView::Insert { color, .. }
            && (color == ChangeColor::Blue <==> compact && next_to_delete(ops, i))
            && (color == ChangeColor::Green <==> !(compact && next_to_delete(ops, i))),
{
    if next_to_delete(ops, i) {
        let j = choose|j: int| 0 <= j < ops.len() && (j == i - 1 || j == i + 1) && (#[trigger] ops[j]).0 == OpKind::Delete;
        assert(ops[j].0 == OpKind::Delete);
    } else {
        if i > 0 {
            assert(ops[i - 1].0 != OpKind::Delete);
        }
        if i + 1 < ops.len() {
            assert(ops[i + 1].0 != OpKind::Delete);
        }
    }
}

/// The tokens an insert can glue to, if the operation is an equal or deleted run.
fn tokens_beside_insert(op: &WordOp) -> (tokens: Option<&[Token]>)
    ensures
        match tokens {
            Some(t) => glue_tokens(op@) == Some(t@),
            None => glue_tokens(op@) is None,
        },
{
    match op {
        WordOp::Equal(tokens) | WordOp::Delete(tokens) => Some(tokens.as_slice()),
        _ => None,
    }
}

/// How each word operation is drawn; see [`render_run_spec`].
pub fn word_render_runs(word_ops: &[WordOp], compact: bool) -> (runs: Vec<WordRenderRun<'_>>)
    ensures
        runs@.len() == word_ops@.len(),
        forall|i: int| 0 <= i < runs@.len() ==> #[trigger] runs@[i]@ == render_run_spec(op_views(word_ops@), i, compact),
{
    let ghost ops = op_views(word_ops@);
    let n = word_ops.len();
    let mut runs: Vec<WordRenderRun<'_>> = Vec::new();
    let mut index: usize = 0;
    while index < n
        invariant
            n == word_ops@.len(),
            ops == op_views(word_ops@),
            index <= n,
            runs@.len() == index,
            forall|i: int| 0 <= i < index ==> #[trigger] runs@[i]@ == render_run_spec(ops, i, compact),
        decreases n - index,
    {
        let op = &word_ops[index];
        assert(op@ == ops[index as int]);
        let run = match op {
            WordOp::Equal(tokens) => WordRenderRun::Equal(tokens.as_slice()),
            WordOp::Delete(tokens) => WordRenderRun::Delete { tokens: tokens.as_slice(), visible: !compact },
            WordOp::Insert(tokens) => {
                let prev_delete = index > 0 && word_ops[index - 1].kind() == OpKind::Delete;
                let next_delete = index + 1 < n && word_ops[index + 1].kind() == OpKind::Delete;
                let leading = if !compact && index > 0 {
                    match tokens_beside_insert(&word_ops[index - 1]) {
                        Some(prev) => needs_separator(prev, tokens.as_slice()),
                        None => false,
                    }
                } else {
                    false
                };
                let trailing = if !compact && index + 1 < n {
                    match tokens_beside_insert(&word_ops[index + 1]) {
                        Some(next) => needs_separator(tokens.as_slice(), next),
                        None => false,
                    }
                } else {
                    false
                };
                WordRenderRun::Insert {
                    tokens: tokens.as_slice(),
                    color: if compact && (prev_delete || next_delete) {
                        ChangeColor::Blue
                    } else {
                        ChangeColor::Green
                    },
                    leading_separator: leading,
                    trailing_separator: trailing,
                }
            },
        };
        assert(run@ == render_run_spec(ops, index as int, compact));
        runs.push(run);
        index += 1;
    }
    runs
}


// ---------------------------------------------------------------------------
// Typst markup
// ---------------------------------------------------------------------------

/// The markup of the tokens' contents, one after the other.
pub open spec fn tokens_markup(tokens: Seq<Token>) -> Seq<char>
    decreases tokens.len(),
{
    if tokens.len() == 0 {
        Seq::empty()
    } else {
        tokens_markup(tokens.drop_last()) + tokens.last().markup@
    }
}

/// The markup of the tokens as drawn when changed, one after the other.
pub open spec fn tokens_render_markup(tokens: Seq<Token>) -> Seq<char>
    decreases tokens.len(),
{
    if tokens.len() == 0 {
        Seq::empty()
    } else {
        tokens_render_markup(tokens.drop_last()) + tokens.last().render_markup@
    }
}

/// A space when `b`, else nothing.
pub open spec fn space_if(b: bool) -> Seq<char> {
    if b { " "@ } else { Seq::empty() }
}

/// The markup of an inserted run: its tokens between optional separators.
pub open spec fn changed_tokens_markup(tokens: Seq<Token>, leading: bool, trailing: bool) -> Seq<char> {
    space_if(leading) + tokens_render_markup(tokens) + space_if(trailing)
}

/// The markup of one render run.
pub open spec fn run_markup(run: RenderRunView) -> Seq<char> {
    match run {
        RenderRunView::Equal(tokens) => tokens_markup(tokens),
        RenderRunView::Insert { tokens, color, leading_separator, trailing_separator } =>
            "#text(fill: rgb(\""@ + hex_spec(color) + "\"))["@
                + changed_tokens_markup(tokens, leading_separator, trailing_separator) + "]"@,
        RenderRunView::Delete { tokens, visible } => if visible {
            "#strike[#text(fill: rgb(\"#dc0000\"))["@ + tokens_render_markup(tokens) + "]]"@
        } else {
            Seq::empty()
        },
    }
}

/// The markup of the first `n` operations of `ops`.
pub open spec fn ops_markup(ops: Seq<WordOpView>, compact: bool, n: nat) -> Seq<char>
    decreases n,
{
    if n == 0 {
        Seq::empty()
    } else {
        ops_markup(ops, compact, (n - 1) as nat) + run_markup(render_run_spec(ops, n - 1, compact))
    }
}

/// The markup of a sequence of word operations.
pub open spec fn word_ops_markup(ops: Seq<WordOpView>, compact: bool) -> Seq<char> {
    ops_markup(ops, compact, ops.len())
}

/// The markup of tokens as drawn when changed.
pub fn tokens_typst_markup(tokens: &[Token]) -> (out: String)
    ensures
        out@ == tokens_render_markup(tokens@),
{
    let mut out = String::new();
    let mut i: usize = 0;
    while i < tokens.len()
        invariant
            i <= tokens@.len(),
            out@ == tokens_render_markup(tokens@.subrange(0, i as int)),
        decreases tokens@.len() - i,
    {
        out.append(tokens[i].render_markup.as_str());
        i += 1;
        assert(tokens@.subrange(0, i as int).drop_last() =~= tokens@.subrange(0, i - 1));
    }
    assert(tokens@.subrange(0, i as int) =~= tokens@);
    out
}

fn tokens_content_markup(out: &mut String, tokens: &[Token])
    ensures
        final(out)@ == old(out)@ + tokens_markup(tokens@),
{
    let ghost start = out@;
    let mut i: usize = 0;
    while i < tokens.len()
        invariant
            i <= tokens@.len(),
            out@ == start + tokens_markup(tokens@.subrange(0, i as int)),
        decreases tokens@.len() - i,
    {
        out.append(tokens[i].markup.as_str());
        i += 1;
        assert(tokens@.subrange(0, i as int).drop_last() =~= tokens@.subrange(0, i - 1));
        assert(out@ =~= start + tokens_markup(tokens@.subrange(0, i as int)));
    }
    assert(tokens@.subrange(0, i as int) =~= tokens@);
}

/// The markup of an inserted run with its optional separators.
pub fn changed_tokens_typst_markup(tokens: &[Token], leading_separator: bool, trailing_separator: bool) -> (text: String)
    ensures
        text@ == changed_tokens_markup(tokens@, leading_separator, trailing_separator),
{
    let mut text = String::new();
    if leading_separator {
        push_char(&mut text, ' ');
    }
    let body = tokens_typst_markup(tokens);
    text.append(body.as_str());
    if trailing_separator {
        push_char(&mut text, ' ');
    }
    proof {
        reveal_strlit(" ");
    }
    assert(text@ =~= changed_tokens_markup(tokens@, leading_separator, trailing_separator));
    text
}

fn push_run_markup(out: &mut String, run: WordRenderRun<'_>)
    ensures
        final(out)@ == old(out)@ + run_markup(run@),
{
    match run {
        WordRenderRun::Equal(tokens) => {
            tokens_content_markup(out, tokens);
        },
        WordRenderRun::Insert { tokens, color, leading_separator, trailing_separator } => {
            out.append("#text(fill: rgb(\"");
            out.append(color.typst_hex());
            out.append("\"))[");
            let changed = changed_tokens_typst_markup(tokens, leading_separator, trailing_separator);
            out.append(changed.as_str());
            out.append("]");
            assert(final(out)@ =~= old(out)@ + run_markup(run@));
        },
        WordRenderRun::Delete { tokens, visible } => {
            if visible {
                out.append("#strike[#text(fill: rgb(\"#dc0000\"))[");
                let body = tokens_typst_markup(tokens);
                out.append(body.as_str());
                out.append("]]");
                assert(final(out)@ =~= old(out)@ + run_markup(run@));
            } else {
                assert(final(out)@ =~= old(out)@ + run_markup(run@));
            }
        },
    }
}

/// The Typst markup of a sequence of word operations, drawn by
/// [`word_render_runs`].
pub fn word_ops_typst_markup(word_ops: &[WordOp], compact: bool) -> (out: String)
    ensures
        out@ == word_ops_markup(op_views(word_ops@), compact),
{
    let runs = word_render_runs(word_ops, compact);
    let ghost ops = op_views(word_ops@);
    let mut out = String::new();
    let mut i: usize = 0;
    while i < runs.len()
        invariant
            runs@.len() == word_ops@.len(),
            ops == op_views(word_ops@),
            forall|k: int| 0 <= k < runs@.len() ==> #[trigger] runs@[k]@ == render_run_spec(ops, k, compact),
            i <= runs@.len(),
            out@ == ops_markup(ops, compact, i as nat),
        decreases runs@.len() - i,
    {
        push_run_markup(&mut out, runs[i]);
        assert(runs@[i as int]@ == render_run_spec(ops, i as int, compact));
        i += 1;
    }
    out
}

} // verus!
