//! Plain-text summaries for the modification log and debug output: texts
//! collapsed onto one line, log entries, and the text of word operations.

use vstd::prelude::*;
use vstd::utf8::{encode_scalar, encode_utf8};

use crate::similarity::words;
use crate::text::{chars_of, decimal, is_white_space, is_whitespace, push_char, push_decimal, string_of};
use crate::tokens::{has_visible, op_views, text_is_white, OpKind, Token, WordOp, WordOpView};

verus! {

// ---------------------------------------------------------------------------
// One-line texts
// ---------------------------------------------------------------------------

/// Collapsing the first `i` characters of `cs`: the text so far, whether it
/// ends in a collapsed run of white space, and whether it was cut off.
///
/// Every run of white space becomes one space; once the text holds at least
/// 1000 bytes of UTF-8 it is cut off with `...`.
pub open spec fn collapse(cs: Seq<char>, i: nat) -> (Seq<char>, bool, bool)
    decreases i,
{
    if i == 0 {
        (Seq::empty(), false, false)
    } else {
        let prev = collapse(cs, (i - 1) as nat);
        if prev.2 {
            prev
        } else {
            let c = cs[i - 1];
            let next: (Seq<char>, bool) = if is_white_space(c) {
                if prev.1 { (prev.0, true) } else { (prev.0.push(' '), true) }
            } else {
                (prev.0.push(c), false)
            };
            if encode_utf8(next.0).len() >= 1000 {
                (next.0 + "..."@, next.1, true)
            } else {
                (next.0, next.1, false)
            }
        }
    }
}

/// The number of leading white-space characters.
pub open spec fn leading_white(cs: Seq<char>) -> nat
    decreases cs.len(),
{
    if cs.len() == 0 || !is_white_space(cs[0]) {
        0
    } else {
        1 + leading_white(cs.drop_first())
    }
}

/// The number of trailing white-space characters.
pub open spec fn trailing_white(cs: Seq<char>) -> nat
    decreases cs.len(),
{
    if cs.len() == 0 || !is_white_space(cs.last()) {
        0
    } else {
        1 + trailing_white(cs.drop_last())
    }
}

/// The text without leading and trailing white space, as `str::trim` gives it.
pub open spec fn trimmed(cs: Seq<char>) -> Seq<char> {
    let start = leading_white(cs);
    if start == cs.len() {
        Seq::empty()
    } else {
        cs.subrange(start as int, cs.len() - trailing_white(cs))
    }
}

/// The text on one line: white-space runs collapsed, cut off after 1000
/// bytes, trimmed.
pub open spec fn single_line_spec(cs: Seq<char>) -> Seq<char> {
    trimmed(collapse(cs, cs.len()).0)
}

pub proof fn lemma_leading_white(cs: Seq<char>)
    ensures
        leading_white(cs) <= cs.len(),
        forall|k: int| 0 <= k < leading_white(cs) ==> is_white_space(#[trigger] cs[k]),
        leading_white(cs) < cs.len() ==> !is_white_space(cs[leading_white(cs) as int]),
    decreases cs.len(),
{
    if cs.len() > 0 && is_white_space(cs[0]) {
        lemma_leading_white(cs.drop_first());
        assert forall|k: int| 0 <= k < leading_white(cs) implies is_white_space(#[trigger] cs[k]) by {
            if k > 0 {
                assert(cs[k] == cs.drop_first()[k - 1]);
            }
        }
    }
}

pub proof fn lemma_trailing_white(cs: Seq<char>)
    ensures
        trailing_white(cs) <= cs.len(),
        forall|k: int| cs.len() - trailing_white(cs) <= k < cs.len() ==> is_white_space(#[trigger] cs[k]),
        trailing_white(cs) < cs.len() ==> !is_white_space(cs[cs.len() - trailing_white(cs) - 1]),
    decreases cs.len(),
{
    if cs.len() > 0 && is_white_space(cs.last()) {
        lemma_trailing_white(cs.drop_last());
        assert forall|k: int| cs.len() - trailing_white(cs) <= k < cs.len() implies is_white_space(#[trigger] cs[k]) by {
            if k < cs.len() - 1 {
                assert(cs[k] == cs.drop_last()[k]);
            }
        }
    }
}

pub proof fn lemma_leading_white_exact(cs: Seq<char>, n: nat)
    requires
        n <= cs.len(),
        forall|k: int| 0 <= k < n ==> is_white_space(#[trigger] cs[k]),
        n < cs.len() ==> !is_white_space(cs[n as int]),
    ensures
        leading_white(cs) == n,
    decreases cs.len(),
{
    if n > 0 {
        assert(is_white_space(cs[0]));
        let rest = cs.drop_first();
        assert forall|k: int| 0 <= k < n - 1 implies is_white_space(#[trigger] rest[k]) by {
            assert(rest[k] == cs[k + 1]);
        }
        if n - 1 < rest.len() {
            assert(rest[n - 1] == cs[n as int]);
        }
        lemma_leading_white_exact(rest, (n - 1) as nat);
    } else if cs.len() > 0 {
        assert(!is_white_space(cs[0]));
    }
}

proof fn lemma_trailing_white_exact(cs: Seq<char>, n: nat)
    requires
        n <= cs.len(),
        forall|k: int| cs.len() - n <= k < cs.len() ==> is_white_space(#[trigger] cs[k]),
        n < cs.len() ==> !is_white_space(cs[cs.len() - n - 1]),
    ensures
        trailing_white(cs) == n,
    decreases cs.len(),
{
    if n > 0 {
        assert(is_white_space(cs[cs.len() - 1]));
        let rest = cs.drop_last();
        assert forall|k: int| rest.len() - (n - 1) <= k < rest.len() implies is_white_space(#[trigger] rest[k]) by {
            assert(rest[k] == cs[k]);
        }
        if n - 1 < rest.len() {
            assert(rest[rest.len() - (n - 1) - 1] == cs[cs.len() - n - 1]);
        }
        lemma_trailing_white_exact(rest, (n - 1) as nat);
    } else if cs.len() > 0 {
        assert(!is_white_space(cs[cs.len() - 1]));
    }
}

/// The characters without leading and trailing white space.
pub fn trim_chars(cs: &Vec<char>) -> (out: String)
    ensures
        out@ == trimmed(cs@),
{
    proof {
        lemma_leading_white(cs@);
        lemma_trailing_white(cs@);
    }
    let n = cs.len();
    let mut start: usize = 0;
    while start < n && is_whitespace(cs[start])
        invariant
            n == cs@.len(),
            start <= n,
            forall|k: int| 0 <= k < start ==> is_white_space(#[trigger] cs@[k]),
        decreases n - start,
    {
        start += 1;
    }
    proof {
        lemma_leading_white_exact(cs@, start as nat);
    }
    if start == n {
        return String::new();
    }
    let mut end: usize = n;
    while end > start && is_whitespace(cs[end - 1])
        invariant
            n == cs@.len(),
            start < n,
            start <= end <= n,
            !is_white_space(cs@[start as int]),
            forall|k: int| end <= k < n ==> is_white_space(#[trigger] cs@[k]),
        decreases end,
    {
        end -= 1;
    }
    proof {
        lemma_trailing_white_exact(cs@, (n - end) as nat);
    }
    let kept = &cs.as_slice()[start..end];
    string_of(kept)
}

/// The number of bytes of the UTF-8 encoding of a character.
fn utf8_width(c: char) -> (w: usize)
    ensures
        w == encode_scalar(c as u32).len(),
        1 <= w <= 4,
{
    let n = c as u32;
    if n <= 0x7F {
        1
    } else if n <= 0x7FF {
        2
    } else if n <= 0xFFFF {
        3
    } else {
        4
    }
}

proof fn lemma_encode_push(s: Seq<char>, c: char)
    ensures
        encode_utf8(s.push(c)).len() == encode_utf8(s).len() + encode_scalar(c as u32).len(),
    decreases s.len(),
{
    if s.len() == 0 {
        assert(s.push(c).drop_first() =~= Seq::<char>::empty());
        assert(s =~= Seq::<char>::empty());
        assert(encode_utf8(Seq::<char>::empty()).len() == 0);
        assert(s.push(c)[0] == c);
    } else {
        lemma_encode_push(s.drop_first(), c);
        assert(s.push(c).drop_first() =~= s.drop_first().push(c));
        assert(s.push(c)[0] == s[0]);
    }
}

/// Collapses a text onto one line; see [`single_line_spec`].
pub fn single_line(text: &str) -> (line: String)
    ensures
        line@ == single_line_spec(text@),
{
    let cs = chars_of(text);
    let n = cs.len();
    let mut result = String::new();
    let mut bytes: usize = 0;
    let mut last_was_space = false;
    let mut stopped = false;
    let mut i: usize = 0;
    while i < n && !stopped
        invariant
            n == cs@.len(),
            cs@ == text@,
            i <= n,
            collapse(cs@, i as nat) == (result@, last_was_space, stopped),
            !stopped ==> bytes == encode_utf8(result@).len() && bytes < 1000,
        decreases n - i,
    {
        let ch = cs[i];
        let ghost before = result@;
        if is_whitespace(ch) {
            if !last_was_space {
                push_char(&mut result, ' ');
                proof {
                    lemma_encode_push(before, ' ');
                }
                bytes += 1;
                last_was_space = true;
            }
        } else {
            push_char(&mut result, ch);
            proof {
                lemma_encode_push(before, ch);
            }
            bytes += utf8_width(ch);
            last_was_space = false;
        }
        if bytes >= 1000 {
            result.append("...");
            stopped = true;
        }
        i += 1;
    }
    proof {
        if stopped {
            lemma_collapse_stays(cs@, i as nat, n as nat);
        }
    }
    let chars = chars_of(result.as_str());
    trim_chars(&chars)
}

proof fn lemma_collapse_stays(cs: Seq<char>, i: nat, j: nat)
    requires
        i <= j,
        collapse(cs, i).2,
    ensures
        collapse(cs, j) == collapse(cs, i),
    decreases j - i,
{
    if i < j {
        lemma_collapse_stays(cs, i, (j - 1) as nat);
    }
}


/// A character that a one-line text may hold: any but white space, and the
/// plain space.
pub open spec fn one_line_char(c: char) -> bool {
    !is_white_space(c) || c == ' '
}

proof fn lemma_collapse_one_line(cs: Seq<char>, i: nat)
    requires
        i <= cs.len(),
    ensures
        forall|k: int| 0 <= k < collapse(cs, i).0.len() ==> one_line_char(#[trigger] collapse(cs, i).0[k]),
    decreases i,
{
    if i > 0 {
        lemma_collapse_one_line(cs, (i - 1) as nat);
        reveal_strlit("...");
        let prev = collapse(cs, (i - 1) as nat);
        let r = collapse(cs, i).0;
        assert forall|k: int| 0 <= k < r.len() implies one_line_char(#[trigger] r[k]) by {
            if k < prev.0.len() {
                if !prev.2 {
                    let c = cs[i - 1];
                    let next: Seq<char> = if is_white_space(c) {
                        if prev.1 { prev.0 } else { prev.0.push(' ') }
                    } else {
                        prev.0.push(c)
                    };
                    assert(next[k] == prev.0[k]);
                    assert(r[k] == next[k]);
                }
            }
        }
    }
}

/// A text put on one line holds no line break, tab or other white space but
/// plain spaces.
pub proof fn law_single_line_has_no_breaks(cs: Seq<char>)
    ensures
        forall|k: int| 0 <= k < single_line_spec(cs).len() ==> one_line_char(#[trigger] single_line_spec(cs)[k]),
{
    let r = collapse(cs, cs.len()).0;
    lemma_collapse_one_line(cs, cs.len());
    lemma_leading_white(r);
    lemma_trailing_white(r);
    let out = single_line_spec(cs);
    assert forall|k: int| 0 <= k < out.len() implies one_line_char(#[trigger] out[k]) by {
        assert(out[k] == r[leading_white(r) + k]);
    }
}

/// No two neighbouring characters are both spaces.
pub open spec fn no_double_space(t: Seq<char>) -> bool {
    forall|k: int| 0 <= k < t.len() - 1 ==> !(#[trigger] t[k] == ' ' && t[k + 1] == ' ')
}

proof fn lemma_collapse_no_double_space(cs: Seq<char>, i: nat)
    requires
        i <= cs.len(),
    ensures
        no_double_space(collapse(cs, i).0),
        !collapse(cs, i).2 && !collapse(cs, i).1 ==> collapse(cs, i).0.len() == 0 || collapse(cs, i).0.last() != ' ',
    decreases i,
{
    if i > 0 {
        lemma_collapse_no_double_space(cs, (i - 1) as nat);
        reveal_strlit("...");
        let prev = collapse(cs, (i - 1) as nat);
        if !prev.2 {
            let c = cs[i - 1];
            let next: (Seq<char>, bool) = if is_white_space(c) {
                if prev.1 { (prev.0, true) } else { (prev.0.push(' '), true) }
            } else {
                (prev.0.push(c), false)
            };
            assert(is_white_space(' '));
            assert(no_double_space(next.0)) by {
                assert forall|k: int| 0 <= k < next.0.len() - 1 implies !(#[trigger] next.0[k] == ' ' && next.0[k + 1] == ' ') by {
                    if k + 1 < prev.0.len() {
                        assert(next.0[k] == prev.0[k]);
                        assert(next.0[k + 1] == prev.0[k + 1]);
                    } else if next.0.len() > prev.0.len() {
                        assert(next.0[k] == prev.0.last());
                    }
                }
            }
            let r = collapse(cs, i).0;
            assert(no_double_space(r)) by {
                assert forall|k: int| 0 <= k < r.len() - 1 implies !(#[trigger] r[k] == ' ' && r[k + 1] == ' ') by {
                    if k + 1 < next.0.len() {
                        assert(r[k] == next.0[k]);
                        assert(r[k + 1] == next.0[k + 1]);
                    } else {
                        assert(r[k + 1] == '.');
                    }
                }
            }
        }
    }
}

/// A text put on one line holds no line break, tab or other white space but
/// plain spaces, never two spaces side by side, and neither starts nor ends
/// with white space.
pub proof fn law_single_line_shape(cs: Seq<char>)
    ensures
        forall|k: int| 0 <= k < single_line_spec(cs).len() ==> one_line_char(#[trigger] single_line_spec(cs)[k]),
        no_double_space(single_line_spec(cs)),
        single_line_spec(cs).len() > 0 ==> !is_white_space(single_line_spec(cs)[0])
            && !is_white_space(single_line_spec(cs).last()),
{
    law_single_line_has_no_breaks(cs);
    let r = collapse(cs, cs.len()).0;
    lemma_collapse_no_double_space(cs, cs.len());
    lemma_leading_white(r);
    lemma_trailing_white(r);
    let out = single_line_spec(cs);
    if out.len() > 0 {
        let lw = leading_white(r);
        let tw = trailing_white(r);
        assert(out[0] == r[lw as int]);
        assert(out.last() == r[r.len() - tw - 1]);
    }
    assert forall|k: int| 0 <= k < out.len() - 1 implies !(#[trigger] out[k] == ' ' && out[k + 1] == ' ') by {
        assert(out[k] == r[leading_white(r) + k]);
        assert(out[k + 1] == r[leading_white(r) + k + 1]);
    }
}

// ---------------------------------------------------------------------------
// Log entries
// ---------------------------------------------------------------------------

/// The names and values of log fields.
pub open spec fn field_views(fields: Seq<(&str, String)>) -> Seq<(Seq<char>, Seq<char>)> {
    fields.map_values(|f: (&str, String)| (f.0@, f.1@))
}

/// The lines of the first `n` fields: `name: value`, the value on one line.
pub open spec fn field_lines(fields: Seq<(Seq<char>, Seq<char>)>, n: nat) -> Seq<char>
    decreases n,
{
    if n == 0 {
        Seq::empty()
    } else {
        field_lines(fields, (n - 1) as nat) + fields[n - 1].0 + ": "@ + single_line_spec(fields[n - 1].1) + "\n"@
    }
}

/// A log entry: a `## {index}: {kind}` heading, one line per field, and a
/// blank line.
pub open spec fn log_entry(index: nat, kind: Seq<char>, fields: Seq<(Seq<char>, Seq<char>)>) -> Seq<char> {
    "## "@ + decimal(index) + ": "@ + kind + "\n"@ + field_lines(fields, fields.len()) + "\n"@
}

/// Appends a log entry; see [`log_entry`].
pub fn push_log_entry(log: &mut String, index: usize, kind: &str, fields: &[(&str, String)])
    ensures
        final(log)@ == old(log)@ + log_entry(index as nat, kind@, field_views(fields@)),
{
    let ghost start = log@;
    let ghost views = field_views(fields@);
    log.append("## ");
    push_decimal(log, index);
    log.append(": ");
    log.append(kind);
    push_char(log, '\n');
    proof {
        reveal_strlit("\n");
    }
    let ghost head = log@;
    assert(head =~= start + "## "@ + decimal(index as nat) + ": "@ + kind@ + "\n"@);
    let mut k: usize = 0;
    while k < fields.len()
        invariant
            k <= fields@.len(),
            views == field_views(fields@),
            "\n"@ == seq!['\n'],
            log@ == head + field_lines(views, k as nat),
        decreases fields@.len() - k,
    {
        let (name, value) = &fields[k];
        log.append(*name);
        log.append(": ");
        let line = single_line(value.as_str());
        log.append(line.as_str());
        push_char(log, '\n');
        k += 1;
        assert(views[k - 1] == (name@, value@));
        assert(log@ =~= head + field_lines(views, k as nat));
    }
    push_char(log, '\n');
    assert(log@ =~= start + log_entry(index as nat, kind@, views));
}

// ---------------------------------------------------------------------------
// Text of word operations
// ---------------------------------------------------------------------------

/// The texts of the tokens, one after the other.
pub open spec fn tokens_text(tokens: Seq<Token>) -> Seq<char>
    decreases tokens.len(),
{
    if tokens.len() == 0 {
        Seq::empty()
    } else {
        tokens_text(tokens.drop_last()) + tokens.last().text@
    }
}

/// The parts joined with `sep` between neighbours.
pub open spec fn join(parts: Seq<Seq<char>>, sep: Seq<char>) -> Seq<char>
    decreases parts.len(),
{
    if parts.len() == 0 {
        Seq::empty()
    } else if parts.len() == 1 {
        parts[0]
    } else {
        join(parts.drop_last(), sep) + sep + parts.last()
    }
}

/// The token texts of the first `n` operations whose kind is selected.
pub open spec fn selected_texts(ops: Seq<WordOpView>, select: Seq<OpKind>, n: nat) -> Seq<Seq<char>>
    decreases n,
{
    if n == 0 {
        Seq::empty()
    } else if select.contains(ops[n - 1].0) {
        selected_texts(ops, select, (n - 1) as nat).push(tokens_text(ops[n - 1].1))
    } else {
        selected_texts(ops, select, (n - 1) as nat)
    }
}

fn push_tokens_text(out: &mut String, tokens: &[Token])
    ensures
        final(out)@ == old(out)@ + tokens_text(tokens@),
{
    let ghost start = out@;
    let mut i: usize = 0;
    while i < tokens.len()
        invariant
            i <= tokens@.len(),
            out@ == start + tokens_text(tokens@.subrange(0, i as int)),
        decreases tokens@.len() - i,
    {
        out.append(tokens[i].text.as_str());
        i += 1;
        assert(tokens@.subrange(0, i as int).drop_last() =~= tokens@.subrange(0, i - 1));
        assert(out@ =~= start + tokens_text(tokens@.subrange(0, i as int)));
    }
    assert(tokens@.subrange(0, i as int) =~= tokens@);
}

fn kind_selected(select: &[OpKind], kind: OpKind) -> (b: bool)
    ensures
        b == select@.contains(kind),
{
    let mut i: usize = 0;
    while i < select.len()
        invariant
            i <= select@.len(),
            forall|j: int| 0 <= j < i ==> select@[j] != kind,
        decreases select@.len() - i,
    {
        if select[i] == kind {
            return true;
        }
        i += 1;
    }
    false
}

/// The token texts of the operations of the selected kinds, joined by ` | `.
pub fn collect_word_op_text(word_ops: &[WordOp], select: &[OpKind]) -> (text: String)
    ensures
        text@ == join(selected_texts(op_views(word_ops@), select@, word_ops@.len()), " | "@),
{
    let ghost ops = op_views(word_ops@);
    let mut out = String::new();
    let mut any = false;
    let mut i: usize = 0;
    while i < word_ops.len()
        invariant
            i <= word_ops@.len(),
            ops == op_views(word_ops@),
            any == (selected_texts(ops, select@, i as nat).len() > 0),
            out@ == join(selected_texts(ops, select@, i as nat), " | "@),
        decreases word_ops@.len() - i,
    {
        let op = &word_ops[i];
        assert(op@ == ops[i as int]);
        if kind_selected(select, op.kind()) {
            let ghost before = selected_texts(ops, select@, i as nat);
            if any {
                out.append(" | ");
            }
            push_tokens_text(&mut out, op.tokens().as_slice());
            any = true;
            proof {
                let after = selected_texts(ops, select@, (i + 1) as nat);
                assert(after.drop_last() =~= before);
            }
        }
        i += 1;
    }
    out
}

/// Some token holds a character that is not white space.
pub open spec fn meaningful_tokens(tokens: Seq<Token>) -> bool {
    exists|t: int| 0 <= t < tokens.len() && has_visible(#[trigger] tokens[t].text@)
}

/// Whether some token holds a character that is not white space.
pub fn has_meaningful_tokens(tokens: &[Token]) -> (b: bool)
    ensures
        b == meaningful_tokens(tokens@),
{
    let mut i: usize = 0;
    while i < tokens.len()
        invariant
            i <= tokens@.len(),
            forall|t: int| 0 <= t < i ==> !has_visible(#[trigger] tokens@[t].text@),
        decreases tokens@.len() - i,
    {
        if !text_is_white(&tokens[i].text) {
            proof {
                let cs = tokens@[i as int].text@;
                let d = choose|d: int| 0 <= d < cs.len() && !is_white_space(#[trigger] cs[d]);
                assert(has_visible(cs));
            }
            return true;
        }
        proof {
            let cs = tokens@[i as int].text@;
            assert forall|d: int| 0 <= d < cs.len() implies is_white_space(#[trigger] cs[d]) by {}
        }
        i += 1;
    }
    false
}

/// Some delete or insert holds a token with a character that is not white space.
pub open spec fn textual_word_change(ops: Seq<WordOpView>) -> bool {
    exists|k: int| 0 <= k < ops.len() && (#[trigger] ops[k]).0 != OpKind::Equal && meaningful_tokens(ops[k].1)
}

/// Whether some delete or insert changes visible text.
pub fn has_textual_word_change(word_ops: &[WordOp]) -> (b: bool)
    ensures
        b == textual_word_change(op_views(word_ops@)),
{
    let ghost ops = op_views(word_ops@);
    let mut i: usize = 0;
    while i < word_ops.len()
        invariant
            i <= word_ops@.len(),
            ops == op_views(word_ops@),
            forall|k: int| 0 <= k < i ==> !((#[trigger] ops[k]).0 != OpKind::Equal && meaningful_tokens(ops[k].1)),
        decreases word_ops@.len() - i,
    {
        let op = &word_ops[i];
        assert(op@ == ops[i as int]);
        if op.kind() != OpKind::Equal && has_meaningful_tokens(op.tokens().as_slice()) {
            return true;
        }
        i += 1;
    }
    false
}

/// Some equal run holds a token with a character that is not white space.
pub open spec fn meaningful_equal(ops: Seq<WordOpView>) -> bool {
    exists|k: int| 0 <= k < ops.len() && (#[trigger] ops[k]).0 == OpKind::Equal && meaningful_tokens(ops[k].1)
}

/// Whether some equal run keeps visible text.
pub fn has_meaningful_equal(word_ops: &[WordOp]) -> (b: bool)
    ensures
        b == meaningful_equal(op_views(word_ops@)),
{
    let ghost ops = op_views(word_ops@);
    let mut i: usize = 0;
    while i < word_ops.len()
        invariant
            i <= word_ops@.len(),
            ops == op_views(word_ops@),
            forall|k: int| 0 <= k < i ==> !((#[trigger] ops[k]).0 == OpKind::Equal && meaningful_tokens(ops[k].1)),
        decreases word_ops@.len() - i,
    {
        let op = &word_ops[i];
        assert(op@ == ops[i as int]);
        if op.kind() == OpKind::Equal && has_meaningful_tokens(op.tokens().as_slice()) {
            return true;
        }
        i += 1;
    }
    false
}

// ---------------------------------------------------------------------------
// Previews
// ---------------------------------------------------------------------------

/// A preview of a text: its words joined by single spaces, cut to 120
/// characters with `...` when longer.
pub open spec fn preview_spec(text: Seq<char>) -> Seq<char> {
    let line = join(words(text), " "@);
    if line.len() > 120 {
        line.take(120) + "..."@
    } else {
        line
    }
}

/// A short preview of a text for debug output.
pub fn preview(text: &str) -> (out: String)
    ensures
        out@ == preview_spec(text@),
{
    let ws = crate::similarity::split_words(text);
    let mut line = String::new();
    let mut i: usize = 0;
    while i < ws.len()
        invariant
            i <= ws@.len(),
            crate::similarity::string_views(ws@) == words(text@),
            line@ == join(words(text@).subrange(0, i as int), " "@),
        decreases ws@.len() - i,
    {
        if i > 0 {
            line.append(" ");
        }
        line.append(ws[i].as_str());
        i += 1;
        proof {
            let parts = words(text@).subrange(0, i as int);
            assert(parts.drop_last() =~= words(text@).subrange(0, i - 1));
            assert(parts.last() == ws@[i - 1]@);
        }
    }
    assert(words(text@).subrange(0, i as int) =~= words(text@));
    let cs = chars_of(line.as_str());
    if cs.len() > 120 {
        let mut out = string_of(&cs.as_slice()[0..120]);
        out.append("...");
        assert(cs@.subrange(0, 120) =~= cs@.take(120));
        out
    } else {
        line
    }
}


// ---------------------------------------------------------------------------
// Word operation summaries
// ---------------------------------------------------------------------------

/// The summary of a word operation in debug output.
pub struct WordOpSummary {
    pub kind: String,
    pub token_count: usize,
    pub text_len: usize,
    pub text: String,
    pub text_preview: String,
}

/// The name of each operation kind in debug output.
pub open spec fn op_kind_name(kind: OpKind) -> Seq<char> {
    match kind {
        OpKind::Equal => "equal"@,
        OpKind::Delete => "delete"@,
        OpKind::Insert => "insert"@,
    }
}

/// Summarises a word operation: its kind, how many tokens it has, and its
/// text with the text's length in characters and a preview.
pub fn summarize_word_op(op: &WordOp) -> (summary: WordOpSummary)
    ensures
        summary.kind@ == op_kind_name(op@.0),
        summary.token_count == op@.1.len(),
        summary.text@ == tokens_text(op@.1),
        summary.text_len == tokens_text(op@.1).len(),
        summary.text_preview@ == preview_spec(tokens_text(op@.1)),
{
    let kind = match op.kind() {
        OpKind::Equal => "equal".to_owned(),
        OpKind::Delete => "delete".to_owned(),
        OpKind::Insert => "insert".to_owned(),
    };
    let tokens = op.tokens();
    let mut text = String::new();
    push_tokens_text(&mut text, tokens.as_slice());
    let text_len = text.as_str().unicode_len();
    let text_preview = preview(text.as_str());
    WordOpSummary { kind, token_count: tokens.len(), text_len, text, text_preview }
}

} // verus!
