//! Raw blocks are diffed line by line: each line is one token.

use vstd::prelude::*;

use crate::edit_script::{
    key_views, keyed_myers_diff, keyed_myers_script, lemma_myers_in_bounds, MyersOp,
};
use crate::similarity::{string_views, text_fits};
use crate::text::push_char;
use crate::tokens::{
    coalesce_spec, coalesced_word_ops, is_text_token, myers_word_ops, myers_word_step, op_views, token_texts,
    OpKind, Token, WordOp, WordOpView,
};

verus! {

/// The pieces of a text between newlines: one more piece than there are
/// newlines, as `str::split('\n')` yields them.
pub open spec fn newline_pieces(cs: Seq<char>) -> Seq<Seq<char>>
    decreases cs.len(),
{
    if cs.len() == 0 {
        seq![Seq::empty()]
    } else {
        let init = newline_pieces(cs.drop_last());
        if cs.last() == '\n' {
            init.push(Seq::empty())
        } else {
            init.drop_last().push(init.last().push(cs.last()))
        }
    }
}

/// The lines of a raw block: the pieces between newlines, without the empty
/// piece after a final newline, and at least one line.
pub open spec fn raw_lines_spec(cs: Seq<char>) -> Seq<Seq<char>> {
    let pieces = newline_pieces(cs);
    let lines = if cs.len() > 0 && cs.last() == '\n' { pieces.drop_last() } else { pieces };
    if lines.len() == 0 {
        seq![Seq::empty()]
    } else {
        lines
    }
}

proof fn lemma_newline_pieces_nonempty(cs: Seq<char>)
    ensures
        newline_pieces(cs).len() >= 1,
        cs.len() > 0 && cs.last() == '\n' ==> newline_pieces(cs).len() >= 2,
        newline_pieces(cs).len() <= cs.len() + 1,
        cs.len() > 0 && cs.last() != '\n' ==> newline_pieces(cs).len() <= cs.len(),
    decreases cs.len(),
{
    if cs.len() > 0 {
        lemma_newline_pieces_nonempty(cs.drop_last());
    }
}

/// The lines of a raw block's text; see [`raw_lines_spec`].
pub fn raw_block_lines(text: &str) -> (lines: Vec<String>)
    ensures
        string_views(lines@) == raw_lines_spec(text@),
{
    let mut lines: Vec<String> = Vec::new();
    let mut cur = String::new();
    let mut ends_with_newline = false;
    for c in it: text.chars()
        invariant
            it.seq() == text@,
            string_views(lines@).push(cur@) == newline_pieces(it.seq().take(it.index() as int)),
            ends_with_newline == (it.index() > 0 && it.seq()[it.index() - 1] == '\n'),
    {
        let ghost before = it.seq().take(it.index() as int);
        let ghost after = it.seq().take(it.index() + 1);
        proof {
            assert(after.drop_last() =~= before);
            assert(after.last() == c);
            lemma_newline_pieces_nonempty(before);
        }
        let ghost lv = string_views(lines@);
        let ghost cv = cur@;
        if c == '\n' {
            lines.push(cur);
            cur = String::new();
            assert(string_views(lines@) =~= lv.push(cv));
            assert(string_views(lines@).push(cur@) =~= newline_pieces(after));
            ends_with_newline = true;
        } else {
            push_char(&mut cur, c);
            assert(lv.push(cv).drop_last() =~= lv);
            assert(string_views(lines@).push(cur@) =~= newline_pieces(after));
            ends_with_newline = false;
        }
    }
    assert(text@.take(text@.len() as int) =~= text@);
    let ghost lv = string_views(lines@);
    let ghost cv = cur@;
    lines.push(cur);
    assert(string_views(lines@) =~= lv.push(cv));
    proof {
        lemma_newline_pieces_nonempty(text@);
    }
    if ends_with_newline {
        let ghost full = string_views(lines@);
        lines.pop();
        assert(string_views(lines@) =~= full.drop_last());
    }
    if lines.len() == 0 {
        lines.push(String::new());
        assert(string_views(lines@) =~= seq![Seq::<char>::empty()]);
    }
    lines
}

/// The tokens are plain text tokens of the lines, one per line.
pub open spec fn line_tokens_of(lines: Seq<Seq<char>>, tokens: Seq<Token>) -> bool {
    &&& tokens.len() == lines.len()
    &&& forall|i: int| 0 <= i < tokens.len() ==> is_text_token(#[trigger] tokens[i], lines[i])
}

/// One plain text token per line.
pub fn raw_line_tokens(lines: &[String]) -> (tokens: Vec<Token>)
    ensures
        line_tokens_of(string_views(lines@), tokens@),
{
    let mut tokens: Vec<Token> = Vec::new();
    let mut i: usize = 0;
    while i < lines.len()
        invariant
            i <= lines@.len(),
            tokens@.len() == i,
            forall|k: int| 0 <= k < i ==> is_text_token(#[trigger] tokens@[k], lines@[k]@),
        decreases lines@.len() - i,
    {
        tokens.push(Token::from_text(lines[i].as_str()));
        i += 1;
    }
    tokens
}

/// The keys that the line diff compares: the lines themselves.
pub open spec fn line_keys(lines: Seq<Seq<char>>) -> Seq<(Seq<char>, Seq<char>)> {
    lines.map_values(|l: Seq<char>| (l, Seq::<char>::empty()))
}

/// The result of [`diff_raw_block_lines`] for given line tokens: the Myers
/// diff of the lines, each run coalesced, equal runs taking the new lines.
pub open spec fn raw_line_ops(
    old_text: Seq<char>,
    new_text: Seq<char>,
    old_tokens: Seq<Token>,
    new_tokens: Seq<Token>,
) -> Seq<WordOpView> {
    myers_word_ops(
        old_tokens,
        new_tokens,
        keyed_myers_script(line_keys(raw_lines_spec(old_text)), line_keys(raw_lines_spec(new_text))),
    )
}

/// Diffs the lines of two raw blocks.
pub fn diff_raw_block_lines(old_text: &str, new_text: &str) -> (ops: Vec<WordOp>)
    requires
        text_fits(old_text@),
        text_fits(new_text@),
    ensures
        exists|ot: Seq<Token>, nt: Seq<Token>|
            line_tokens_of(raw_lines_spec(old_text@), ot) && line_tokens_of(raw_lines_spec(new_text@), nt)
                && op_views(ops@) == raw_line_ops(old_text@, new_text@, ot, nt),
        old_text@ == new_text@ ==> ops@.len() == 1 && ops@[0]@.0 == OpKind::Equal
            && token_texts(ops@[0]@.1) == raw_lines_spec(new_text@),
{
    let old_lines = raw_block_lines(old_text);
    let new_lines = raw_block_lines(new_text);
    let old_tokens = raw_line_tokens(old_lines.as_slice());
    let new_tokens = raw_line_tokens(new_lines.as_slice());
    assert(key_views(old_lines@) =~= line_keys(raw_lines_spec(old_text@)));
    assert(key_views(new_lines@) =~= line_keys(raw_lines_spec(new_text@)));
    assert(old_lines@.len() + new_lines@.len() <= usize::MAX) by {
        lemma_newline_pieces_nonempty(old_text@);
        lemma_newline_pieces_nonempty(new_text@);
        assert(string_views(old_lines@).len() == old_lines@.len());
        assert(string_views(new_lines@).len() == new_lines@.len());
    }
    let script = keyed_myers_diff(old_lines.as_slice(), new_lines.as_slice());
    proof {
        lemma_myers_in_bounds(old_lines@.len() as int, new_lines@.len() as int, script@, 0, 0);
    }
    let ops = coalesced_word_ops(old_tokens.as_slice(), new_tokens.as_slice(), &script);
    assert(line_tokens_of(raw_lines_spec(old_text@), old_tokens@));
    assert(line_tokens_of(raw_lines_spec(new_text@), new_tokens@));
    assert(op_views(ops@) == raw_line_ops(old_text@, new_text@, old_tokens@, new_tokens@));
    proof {
        if old_text@ == new_text@ {
            let n = new_lines@.len();
            assert(string_views(new_lines@).len() == n);
            assert(n >= 1);
            let e = MyersOp::Equal { old_index: 0, new_index: 0, len: n as usize };
            assert(script@ =~= seq![e]);
            assert(script@.drop_last() =~= Seq::<MyersOp>::empty());
            assert(new_tokens@.subrange(0, n as int) =~= new_tokens@);
            assert(myers_word_ops(old_tokens@, new_tokens@, script@.drop_last()) =~= Seq::<WordOpView>::empty());
            assert(myers_word_ops(old_tokens@, new_tokens@, script@)
                == myers_word_step(Seq::<WordOpView>::empty(), old_tokens@, new_tokens@, e));
            assert(coalesce_spec(Seq::<WordOpView>::empty(), (OpKind::Equal, new_tokens@))
                =~= seq![(OpKind::Equal, new_tokens@)]);
            assert(op_views(ops@) =~= seq![(OpKind::Equal, new_tokens@)]);
            assert(ops@[0]@ == op_views(ops@)[0]);
            assert forall|i: int| 0 <= i < n implies #[trigger] token_texts(new_tokens@)[i] == raw_lines_spec(new_text@)[i] by {
                assert(is_text_token(new_tokens@[i], raw_lines_spec(new_text@)[i]));
            }
            assert(token_texts(new_tokens@) =~= raw_lines_spec(new_text@));
        }
    }
    ops
}

} // verus!
