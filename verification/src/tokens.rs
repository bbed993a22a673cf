//! Word-level tokens and the word diff built on them.
//!
//! A token is a word, a run of white space, a run of ASCII punctuation, or an
//! atomic inline element. It carries its visible text, the presentation key
//! of its content (so that `regular` and `*regular*` differ) and the Typst
//! markup that shows it.

use vstd::prelude::*;

use crate::edit_script::{
    key_views, keyed_myers_diff, keyed_myers_script, lemma_myers_covers_ends, lemma_myers_in_bounds,
    myers_covers, myers_equal_runs_match_keys, myers_op_in_bounds, myers_op_nonempty, myers_ops_nonempty,
    myers_run_matches, DiffKey, MyersOp,
};
use crate::text::{
    escaped, is_ascii_punct, is_ascii_punctuation, is_white_space, is_whitespace, push_char,
    string_of, typst_escape_content,
};

verus! {

/// A single diffable token.
///
/// Tokens compare by their visible text and their presentation key.
#[derive(Debug)]
pub struct Token {
    /// The visible text.
    pub text: String,
    /// The presentation key of the token's content.
    pub presentation: String,
    /// The Typst markup of the token's content.
    pub markup: String,
    /// The Typst markup of the content the token is drawn with when it
    /// changed: its content, or its text where the content shows none.
    pub render_markup: String,
}

impl Clone for Token {
    fn clone(&self) -> (copy: Self)
        ensures
            copy == *self,
    {
        Token {
            text: self.text.clone(),
            presentation: self.presentation.clone(),
            markup: self.markup.clone(),
            render_markup: self.render_markup.clone(),
        }
    }
}

impl DiffKey for Token {
    open spec fn key_view(&self) -> (Seq<char>, Seq<char>) {
        (self.text@, self.presentation@)
    }

    fn same_key(&self, other: &Self) -> (same: bool) {
        self.text == other.text && self.presentation == other.presentation
    }
}

/// The presentation key of plain text content.
pub open spec fn text_presentation() -> Seq<char> {
    "text"@
}

/// A plain text token: presentation `text`, both markups the escaped text.
pub open spec fn is_text_token(t: Token, text: Seq<char>) -> bool {
    &&& t.text@ == text
    &&& t.presentation@ == text_presentation()
    &&& t.markup@ == escaped(text)
    &&& t.render_markup@ == escaped(text)
}

impl Token {
    /// A token of plain text.
    pub fn from_text(text: &str) -> (t: Token)
        ensures
            is_text_token(t, text@),
    {
        let presentation = "text";
        proof {
            reveal_strlit("text");
        }
        Token {
            text: text.to_owned(),
            presentation: presentation.to_owned(),
            markup: typst_escape_content(text),
            render_markup: typst_escape_content(text),
        }
    }
}

/// Copies a slice of tokens.
pub fn clone_tokens(tokens: &[Token]) -> (copy: Vec<Token>)
    ensures
        copy@ == tokens@,
{
    let mut copy: Vec<Token> = Vec::new();
    let mut i: usize = 0;
    while i < tokens.len()
        invariant
            i <= tokens@.len(),
            copy@ == tokens@.subrange(0, i as int),
        decreases tokens@.len() - i,
    {
        copy.push(tokens[i].clone());
        i += 1;
        assert(copy@ =~= tokens@.subrange(0, i as int));
    }
    assert(tokens@.subrange(0, tokens@.len() as int) =~= tokens@);
    copy
}

/// Copies `tokens[start..end]`.
pub fn clone_range(tokens: &[Token], start: usize, end: usize) -> (copy: Vec<Token>)
    requires
        start <= end <= tokens@.len(),
    ensures
        copy@ == tokens@.subrange(start as int, end as int),
{
    let mut copy: Vec<Token> = Vec::new();
    let mut i: usize = start;
    while i < end
        invariant
            start <= i <= end <= tokens@.len(),
            copy@ == tokens@.subrange(start as int, i as int),
        decreases end - i,
    {
        copy.push(tokens[i].clone());
        i += 1;
        assert(copy@ =~= tokens@.subrange(start as int, i as int));
    }
    copy
}

// ---------------------------------------------------------------------------
// Splitting text into tokens
// ---------------------------------------------------------------------------

/// The class of a character for tokenisation.
#[derive(Clone, Copy, Debug, PartialEq, Eq, Structural)]
pub enum TextTokenKind {
    Space,
    Punctuation,
    Word,
}

#[verifier::opaque]
pub open spec fn kind_of(c: char) -> TextTokenKind {
    if is_white_space(c) {
        TextTokenKind::Space
    } else if is_ascii_punct(c) {
        TextTokenKind::Punctuation
    } else {
        TextTokenKind::Word
    }
}

/// The class of a character: white space, ASCII punctuation, or word.
pub fn text_token_kind(ch: char) -> (kind: TextTokenKind)
    ensures
        kind == kind_of(ch),
{
    reveal(kind_of);
    if is_whitespace(ch) {
        TextTokenKind::Space
    } else if is_ascii_punctuation(ch) {
        TextTokenKind::Punctuation
    } else {
        TextTokenKind::Word
    }
}

/// The maximal runs of characters of one class, in order.
pub open spec fn text_runs(cs: Seq<char>) -> Seq<Seq<char>>
    decreases cs.len(),
{
    if cs.len() == 0 {
        Seq::empty()
    } else {
        let runs = text_runs(cs.drop_last());
        let c = cs.last();
        if runs.len() > 0 && kind_of(runs.last().last()) == kind_of(c) {
            runs.update(runs.len() - 1, runs.last().push(c))
        } else {
            runs.push(seq![c])
        }
    }
}

/// The concatenation of a sequence of character runs.
pub open spec fn concat(runs: Seq<Seq<char>>) -> Seq<char>
    decreases runs.len(),
{
    if runs.len() == 0 {
        Seq::empty()
    } else {
        concat(runs.drop_last()) + runs.last()
    }
}

/// The runs are non-empty, each of one class, and neighbouring runs differ in class.
#[verifier::opaque]
pub open spec fn runs_well_formed(runs: Seq<Seq<char>>) -> bool {
    &&& forall|k: int| 0 <= k < runs.len() ==> (#[trigger] runs[k]).len() > 0
    &&& forall|k: int, d: int| 0 <= k < runs.len() && 0 <= d < runs[k].len() ==>
            kind_of(#[trigger] runs[k][d]) == kind_of(runs[k][0])
    &&& forall|k: int| 0 < k < runs.len() ==> kind_of((#[trigger] runs[k])[0]) != kind_of(runs[k - 1][0])
}

/// Splitting text into runs loses no character.
pub proof fn lemma_text_runs_concat(cs: Seq<char>)
    ensures
        concat(text_runs(cs)) == cs,
    decreases cs.len(),
{
    if cs.len() > 0 {
        let prev = cs.drop_last();
        lemma_text_runs_concat(prev);
        let runs = text_runs(prev);
        let c = cs.last();
        assert(cs =~= prev.push(c));
        if runs.len() > 0 && kind_of(runs.last().last()) == kind_of(c) {
            let new_runs = runs.update(runs.len() - 1, runs.last().push(c));
            assert(new_runs.drop_last() =~= runs.drop_last());
            assert(new_runs.last() == runs.last().push(c));
            assert(concat(new_runs) == concat(runs.drop_last()) + runs.last().push(c));
            assert(concat(runs) == concat(runs.drop_last()) + runs.last());
            assert(concat(runs.drop_last()) + runs.last().push(c) =~= (concat(runs.drop_last()) + runs.last()).push(c));
        } else {
            let new_runs = runs.push(seq![c]);
            assert(new_runs.drop_last() =~= runs);
            assert(concat(new_runs) == concat(runs) + seq![c]);
            assert(prev + seq![c] =~= prev.push(c));
        }
    }
}

#[verifier::rlimit(40)]
proof fn lemma_runs_extend(runs: Seq<Seq<char>>, c: char)
    requires
        runs_well_formed(runs),
        runs.len() > 0,
        kind_of(runs.last().last()) == kind_of(c),
    ensures
        runs_well_formed(runs.update(runs.len() - 1, runs.last().push(c))),
{
    reveal(runs_well_formed);
    let new_runs = runs.update(runs.len() - 1, runs.last().push(c));
    let last = runs.last();
    assert(kind_of(last[last.len() - 1]) == kind_of(last[0]));
    assert forall|k: int, d: int| 0 <= k < new_runs.len() && 0 <= d < new_runs[k].len() implies
        kind_of(#[trigger] new_runs[k][d]) == kind_of(new_runs[k][0]) by {
        if k < runs.len() - 1 {
            assert(new_runs[k] == runs[k]);
        } else if d < last.len() {
            assert(new_runs[k][d] == last[d]);
            assert(new_runs[k][0] == last[0]);
        } else {
            assert(new_runs[k][0] == last[0]);
        }
    }
    assert forall|k: int| 0 < k < new_runs.len() implies
        kind_of((#[trigger] new_runs[k])[0]) != kind_of(new_runs[k - 1][0]) by {
        assert(runs[k][0] == new_runs[k][0]);
        assert(runs[k - 1][0] == new_runs[k - 1][0]);
    }
    assert forall|k: int| 0 <= k < new_runs.len() implies (#[trigger] new_runs[k]).len() > 0 by {
        assert(runs[k].len() > 0);
    }
}

#[verifier::rlimit(60)]
proof fn lemma_runs_push(runs: Seq<Seq<char>>, c: char)
    requires
        runs_well_formed(runs),
        runs.len() > 0 ==> kind_of(runs.last().last()) != kind_of(c),
    ensures
        runs_well_formed(runs.push(seq![c])),
{
    reveal(runs_well_formed);
    let new_runs = runs.push(seq![c]);
    let n = runs.len() as int;
    assert(new_runs[n] == seq![c]);
    assert forall|k: int| 0 <= k < n implies #[trigger] new_runs[k] == runs[k] by {}
    assert forall|k: int, d: int| 0 <= k < new_runs.len() && 0 <= d < new_runs[k].len() implies
        kind_of(#[trigger] new_runs[k][d]) == kind_of(new_runs[k][0]) by {
        if k < n {
            assert(new_runs[k] == runs[k]);
        }
    }
    assert forall|k: int| 0 < k < new_runs.len() implies
        kind_of((#[trigger] new_runs[k])[0]) != kind_of(new_runs[k - 1][0]) by {
        if k < n {
            assert(new_runs[k] == runs[k]);
            assert(new_runs[k - 1] == runs[k - 1]);
        } else {
            let last = runs[n - 1];
            assert(new_runs[k - 1] == last);
            assert(last.len() > 0);
            assert(kind_of(last[last.len() - 1]) == kind_of(last[0]));
            assert(runs.last() == last);
        }
    }
    assert forall|k: int| 0 <= k < new_runs.len() implies (#[trigger] new_runs[k]).len() > 0 by {
        if k < n {
            assert(new_runs[k] == runs[k]);
        }
    }
}

/// Every run is non-empty and of one class, and neighbouring runs differ.
pub proof fn lemma_text_runs_well_formed(cs: Seq<char>)
    ensures
        runs_well_formed(text_runs(cs)),
    decreases cs.len(),
{
    if cs.len() == 0 {
        reveal(runs_well_formed);
    } else {
        let prev = cs.drop_last();
        lemma_text_runs_well_formed(prev);
        let runs = text_runs(prev);
        let c = cs.last();
        if runs.len() > 0 && kind_of(runs.last().last()) == kind_of(c) {
            lemma_runs_extend(runs, c);
        } else {
            lemma_runs_push(runs, c);
        }
    }
}

/// The texts of a token sequence.
pub open spec fn token_texts(tokens: Seq<Token>) -> Seq<Seq<char>> {
    tokens.map_values(|t: Token| t.text@)
}

/// Every token of `tokens` is a plain text token.
pub open spec fn all_text_tokens(tokens: Seq<Token>) -> bool {
    forall|k: int| 0 <= k < tokens.len() ==> is_text_token(#[trigger] tokens[k], tokens[k].text@)
}

/// Appends one plain text token per maximal run of same-class characters.
pub fn collect_text_tokens(s: &str, out: &mut Vec<Token>)
    ensures
        final(out)@.subrange(0, old(out)@.len() as int) == old(out)@,
        token_texts(final(out)@.subrange(old(out)@.len() as int, final(out)@.len() as int))
            == text_runs(s@),
        all_text_tokens(final(out)@.subrange(old(out)@.len() as int, final(out)@.len() as int)),
{
    let ghost start = old(out)@.len() as int;
    let ghost original = old(out)@;
    let mut run: Vec<char> = Vec::new();
    for c in it: s.chars()
        invariant
            it.seq() == s@,
            start == original.len(),
            out@.len() >= start,
            out@.subrange(0, start) == original,
            all_text_tokens(out@.subrange(start, out@.len() as int)),
            ({
                let done = token_texts(out@.subrange(start, out@.len() as int));
                let runs = text_runs(it.seq().take(it.index() as int));
                if run@.len() == 0 {
                    runs == done && it.index() == 0
                } else {
                    runs == done.push(run@)
                }
            }),
    {
        let ghost before = it.seq().take(it.index() as int);
        let ghost after = it.seq().take(it.index() + 1);
        proof {
            assert(after.drop_last() =~= before);
            assert(after.last() == c);
        }
        if run.len() > 0 && text_token_kind(run[run.len() - 1]) == text_token_kind(c) {
            run.push(c);
        } else {
            if run.len() > 0 {
                let text = string_of(&run);
                let ghost prev_out = out@;
                out.push(Token::from_text(text.as_str()));
                proof {
                    assert(out@.subrange(0, start) =~= prev_out.subrange(0, start));
                    assert(out@.subrange(start, out@.len() as int) =~= prev_out.subrange(start, prev_out.len() as int).push(out@.last()));
                }
            }
            run = Vec::new();
            run.push(c);
        }
        proof {
            let done = token_texts(out@.subrange(start, out@.len() as int));
            assert(text_runs(after) =~= done.push(run@));
        }
    }
    if run.len() > 0 {
        let text = string_of(&run);
        let ghost prev_out = out@;
        out.push(Token::from_text(text.as_str()));
        proof {
            assert(out@.subrange(0, start) =~= prev_out.subrange(0, start));
            assert(out@.subrange(start, out@.len() as int) =~= prev_out.subrange(start, prev_out.len() as int).push(out@.last()));
        }
    }
    proof {
        assert(s@.take(s@.len() as int) =~= s@);
        let done = token_texts(out@.subrange(start, out@.len() as int));
        assert(done =~= text_runs(s@));
    }
}

// ---------------------------------------------------------------------------
// Word operations
// ---------------------------------------------------------------------------

/// The kind of a word operation.
#[derive(Clone, Copy, Debug, PartialEq, Eq, Structural)]
pub enum OpKind {
    Equal,
    Delete,
    Insert,
}

/// A word-level diff operation over token runs.
#[derive(Debug)]
pub enum WordOp {
    Equal(Vec<Token>),
    Delete(Vec<Token>),
    Insert(Vec<Token>),
}

/// A word operation as a mathematical value: its kind and its tokens.
pub type WordOpView = (OpKind, Seq<Token>);

impl View for WordOp {
    type V = WordOpView;

    open spec fn view(&self) -> WordOpView {
        match self {
            WordOp::Equal(tokens) => (OpKind::Equal, tokens@),
            WordOp::Delete(tokens) => (OpKind::Delete, tokens@),
            WordOp::Insert(tokens) => (OpKind::Insert, tokens@),
        }
    }
}

impl Clone for WordOp {
    fn clone(&self) -> (copy: Self)
        ensures
            copy@ == self@,
    {
        match self {
            WordOp::Equal(tokens) => WordOp::Equal(clone_tokens(tokens.as_slice())),
            WordOp::Delete(tokens) => WordOp::Delete(clone_tokens(tokens.as_slice())),
            WordOp::Insert(tokens) => WordOp::Insert(clone_tokens(tokens.as_slice())),
        }
    }
}

/// The views of a sequence of word operations.
pub open spec fn op_views(ops: Seq<WordOp>) -> Seq<WordOpView> {
    ops.map_values(|op: WordOp| op@)
}

impl WordOp {
    /// A word operation of the given kind.
    pub fn of_kind(kind: OpKind, tokens: Vec<Token>) -> (op: WordOp)
        ensures
            op@ == (kind, tokens@),
    {
        match kind {
            OpKind::Equal => WordOp::Equal(tokens),
            OpKind::Delete => WordOp::Delete(tokens),
            OpKind::Insert => WordOp::Insert(tokens),
        }
    }

    /// The kind of this operation.
    pub fn kind(&self) -> (kind: OpKind)
        ensures
            kind == self@.0,
    {
        match self {
            WordOp::Equal(_) => OpKind::Equal,
            WordOp::Delete(_) => OpKind::Delete,
            WordOp::Insert(_) => OpKind::Insert,
        }
    }

    /// The tokens of this operation.
    pub fn tokens(&self) -> (tokens: &Vec<Token>)
        ensures
            tokens@ == self@.1,
    {
        match self {
            WordOp::Equal(tokens) => tokens,
            WordOp::Delete(tokens) => tokens,
            WordOp::Insert(tokens) => tokens,
        }
    }

    /// Takes the tokens out of this operation.
    pub fn into_tokens(self) -> (tokens: Vec<Token>)
        ensures
            tokens@ == self@.1,
    {
        match self {
            WordOp::Equal(tokens) => tokens,
            WordOp::Delete(tokens) => tokens,
            WordOp::Insert(tokens) => tokens,
        }
    }
}

/// Appending `next` to `ops`: an operation of the same kind as the last one
/// is merged into it.
pub open spec fn coalesce_spec(ops: Seq<WordOpView>, next: WordOpView) -> Seq<WordOpView> {
    if ops.len() > 0 && ops.last().0 == next.0 {
        ops.update(ops.len() - 1, (next.0, ops.last().1 + next.1))
    } else {
        ops.push(next)
    }
}

/// Appends `next`, merging it into the last operation when the kinds agree.
pub fn coalesce(ops: &mut Vec<WordOp>, next: WordOp)
    ensures
        op_views(final(ops)@) == coalesce_spec(op_views(old(ops)@), next@),
{
    let n = ops.len();
    if n > 0 && ops[n - 1].kind() == next.kind() {
        let last = ops.pop().unwrap();
        let kind = next.kind();
        let mut merged = last.into_tokens();
        let mut more = next.into_tokens();
        merged.append(&mut more);
        ops.push(WordOp::of_kind(kind, merged));
        assert(op_views(final(ops)@) =~= coalesce_spec(op_views(old(ops)@), next@));
    } else {
        ops.push(next);
        assert(op_views(final(ops)@) =~= coalesce_spec(op_views(old(ops)@), next@));
    }
}

/// All characters of the text are white space.
pub open spec fn all_white(cs: Seq<char>) -> bool {
    forall|d: int| 0 <= d < cs.len() ==> is_white_space(#[trigger] cs[d])
}

/// Some character of the text is not white space.
pub open spec fn has_visible(cs: Seq<char>) -> bool {
    exists|d: int| 0 <= d < cs.len() && !is_white_space(#[trigger] cs[d])
}

/// Whether the text is made of white space only.
pub fn text_is_white(text: &String) -> (b: bool)
    ensures
        b == all_white(text@),
{
    for c in it: text.as_str().chars()
        invariant
            it.seq() == text@,
            all_white(it.seq().take(it.index() as int)),
    {
        if !is_whitespace(c) {
            assert(it.seq()[it.index() as int] == c);
            return false;
        }
        assert(it.seq().take(it.index() + 1) =~= it.seq().take(it.index() as int).push(c));
    }
    assert(text@.take(text@.len() as int) =~= text@);
    true
}

/// Every token's text is white space only.
pub open spec fn tokens_white(tokens: Seq<Token>) -> bool {
    forall|k: int| 0 <= k < tokens.len() ==> all_white(#[trigger] tokens[k].text@)
}

/// An equal run whose tokens are all white space.
pub open spec fn is_ws_equal(op: WordOpView) -> bool {
    op.0 == OpKind::Equal && tokens_white(op.1)
}

/// A delete or an insert.
pub open spec fn is_change(op: WordOpView) -> bool {
    op.0 != OpKind::Equal
}

/// Whether `op` is an equal run of white space only.
pub fn is_whitespace_only_equal(op: &WordOp) -> (b: bool)
    ensures
        b == is_ws_equal(op@),
{
    match op {
        WordOp::Equal(tokens) => {
            let mut k: usize = 0;
            while k < tokens.len()
                invariant
                    op@ == (OpKind::Equal, tokens@),
                    k <= tokens@.len(),
                    forall|j: int| 0 <= j < k ==> all_white(#[trigger] tokens@[j].text@),
                decreases tokens@.len() - k,
            {
                if !text_is_white(&tokens[k].text) {
                    assert(!all_white(tokens@[k as int].text@));
                    assert(op@.1 == tokens@);
                    assert(!tokens_white(op@.1));
                    return false;
                }
                k += 1;
            }
            true
        },
        _ => false,
    }
}

/// The state of merging a zone: deleted tokens, inserted tokens, and the white
/// space still pending on each side.
pub type ZoneState = (Seq<Token>, Seq<Token>, Seq<Token>, Seq<Token>);

pub open spec fn zone_step(st: ZoneState, op: WordOpView) -> ZoneState {
    let (del, ins, pdel, pins) = st;
    match op.0 {
        OpKind::Delete => (del + pdel + op.1, ins, Seq::empty(), pins),
        OpKind::Insert => (del, ins + pins + op.1, pdel, Seq::empty()),
        OpKind::Equal => (del, ins, pdel + op.1, pins + op.1),
    }
}

pub open spec fn zone_fold(zone: Seq<WordOpView>) -> ZoneState
    decreases zone.len(),
{
    if zone.len() == 0 {
        (Seq::empty(), Seq::empty(), Seq::empty(), Seq::empty())
    } else {
        zone_step(zone_fold(zone.drop_last()), zone.last())
    }
}

/// A zone merged into at most one delete followed by at most one insert; the
/// white space between changes goes to both sides, trailing white space is dropped.
pub open spec fn merge_zone_spec(zone: Seq<WordOpView>) -> Seq<WordOpView> {
    let st = zone_fold(zone);
    let del: Seq<WordOpView> = if st.0.len() > 0 { seq![(OpKind::Delete, st.0)] } else { Seq::empty() };
    let ins: Seq<WordOpView> = if st.1.len() > 0 { seq![(OpKind::Insert, st.1)] } else { Seq::empty() };
    del + ins
}

/// Merges the operations of one substitution zone.
pub fn merge_zone(zone: &[WordOp]) -> (merged: Vec<WordOp>)
    ensures
        op_views(merged@) == merge_zone_spec(op_views(zone@)),
{
    let mut delete_tokens: Vec<Token> = Vec::new();
    let mut insert_tokens: Vec<Token> = Vec::new();
    let mut pending_del: Vec<Token> = Vec::new();
    let mut pending_ins: Vec<Token> = Vec::new();
    let mut k: usize = 0;
    while k < zone.len()
        invariant
            k <= zone@.len(),
            zone_fold(op_views(zone@).subrange(0, k as int))
                == (delete_tokens@, insert_tokens@, pending_del@, pending_ins@),
        decreases zone@.len() - k,
    {
        let ghost prefix = op_views(zone@).subrange(0, k as int);
        let op = &zone[k];
        let mut tokens = clone_tokens(op.tokens().as_slice());
        match op.kind() {
            OpKind::Delete => {
                delete_tokens.append(&mut pending_del);
                delete_tokens.append(&mut tokens);
            },
            OpKind::Insert => {
                insert_tokens.append(&mut pending_ins);
                insert_tokens.append(&mut tokens);
            },
            OpKind::Equal => {
                let mut copy = clone_tokens(tokens.as_slice());
                pending_del.append(&mut tokens);
                pending_ins.append(&mut copy);
            },
        }
        k += 1;
        proof {
            let next = op_views(zone@).subrange(0, k as int);
            assert(next.drop_last() =~= prefix);
            assert(next.last() == zone@[k - 1]@);
        }
    }
    assert(op_views(zone@).subrange(0, zone@.len() as int) =~= op_views(zone@));
    let mut merged: Vec<WordOp> = Vec::new();
    if delete_tokens.len() > 0 {
        merged.push(WordOp::Delete(delete_tokens));
    }
    if insert_tokens.len() > 0 {
        merged.push(WordOp::Insert(insert_tokens));
    }
    assert(op_views(merged@) =~= merge_zone_spec(op_views(zone@)));
    merged
}

// ---------------------------------------------------------------------------
// Substitution zones
// ---------------------------------------------------------------------------

/// The end of the zone of changes and white-space equal runs starting at `i`.
pub open spec fn zone_scan(ops: Seq<WordOpView>, i: nat) -> nat
    decreases ops.len() - i,
{
    if i >= ops.len() || !(is_change(ops[i as int]) || is_ws_equal(ops[i as int])) {
        i
    } else {
        zone_scan(ops, i + 1)
    }
}

/// `j` moved back over trailing white-space equal runs, not below `start`.
pub open spec fn trim_back(ops: Seq<WordOpView>, start: nat, j: nat) -> nat
    decreases j,
{
    if j > start && j <= ops.len() && is_ws_equal(ops[j - 1]) {
        trim_back(ops, start, (j - 1) as nat)
    } else {
        j
    }
}

/// The operations from `i` on with every substitution zone merged.
pub open spec fn merge_from(ops: Seq<WordOpView>, i: nat) -> Seq<WordOpView>
    decreases ops.len() - i,
{
    if i >= ops.len() {
        Seq::empty()
    } else if is_change(ops[i as int]) {
        let j = trim_back(ops, i, zone_scan(ops, i));
        let next = if i < j && j <= ops.len() { j } else { i + 1 };
        merge_zone_spec(ops.subrange(i as int, next as int)) + merge_from(ops, next)
    } else {
        seq![ops[i as int]] + merge_from(ops, i + 1)
    }
}

proof fn lemma_zone_scan_bounds(ops: Seq<WordOpView>, i: nat)
    requires
        i <= ops.len(),
    ensures
        i <= zone_scan(ops, i) <= ops.len(),
        i < ops.len() && is_change(ops[i as int]) ==> zone_scan(ops, i) > i,
    decreases ops.len() - i,
{
    if i < ops.len() && (is_change(ops[i as int]) || is_ws_equal(ops[i as int])) {
        lemma_zone_scan_bounds(ops, i + 1);
    }
}

proof fn lemma_trim_back_bounds(ops: Seq<WordOpView>, start: nat, j: nat)
    requires
        start < j <= ops.len(),
        !is_ws_equal(ops[start as int]),
    ensures
        start < trim_back(ops, start, j) <= j,
    decreases j,
{
    if j > start && is_ws_equal(ops[j - 1]) {
        lemma_trim_back_bounds(ops, start, (j - 1) as nat);
    }
}

/// Merges every substitution zone: a maximal run of deletes, inserts and
/// white-space equal runs becomes at most one delete and one insert, with the
/// white space between changes copied to both sides and the trailing white
/// space left as it was. Other equal runs are kept.
pub fn merge_substitution_zones(ops: Vec<WordOp>) -> (merged: Vec<WordOp>)
    ensures
        op_views(merged@) == merge_from(op_views(ops@), 0),
{
    let ghost opsv = op_views(ops@);
    let n = ops.len();
    let mut result: Vec<WordOp> = Vec::new();
    let mut i: usize = 0;
    while i < n
        invariant
            n == ops@.len(),
            opsv == op_views(ops@),
            i <= n,
            op_views(result@) + merge_from(opsv, i as nat) == merge_from(opsv, 0),
        decreases n - i,
    {
        let ghost i0 = i;
        if ops[i].kind() != OpKind::Equal {
            let zone_start = i;
            proof {
                lemma_zone_scan_bounds(opsv, i as nat);
            }
            while i < n && (ops[i].kind() != OpKind::Equal || is_whitespace_only_equal(&ops[i]))
                invariant
                    n == ops@.len(),
                    opsv == op_views(ops@),
                    zone_start <= i <= n,
                    zone_scan(opsv, zone_start as nat) == zone_scan(opsv, i as nat),
                decreases n - i,
            {
                i += 1;
            }
            let ghost scan = i;
            proof {
                lemma_zone_scan_bounds(opsv, zone_start as nat);
                lemma_trim_back_bounds(opsv, zone_start as nat, scan as nat);
            }
            while i > zone_start && is_whitespace_only_equal(&ops[i - 1])
                invariant
                    n == ops@.len(),
                    opsv == op_views(ops@),
                    zone_start <= i <= scan <= n,
                    trim_back(opsv, zone_start as nat, scan as nat) == trim_back(opsv, zone_start as nat, i as nat),
                decreases i,
            {
                i -= 1;
            }
            proof {
                assert(trim_back(opsv, zone_start as nat, i as nat) == i);
            }
            let zone = &ops.as_slice()[zone_start..i];
            assert(op_views(zone@) =~= opsv.subrange(zone_start as int, i as int));
            let mut merged = merge_zone(zone);
            let ghost before = op_views(result@);
            result.append(&mut merged);
            assert(op_views(result@) =~= before + merge_zone_spec(opsv.subrange(zone_start as int, i as int)));
        } else {
            let ghost before = op_views(result@);
            result.push(ops[i].clone());
            i += 1;
            assert(op_views(result@) =~= before + seq![opsv[i0 as int]]);
        }
    }
    assert(op_views(result@) =~= op_views(result@) + merge_from(opsv, n as nat));
    result
}

// ---------------------------------------------------------------------------
// Word diff
// ---------------------------------------------------------------------------

/// The word operations that one Myers operation adds: equal runs take the
/// new side's tokens, a replacement becomes a delete followed by an insert.
pub open spec fn myers_word_step(acc: Seq<WordOpView>, old: Seq<Token>, new: Seq<Token>, op: MyersOp) -> Seq<WordOpView> {
    match op {
        MyersOp::Equal { new_index, len, .. } =>
            coalesce_spec(acc, (OpKind::Equal, new.subrange(new_index as int, new_index + len))),
        MyersOp::Delete { old_index, old_len, .. } =>
            coalesce_spec(acc, (OpKind::Delete, old.subrange(old_index as int, old_index + old_len))),
        MyersOp::Insert { new_index, new_len, .. } =>
            coalesce_spec(acc, (OpKind::Insert, new.subrange(new_index as int, new_index + new_len))),
        MyersOp::Replace { old_index, old_len, new_index, new_len } => coalesce_spec(
            coalesce_spec(acc, (OpKind::Delete, old.subrange(old_index as int, old_index + old_len))),
            (OpKind::Insert, new.subrange(new_index as int, new_index + new_len)),
        ),
    }
}

/// The coalesced word operations of a Myers script.
pub open spec fn myers_word_ops(old: Seq<Token>, new: Seq<Token>, script: Seq<MyersOp>) -> Seq<WordOpView>
    decreases script.len(),
{
    if script.len() == 0 {
        Seq::empty()
    } else {
        myers_word_step(myers_word_ops(old, new, script.drop_last()), old, new, script.last())
    }
}

/// Neighbouring operations differ in kind.
pub open spec fn kinds_alternate(ops: Seq<WordOpView>) -> bool {
    forall|k: int| 0 <= k < ops.len() - 1 ==> #[trigger] ops[k].0 != ops[k + 1].0
}

proof fn lemma_coalesce_alternates(ops: Seq<WordOpView>, next: WordOpView)
    requires
        kinds_alternate(ops),
    ensures
        kinds_alternate(coalesce_spec(ops, next)),
        coalesce_spec(ops, next).len() > 0,
        coalesce_spec(ops, next).last().0 == next.0,
{
    let out = coalesce_spec(ops, next);
    assert forall|k: int| 0 <= k < out.len() - 1 implies #[trigger] out[k].0 != out[k + 1].0 by {
        if ops.len() > 0 && ops.last().0 == next.0 {
            assert(out[k] == ops[k]);
            if k + 1 < ops.len() - 1 {
                assert(out[k + 1] == ops[k + 1]);
            }
        } else {
            assert(out[k] == ops[k]);
            if k + 1 < ops.len() {
                assert(out[k + 1] == ops[k + 1]);
            }
        }
    }
}

/// Coalescing leaves no two neighbouring operations of one kind: adjacent
/// deletes, and adjacent inserts, from the Myers script are merged.
pub proof fn law_coalesced_kinds_alternate(old: Seq<Token>, new: Seq<Token>, script: Seq<MyersOp>)
    ensures
        kinds_alternate(myers_word_ops(old, new, script)),
    decreases script.len(),
{
    if script.len() > 0 {
        law_coalesced_kinds_alternate(old, new, script.drop_last());
        let acc = myers_word_ops(old, new, script.drop_last());
        match script.last() {
            MyersOp::Equal { new_index, len, .. } => {
                lemma_coalesce_alternates(acc, (OpKind::Equal, new.subrange(new_index as int, new_index + len)));
            },
            MyersOp::Delete { old_index, old_len, .. } => {
                lemma_coalesce_alternates(acc, (OpKind::Delete, old.subrange(old_index as int, old_index + old_len)));
            },
            MyersOp::Insert { new_index, new_len, .. } => {
                lemma_coalesce_alternates(acc, (OpKind::Insert, new.subrange(new_index as int, new_index + new_len)));
            },
            MyersOp::Replace { old_index, old_len, new_index, new_len } => {
                let d = (OpKind::Delete, old.subrange(old_index as int, old_index + old_len));
                lemma_coalesce_alternates(acc, d);
                lemma_coalesce_alternates(coalesce_spec(acc, d), (OpKind::Insert, new.subrange(new_index as int, new_index + new_len)));
            },
        }
    }
}

/// Every operation holds at least one token.
pub open spec fn ops_nonempty(ops: Seq<WordOpView>) -> bool {
    forall|k: int| 0 <= k < ops.len() ==> (#[trigger] ops[k]).1.len() > 0
}

proof fn lemma_coalesce_nonempty(ops: Seq<WordOpView>, next: WordOpView)
    requires
        ops_nonempty(ops),
        next.1.len() > 0,
    ensures
        ops_nonempty(coalesce_spec(ops, next)),
{
    let out = coalesce_spec(ops, next);
    assert forall|k: int| 0 <= k < out.len() implies (#[trigger] out[k]).1.len() > 0 by {
        if ops.len() > 0 && ops.last().0 == next.0 {
            if k < ops.len() - 1 {
                assert(out[k] == ops[k]);
            }
        } else if k < ops.len() {
            assert(out[k] == ops[k]);
        }
    }
}

/// A script with no empty operation, inside both sequences, gives word
/// operations that each hold tokens.
proof fn lemma_word_ops_nonempty(old: Seq<Token>, new: Seq<Token>, script: Seq<MyersOp>)
    requires
        myers_ops_nonempty(script),
        forall|m: int| 0 <= m < script.len() ==> myers_op_in_bounds(#[trigger] script[m], old.len() as int, new.len() as int),
    ensures
        ops_nonempty(myers_word_ops(old, new, script)),
    decreases script.len(),
{
    if script.len() > 0 {
        let last = script.last();
        assert(myers_op_nonempty(script[script.len() - 1]));
        assert(myers_op_in_bounds(script[script.len() - 1], old.len() as int, new.len() as int));
        assert forall|m: int| 0 <= m < script.drop_last().len() implies myers_op_nonempty(#[trigger] script.drop_last()[m]) by {
            assert(script.drop_last()[m] == script[m]);
        }
        assert forall|m: int| 0 <= m < script.drop_last().len() implies myers_op_in_bounds(#[trigger] script.drop_last()[m], old.len() as int, new.len() as int) by {
            assert(script.drop_last()[m] == script[m]);
        }
        lemma_word_ops_nonempty(old, new, script.drop_last());
        let acc = myers_word_ops(old, new, script.drop_last());
        match last {
            MyersOp::Equal { new_index, len, .. } => {
                lemma_coalesce_nonempty(acc, (OpKind::Equal, new.subrange(new_index as int, new_index + len)));
            },
            MyersOp::Delete { old_index, old_len, .. } => {
                lemma_coalesce_nonempty(acc, (OpKind::Delete, old.subrange(old_index as int, old_index + old_len)));
            },
            MyersOp::Insert { new_index, new_len, .. } => {
                lemma_coalesce_nonempty(acc, (OpKind::Insert, new.subrange(new_index as int, new_index + new_len)));
            },
            MyersOp::Replace { old_index, old_len, new_index, new_len } => {
                let d = (OpKind::Delete, old.subrange(old_index as int, old_index + old_len));
                lemma_coalesce_nonempty(acc, d);
                lemma_coalesce_nonempty(coalesce_spec(acc, d), (OpKind::Insert, new.subrange(new_index as int, new_index + new_len)));
            },
        }
    }
}

proof fn lemma_merge_from_nonempty(ops: Seq<WordOpView>, i: nat)
    requires
        ops_nonempty(ops),
    ensures
        ops_nonempty(merge_from(ops, i)),
    decreases ops.len() - i,
{
    if i < ops.len() {
        if is_change(ops[i as int]) {
            let j = trim_back(ops, i, zone_scan(ops, i));
            let next = if i < j && j <= ops.len() { j } else { i + 1 };
            lemma_merge_from_nonempty(ops, next);
            let z = merge_zone_spec(ops.subrange(i as int, next as int));
            let out = z + merge_from(ops, next);
            assert forall|k: int| 0 <= k < out.len() implies (#[trigger] out[k]).1.len() > 0 by {
                if k >= z.len() {
                    assert(out[k] == merge_from(ops, next)[k - z.len()]);
                }
            }
        } else {
            lemma_merge_from_nonempty(ops, i + 1);
            let out = seq![ops[i as int]] + merge_from(ops, i + 1);
            assert forall|k: int| 0 <= k < out.len() implies (#[trigger] out[k]).1.len() > 0 by {
                if k >= 1 {
                    assert(out[k] == merge_from(ops, i + 1)[k - 1]);
                }
            }
        }
    }
}

proof fn lemma_concat_alternates(a: Seq<WordOpView>, b: Seq<WordOpView>)
    requires
        kinds_alternate(a),
        kinds_alternate(b),
        a.len() > 0 && b.len() > 0 ==> a.last().0 != b[0].0,
    ensures
        kinds_alternate(a + b),
{
    let out = a + b;
    assert forall|k: int| 0 <= k < out.len() - 1 implies #[trigger] out[k].0 != out[k + 1].0 by {
        if k + 1 < a.len() {
            assert(out[k] == a[k] && out[k + 1] == a[k + 1]);
        } else if k + 1 == a.len() {
            assert(out[k] == a.last() && out[k + 1] == b[0]);
        } else {
            assert(out[k] == b[k - a.len()] && out[k + 1] == b[k - a.len() + 1]);
        }
    }
}

proof fn lemma_zone_fold_grows(zone: Seq<WordOpView>)
    requires
        zone.len() > 0,
    ensures
        zone_fold(zone).0.len() >= zone_fold(zone.take(1)).0.len(),
        zone_fold(zone).1.len() >= zone_fold(zone.take(1)).1.len(),
    decreases zone.len(),
{
    if zone.len() > 1 {
        lemma_zone_fold_grows(zone.drop_last());
        assert(zone.drop_last().take(1) =~= zone.take(1));
    } else {
        assert(zone.take(1) =~= zone);
    }
}

/// A zone that starts with a change holding tokens merges into one or two
/// changes, a delete before an insert.
proof fn lemma_merge_zone_shape(zone: Seq<WordOpView>)
    requires
        zone.len() > 0,
        is_change(zone[0]),
        zone[0].1.len() > 0,
    ensures
        merge_zone_spec(zone).len() > 0,
        kinds_alternate(merge_zone_spec(zone)),
        forall|k: int| 0 <= k < merge_zone_spec(zone).len() ==> is_change(#[trigger] merge_zone_spec(zone)[k]),
{
    lemma_zone_fold_grows(zone);
    let first = zone.take(1);
    assert(first.drop_last() =~= Seq::<WordOpView>::empty());
    assert(first.last() == zone[0]);
    let z = merge_zone_spec(zone);
    assert forall|k: int| 0 <= k < z.len() implies is_change(#[trigger] z[k]) by {}
}

/// Where a zone merged from `i` ends, and that the operation there, if any,
/// is no change.
proof fn lemma_zone_next(ops: Seq<WordOpView>, i: nat)
    requires
        i < ops.len(),
        is_change(ops[i as int]),
    ensures
        i < trim_back(ops, i, zone_scan(ops, i)) <= ops.len(),
        trim_back(ops, i, zone_scan(ops, i)) < ops.len()
            ==> !is_change(ops[trim_back(ops, i, zone_scan(ops, i)) as int]),
{
    lemma_zone_scan_bounds(ops, i);
    lemma_trim_back_bounds(ops, i, zone_scan(ops, i));
    lemma_zone_scan_stops(ops, i);
    lemma_trim_back_stops(ops, i, zone_scan(ops, i));
}

proof fn lemma_zone_scan_stops(ops: Seq<WordOpView>, i: nat)
    requires
        i <= ops.len(),
    ensures
        zone_scan(ops, i) < ops.len() ==> !is_change(ops[zone_scan(ops, i) as int]),
    decreases ops.len() - i,
{
    if i < ops.len() && (is_change(ops[i as int]) || is_ws_equal(ops[i as int])) {
        lemma_zone_scan_stops(ops, i + 1);
    }
}

proof fn lemma_trim_back_stops(ops: Seq<WordOpView>, start: nat, j: nat)
    requires
        j <= ops.len(),
        j < ops.len() ==> !is_change(ops[j as int]),
    ensures
        trim_back(ops, start, j) < ops.len() ==> !is_change(ops[trim_back(ops, start, j) as int]),
    decreases j,
{
    if j > start && j <= ops.len() && is_ws_equal(ops[j - 1]) {
        lemma_trim_back_stops(ops, start, (j - 1) as nat);
    }
}

proof fn lemma_merge_from_alternates(ops: Seq<WordOpView>, i: nat)
    requires
        kinds_alternate(ops),
        ops_nonempty(ops),
    ensures
        kinds_alternate(merge_from(ops, i)),
        i < ops.len() ==> merge_from(ops, i).len() > 0
            && (is_change(merge_from(ops, i)[0]) == is_change(ops[i as int])),
    decreases ops.len() - i,
{
    if i < ops.len() {
        if is_change(ops[i as int]) {
            lemma_zone_next(ops, i);
            let next = trim_back(ops, i, zone_scan(ops, i));
            lemma_merge_from_alternates(ops, next);
            let zone = ops.subrange(i as int, next as int);
            assert(zone[0] == ops[i as int]);
            lemma_merge_zone_shape(zone);
            let z = merge_zone_spec(zone);
            assert(is_change(z[z.len() - 1]));
            lemma_concat_alternates(z, merge_from(ops, next));
            assert((z + merge_from(ops, next))[0] == z[0]);
        } else {
            lemma_merge_from_alternates(ops, i + 1);
            let one = seq![ops[i as int]];
            if i + 1 < ops.len() {
                assert(ops[i as int].0 != ops[i as int + 1].0);
            }
            lemma_concat_alternates(one, merge_from(ops, i + 1));
            assert((one + merge_from(ops, i + 1))[0] == ops[i as int]);
        }
    }
}

/// The result of [`diff_words`].
pub open spec fn diff_words_spec(old: Seq<Token>, new: Seq<Token>) -> Seq<WordOpView> {
    merge_from(myers_word_ops(old, new, keyed_myers_script(key_views(old), key_views(new))), 0)
}

/// The coalesced word operations of a Myers script over two token sequences.
pub fn coalesced_word_ops(old: &[Token], new: &[Token], script: &Vec<MyersOp>) -> (ops: Vec<WordOp>)
    requires
        forall|m: int| 0 <= m < script@.len() ==> myers_op_in_bounds(#[trigger] script@[m], old@.len() as int, new@.len() as int),
    ensures
        op_views(ops@) == myers_word_ops(old@, new@, script@),
{
    let n_old = old.len();
    let n_new = new.len();
    let mut result: Vec<WordOp> = Vec::new();
    let mut k: usize = 0;
    while k < script.len()
        invariant
            n_old == old@.len(),
            n_new == new@.len(),
            k <= script@.len(),
            forall|m: int| 0 <= m < script@.len() ==> myers_op_in_bounds(#[trigger] script@[m], old@.len() as int, new@.len() as int),
            op_views(result@) == myers_word_ops(old@, new@, script@.subrange(0, k as int)),
        decreases script@.len() - k,
    {
        let ghost prefix = script@.subrange(0, k as int);
        let op = script[k];
        assert(op == script@[k as int]);
        assert(myers_op_in_bounds(op, old@.len() as int, new@.len() as int));
        match op {
            MyersOp::Equal { old_index, new_index, len } => {
                coalesce(&mut result, WordOp::Equal(clone_range(new, new_index, new_index + len)));
            },
            MyersOp::Delete { old_index, old_len, new_index } => {
                coalesce(&mut result, WordOp::Delete(clone_range(old, old_index, old_index + old_len)));
            },
            MyersOp::Insert { old_index, new_index, new_len } => {
                coalesce(&mut result, WordOp::Insert(clone_range(new, new_index, new_index + new_len)));
            },
            MyersOp::Replace { old_index, old_len, new_index, new_len } => {
                coalesce(&mut result, WordOp::Delete(clone_range(old, old_index, old_index + old_len)));
                coalesce(&mut result, WordOp::Insert(clone_range(new, new_index, new_index + new_len)));
            },
        }
        k += 1;
        proof {
            let next = script@.subrange(0, k as int);
            assert(next.drop_last() =~= prefix);
            assert(next.last() == op);
        }
    }
    assert(script@.subrange(0, script@.len() as int) =~= script@);
    result
}

/// The word operations of a text against an equal one: a single equal run
/// of the new tokens, or nothing when the text is empty.
pub open spec fn unchanged_word_ops(tokens: Seq<Token>) -> Seq<WordOpView> {
    if tokens.len() == 0 {
        Seq::empty()
    } else {
        seq![(OpKind::Equal, tokens)]
    }
}

/// Diffs two token sequences: Myers over (text, presentation) keys, adjacent
/// operations of one kind coalesced, then substitution zones merged.
///
/// Two texts whose tokens have equal keys come out as one equal run.
pub fn diff_words(old: &[Token], new: &[Token]) -> (ops: Vec<WordOp>)
    requires
        old@.len() + new@.len() <= usize::MAX,
    ensures
        op_views(ops@) == diff_words_spec(old@, new@),
        key_views(old@) == key_views(new@) ==> op_views(ops@) == unchanged_word_ops(new@),
        new_side(myers_word_ops(old@, new@, keyed_myers_script(key_views(old@), key_views(new@)))) == new@,
        key_views(old_side(myers_word_ops(old@, new@, keyed_myers_script(key_views(old@), key_views(new@)))))
            == key_views(old@),
        ops_nonempty(op_views(ops@)),
        kinds_alternate(op_views(ops@)),
{
    let script = keyed_myers_diff(old, new);
    proof {
        lemma_myers_in_bounds(old@.len() as int, new@.len() as int, script@, 0, 0);
        law_word_script_sides(old@, new@, script@);
        lemma_word_ops_nonempty(old@, new@, script@);
    }
    let result = coalesced_word_ops(old, new, &script);
    let merged = merge_substitution_zones(result);
    proof {
        lemma_merge_from_nonempty(op_views(result@), 0);
        law_coalesced_kinds_alternate(old@, new@, script@);
        lemma_merge_from_alternates(op_views(result@), 0);
        if key_views(old@) == key_views(new@) {
            assert(key_views(old@).len() == old@.len());
            assert(key_views(new@).len() == new@.len());
            let n = new@.len();
            if n == 0 {
                assert(script@ =~= Seq::<MyersOp>::empty());
                assert(op_views(result@) =~= Seq::<WordOpView>::empty());
            } else {
                let e = MyersOp::Equal { old_index: 0, new_index: 0, len: n as usize };
                assert(script@ =~= seq![e]);
                assert(script@.drop_last() =~= Seq::<MyersOp>::empty());
                assert(new@.subrange(0, n as int) =~= new@);
                assert(myers_word_ops(old@, new@, script@.drop_last()) =~= Seq::<WordOpView>::empty());
                assert(script@.last() == e);
                assert(myers_word_ops(old@, new@, script@) == myers_word_step(Seq::<WordOpView>::empty(), old@, new@, e));
                assert(coalesce_spec(Seq::<WordOpView>::empty(), (OpKind::Equal, new@)) =~= seq![(OpKind::Equal, new@)]);
                assert(op_views(result@) =~= seq![(OpKind::Equal, new@)]);
                let v = op_views(result@);
                assert(!is_change(v[0]));
                assert(merge_from(v, 1) =~= Seq::<WordOpView>::empty());
                assert(merge_from(v, 0) =~= seq![v[0]] + merge_from(v, 1));
            }
        }
    }
    merged
}


// ---------------------------------------------------------------------------
// Sides of a word script
// ---------------------------------------------------------------------------

/// What an operation shows of the new text: its tokens unless it deletes.
pub open spec fn new_part_of(op: WordOpView) -> Seq<Token> {
    if op.0 == OpKind::Delete { Seq::empty() } else { op.1 }
}

/// What an operation shows of the old text: its tokens unless it inserts.
pub open spec fn old_part_of(op: WordOpView) -> Seq<Token> {
    if op.0 == OpKind::Insert { Seq::empty() } else { op.1 }
}

/// The new side of word operations: the tokens of the equal and inserted runs.
pub open spec fn new_side(ops: Seq<WordOpView>) -> Seq<Token>
    decreases ops.len(),
{
    if ops.len() == 0 { Seq::empty() } else { new_side(ops.drop_last()) + new_part_of(ops.last()) }
}

/// The old side of word operations: the tokens of the equal and deleted runs.
pub open spec fn old_side(ops: Seq<WordOpView>) -> Seq<Token>
    decreases ops.len(),
{
    if ops.len() == 0 { Seq::empty() } else { old_side(ops.drop_last()) + old_part_of(ops.last()) }
}

proof fn lemma_coalesce_sides(ops: Seq<WordOpView>, next: WordOpView)
    ensures
        new_side(coalesce_spec(ops, next)) == new_side(ops) + new_part_of(next),
        old_side(coalesce_spec(ops, next)) == old_side(ops) + old_part_of(next),
{
    let out = coalesce_spec(ops, next);
    if ops.len() > 0 && ops.last().0 == next.0 {
        assert(out.drop_last() =~= ops.drop_last());
        assert(out.last() == (next.0, ops.last().1 + next.1));
        assert(new_side(out) =~= new_side(ops) + new_part_of(next));
        assert(old_side(out) =~= old_side(ops) + old_part_of(next));
    } else {
        assert(out.drop_last() =~= ops);
    }
}

/// What a Myers operation shows of the new text.
pub open spec fn myers_new_part(new: Seq<Token>, op: MyersOp) -> Seq<Token> {
    match op {
        MyersOp::Equal { new_index, len, .. } => new.subrange(new_index as int, new_index + len),
        MyersOp::Delete { .. } => Seq::empty(),
        MyersOp::Insert { new_index, new_len, .. } => new.subrange(new_index as int, new_index + new_len),
        MyersOp::Replace { new_index, new_len, .. } => new.subrange(new_index as int, new_index + new_len),
    }
}

/// What a Myers operation shows of the old text (an equal run shows the new
/// text's tokens).
pub open spec fn myers_old_part(old: Seq<Token>, new: Seq<Token>, op: MyersOp) -> Seq<Token> {
    match op {
        MyersOp::Equal { new_index, len, .. } => new.subrange(new_index as int, new_index + len),
        MyersOp::Delete { old_index, old_len, .. } => old.subrange(old_index as int, old_index + old_len),
        MyersOp::Insert { .. } => Seq::empty(),
        MyersOp::Replace { old_index, old_len, .. } => old.subrange(old_index as int, old_index + old_len),
    }
}

pub open spec fn myers_new_parts(new: Seq<Token>, s: Seq<MyersOp>) -> Seq<Token>
    decreases s.len(),
{
    if s.len() == 0 { Seq::empty() } else { myers_new_parts(new, s.drop_last()) + myers_new_part(new, s.last()) }
}

pub open spec fn myers_old_parts(old: Seq<Token>, new: Seq<Token>, s: Seq<MyersOp>) -> Seq<Token>
    decreases s.len(),
{
    if s.len() == 0 { Seq::empty() } else { myers_old_parts(old, new, s.drop_last()) + myers_old_part(old, new, s.last()) }
}

proof fn lemma_word_ops_parts(old: Seq<Token>, new: Seq<Token>, s: Seq<MyersOp>)
    ensures
        new_side(myers_word_ops(old, new, s)) == myers_new_parts(new, s),
        old_side(myers_word_ops(old, new, s)) == myers_old_parts(old, new, s),
    decreases s.len(),
{
    if s.len() > 0 {
        lemma_word_ops_parts(old, new, s.drop_last());
        let acc = myers_word_ops(old, new, s.drop_last());
        match s.last() {
            MyersOp::Equal { new_index, len, .. } => {
                lemma_coalesce_sides(acc, (OpKind::Equal, new.subrange(new_index as int, new_index + len)));
            },
            MyersOp::Delete { old_index, old_len, .. } => {
                lemma_coalesce_sides(acc, (OpKind::Delete, old.subrange(old_index as int, old_index + old_len)));
                assert(new_side(acc) + Seq::<Token>::empty() =~= new_side(acc));
            },
            MyersOp::Insert { new_index, new_len, .. } => {
                lemma_coalesce_sides(acc, (OpKind::Insert, new.subrange(new_index as int, new_index + new_len)));
                assert(old_side(acc) + Seq::<Token>::empty() =~= old_side(acc));
            },
            MyersOp::Replace { old_index, old_len, new_index, new_len } => {
                let d = (OpKind::Delete, old.subrange(old_index as int, old_index + old_len));
                lemma_coalesce_sides(acc, d);
                lemma_coalesce_sides(coalesce_spec(acc, d), (OpKind::Insert, new.subrange(new_index as int, new_index + new_len)));
                assert(new_side(acc) + Seq::<Token>::empty() + new.subrange(new_index as int, new_index + new_len)
                    =~= new_side(acc) + new.subrange(new_index as int, new_index + new_len));
                assert(old_side(acc) + old.subrange(old_index as int, old_index + old_len) + Seq::<Token>::empty()
                    =~= old_side(acc) + old.subrange(old_index as int, old_index + old_len));
            },
        }
    }
}

proof fn lemma_parts_first(old: Seq<Token>, new: Seq<Token>, s: Seq<MyersOp>)
    requires
        s.len() > 0,
    ensures
        myers_new_parts(new, s) == myers_new_part(new, s[0]) + myers_new_parts(new, s.drop_first()),
        myers_old_parts(old, new, s) == myers_old_part(old, new, s[0]) + myers_old_parts(old, new, s.drop_first()),
    decreases s.len(),
{
    if s.len() == 1 {
        assert(s.drop_last() =~= Seq::<MyersOp>::empty());
        assert(s.drop_first() =~= Seq::<MyersOp>::empty());
        assert(myers_new_parts(new, s) =~= myers_new_part(new, s[0]) + myers_new_parts(new, s.drop_first()));
        assert(myers_old_parts(old, new, s) =~= myers_old_part(old, new, s[0]) + myers_old_parts(old, new, s.drop_first()));
    } else {
        lemma_parts_first(old, new, s.drop_last());
        assert(s.drop_last().drop_first() =~= s.drop_first().drop_last());
        assert(s.drop_last()[0] == s[0]);
        assert(s.drop_first().last() == s.last());
        assert(myers_new_parts(new, s) =~= myers_new_part(new, s[0]) + myers_new_parts(new, s.drop_first()));
        assert(myers_old_parts(old, new, s) =~= myers_old_part(old, new, s[0]) + myers_old_parts(old, new, s.drop_first()));
    }
}

proof fn lemma_parts_cover(old: Seq<Token>, new: Seq<Token>, s: Seq<MyersOp>, i: int, j: int)
    requires
        myers_covers(old.len() as int, new.len() as int, s, i, j),
        0 <= i,
        0 <= j,
        myers_equal_runs_match_keys(key_views(old), key_views(new), s),
    ensures
        myers_new_parts(new, s) == new.subrange(j, new.len() as int),
        key_views(myers_old_parts(old, new, s)) == key_views(old).subrange(i, old.len() as int),
    decreases s.len(),
{
    lemma_myers_covers_ends(old.len() as int, new.len() as int, s, i, j);
    if s.len() == 0 {
        assert(new.subrange(j, new.len() as int) =~= Seq::<Token>::empty());
        assert(key_views(old).subrange(i, old.len() as int) =~= Seq::<(Seq<char>, Seq<char>)>::empty());
        assert(key_views(Seq::<Token>::empty()) =~= Seq::<(Seq<char>, Seq<char>)>::empty());
    } else {
        lemma_parts_first(old, new, s);
        let rest = s.drop_first();
        assert forall|k: int| 0 <= k < rest.len() implies myers_run_matches(key_views(old), key_views(new), #[trigger] rest[k]) by {
            assert(rest[k] == s[k + 1]);
        }
        let ov = key_views(old);
        let nv = key_views(new);
        match s[0] {
            MyersOp::Equal { old_index, new_index, len } => {
                lemma_myers_covers_ends(old.len() as int, new.len() as int, rest, i + len, j + len);
                lemma_parts_cover(old, new, rest, i + len, j + len);
                assert(myers_run_matches(ov, nv, s[0]));
                let part = new.subrange(j, j + len);
                assert(key_views(part) =~= ov.subrange(i, i + len)) by {
                    assert forall|d: int| 0 <= d < len implies #[trigger] key_views(part)[d] == ov.subrange(i, i + len)[d] by {
                        assert(ov[i + d] == nv[j + d]);
                    }
                }
                assert(key_views(part + myers_old_parts(old, new, rest)) =~= key_views(part) + key_views(myers_old_parts(old, new, rest)));
                assert(ov.subrange(i, old.len() as int) =~= ov.subrange(i, i + len) + ov.subrange(i + len, old.len() as int));
                assert(new.subrange(j, new.len() as int) =~= part + new.subrange(j + len, new.len() as int));
            },
            MyersOp::Delete { old_index, old_len: n, new_index } => {
                lemma_myers_covers_ends(old.len() as int, new.len() as int, rest, i + n, j);
                lemma_parts_cover(old, new, rest, i + n, j);
                let part = old.subrange(i, i + n);
                assert(key_views(part) =~= ov.subrange(i, i + n));
                assert(key_views(part + myers_old_parts(old, new, rest)) =~= key_views(part) + key_views(myers_old_parts(old, new, rest)));
                assert(ov.subrange(i, old.len() as int) =~= ov.subrange(i, i + n) + ov.subrange(i + n, old.len() as int));
                assert(Seq::<Token>::empty() + myers_new_parts(new, rest) =~= myers_new_parts(new, rest));
            },
            MyersOp::Insert { old_index, new_index, new_len: n } => {
                lemma_myers_covers_ends(old.len() as int, new.len() as int, rest, i, j + n);
                lemma_parts_cover(old, new, rest, i, j + n);
                assert(Seq::<Token>::empty() + myers_old_parts(old, new, rest) =~= myers_old_parts(old, new, rest));
                assert(new.subrange(j, new.len() as int) =~= new.subrange(j, j + n) + new.subrange(j + n, new.len() as int));
            },
            MyersOp::Replace { old_index, old_len: n, new_index, new_len: m } => {
                lemma_myers_covers_ends(old.len() as int, new.len() as int, rest, i + n, j + m);
                lemma_parts_cover(old, new, rest, i + n, j + m);
                let part = old.subrange(i, i + n);
                assert(key_views(part) =~= ov.subrange(i, i + n));
                assert(key_views(part + myers_old_parts(old, new, rest)) =~= key_views(part) + key_views(myers_old_parts(old, new, rest)));
                assert(ov.subrange(i, old.len() as int) =~= ov.subrange(i, i + n) + ov.subrange(i + n, old.len() as int));
                assert(new.subrange(j, new.len() as int) =~= new.subrange(j, j + m) + new.subrange(j + m, new.len() as int));
            },
        }
    }
}

/// A word script that walks both texts in order and pairs equal keys in its
/// equal runs reads both texts back before substitution zones are merged:
/// its equal and inserted runs give the new tokens, and its equal and
/// deleted runs give the old tokens up to their keys (an equal run carries
/// the new text's tokens).
pub proof fn law_word_script_sides(old: Seq<Token>, new: Seq<Token>, script: Seq<MyersOp>)
    requires
        myers_covers(old.len() as int, new.len() as int, script, 0, 0),
        myers_equal_runs_match_keys(key_views(old), key_views(new), script),
    ensures
        new_side(myers_word_ops(old, new, script)) == new,
        key_views(old_side(myers_word_ops(old, new, script))) == key_views(old),
{
    lemma_word_ops_parts(old, new, script);
    lemma_parts_cover(old, new, script, 0, 0);
    assert(new.subrange(0, new.len() as int) =~= new);
    assert(key_views(old).subrange(0, old.len() as int) =~= key_views(old));
}

} // verus!
