//! Pairing the children of a sequence before realization with the children
//! after it, by source span, in document order.
//!
//! Used when the two child counts differ. For each child before
//! realization, a cursor advances through the realized children looking for
//! a child with the same span; realized children skipped on the way stand
//! alone. Paragraph breaks with no realized partner stay as they are.
//! Context elements are matched through the span of the context output they
//! produced, or through their recorded output's text. Children with no match
//! fall back to the realized child at the cursor. Trailing realized children
//! stand alone.
//!
//! Spans are given as Typst's raw span numbers; the raw number `1` is the
//! detached span.

use vstd::prelude::*;

use crate::edit_script::str_eq;

verus! {

/// Typst's raw number of the detached span.
pub const DETACHED_SPAN: u64 = 1;

/// What kind of child before realization it is.
#[derive(Clone, Copy, Debug, PartialEq, Eq, Structural)]
pub enum PreKind {
    Parbreak,
    Context,
    Other,
}

/// A child before realization, as the pairing reads it.
#[derive(Debug)]
pub struct PreChild {
    pub kind: PreKind,
    /// The raw span number.
    pub span: u64,
    /// Its plain text is blank.
    pub invisible: bool,
    /// It is or holds a context element.
    pub contains_context: bool,
    /// For a context element: the plain text of its recorded output.
    pub recorded_text: Option<String>,
}

/// A realized child, as the pairing reads it.
#[derive(Debug)]
pub struct RealChild {
    /// The raw number of its span, looking through style wrappers.
    pub span: u64,
    /// Its plain text is blank.
    pub invisible: bool,
    /// The raw span of the first context element whose output it holds.
    pub context_span: Option<u64>,
    /// Its plain text.
    pub text: String,
    /// Where a recorded context output that starts here ends (exclusive).
    pub recorded_run_end: Option<usize>,
}

/// What a child of the paired sequence is made of.
#[derive(Clone, Copy, Debug, PartialEq, Eq, Structural)]
pub enum Pairing {
    /// The child before realization, paired with itself.
    Itself(usize),
    /// The child before realization and one realized child.
    One(usize, usize),
    /// The child before realization and the realized children `start..end`.
    Run(usize, usize, usize),
    /// A realized child standing alone.
    Alone(usize),
    /// A recorded context output over the realized children `start..end`.
    Recorded(usize, usize),
}

/// Recorded outputs end after they start and inside the children.
pub open spec fn real_children_wf(rs: Seq<RealChild>) -> bool {
    forall|c: int| 0 <= c < rs.len() ==> match (#[trigger] rs[c]).recorded_run_end {
        Some(e) => c < e <= rs.len(),
        None => true,
    }
}

/// The pairing state: the cursor into the realized children and the
/// children of the paired sequence so far.
pub type PairState = (nat, Seq<Pairing>);

/// The realized child at the cursor stands alone, or the recorded output
/// that starts there is taken whole.
pub open spec fn push_unmatched(rs: Seq<RealChild>, st: PairState) -> PairState {
    let c = st.0;
    match rs[c as int].recorded_run_end {
        Some(e) => (e as nat, st.1.push(Pairing::Recorded(c as usize, e))),
        None => (c + 1, st.1.push(Pairing::Alone(c as usize))),
    }
}

/// Realized children stand alone until the cursor reaches `target`.
pub open spec fn drain_to(rs: Seq<RealChild>, st: PairState, target: nat) -> PairState
    decreases rs.len() - st.0,
{
    if st.0 >= target || st.0 >= rs.len() || !real_children_wf(rs) {
        st
    } else {
        proof {
            let c = st.0 as int;
            assert(match rs[c].recorded_run_end {
                Some(e) => c < e <= rs.len(),
                None => true,
            });
        }
        drain_to(rs, push_unmatched(rs, st), target)
    }
}

/// The first realized child from `from` on with the given span.
pub open spec fn first_with_span(rs: Seq<RealChild>, from: nat, span: u64) -> Option<nat>
    decreases rs.len() - from,
{
    if from >= rs.len() {
        None
    } else if rs[from as int].span == span {
        Some(from)
    } else {
        first_with_span(rs, from + 1, span)
    }
}

/// The first realized match, from `cursor` on, of a later child before
/// realization (from `p` on) that is no paragraph break and has a span.
pub open spec fn next_pre_match(pre: Seq<PreChild>, p: nat, rs: Seq<RealChild>, cursor: nat) -> Option<nat>
    decreases pre.len() - p,
{
    if p >= pre.len() {
        None
    } else if pre[p as int].kind == PreKind::Parbreak || pre[p as int].span == DETACHED_SPAN {
        next_pre_match(pre, p + 1, rs, cursor)
    } else {
        match first_with_span(rs, cursor, pre[p as int].span) {
            Some(i) => Some(i),
            None => next_pre_match(pre, p + 1, rs, cursor),
        }
    }
}

/// Past blank realized children up to `limit`, the end just after the
/// first child holding context output, if one comes before any visible one.
pub open spec fn owner_scan(rs: Seq<RealChild>, e: nat, limit: nat) -> Option<nat>
    decreases limit - e,
{
    if e >= limit || e >= rs.len() {
        None
    } else if rs[e as int].context_span is Some {
        Some(e + 1)
    } else if rs[e as int].invisible {
        owner_scan(rs, e + 1, limit)
    } else {
        None
    }
}

/// The end of the realized run that the child before realization at `p`,
/// matched at `idx`, takes: a child holding a context element also takes
/// the context output that follows its match.
pub open spec fn owner_run_end(pre: Seq<PreChild>, p: nat, rs: Seq<RealChild>, idx: nat) -> nat {
    if !pre[p as int].contains_context {
        idx + 1
    } else {
        let limit = match next_pre_match(pre, p + 1, rs, idx + 1) {
            Some(l) => l,
            None => rs.len(),
        };
        match owner_scan(rs, idx + 1, limit) {
            Some(end) => end,
            None => idx + 1,
        }
    }
}

/// The child at `p` is paired with the realized child at `idx` (and the run
/// that it owns), after the realized children before `idx` stand alone.
pub open spec fn take_match(pre: Seq<PreChild>, p: nat, rs: Seq<RealChild>, st: PairState, idx: nat) -> PairState {
    let drained = drain_to(rs, st, idx);
    let end = owner_run_end(pre, p, rs, idx);
    if end > idx + 1 {
        (end, drained.1.push(Pairing::Run(p as usize, idx as usize, end as usize)))
    } else {
        (idx + 1, drained.1.push(Pairing::One(p as usize, idx as usize)))
    }
}

/// The first visible realized child in `from..to` satisfying `pred`.
pub open spec fn first_visible(rs: Seq<RealChild>, from: nat, to: nat, pred: spec_fn(RealChild) -> bool) -> Option<nat>
    decreases to - from,
{
    if from >= to || from >= rs.len() {
        None
    } else if pred(rs[from as int]) && !rs[from as int].invisible {
        Some(from)
    } else {
        first_visible(rs, from + 1, to, pred)
    }
}

/// A realized child with the span, or holding output of a context element with it.
pub open spec fn output_span_pred(target: u64) -> spec_fn(RealChild) -> bool {
    |r: RealChild| r.span == target || r.context_span == Some(target)
}

/// A realized child with the span.
pub open spec fn span_pred(target: u64) -> spec_fn(RealChild) -> bool {
    |r: RealChild| r.span == target
}

/// A realized child with the plain text.
pub open spec fn text_pred(text: Seq<char>) -> spec_fn(RealChild) -> bool {
    |r: RealChild| r.text@ == text
}

/// The match of a context element: through the span of its own output or
/// of output it holds before the next child's match, else through its span
/// after that, else through the text of its recorded output. None when the
/// realized child at the cursor holds context output or the span is detached.
pub open spec fn context_match(pre: Seq<PreChild>, p: nat, rs: Seq<RealChild>, cursor: nat, fallback_end: nat) -> Option<nat> {
    let target = pre[p as int].span;
    if rs[cursor as int].context_span is Some || target == DETACHED_SPAN {
        None
    } else {
        match first_visible(rs, cursor, fallback_end, output_span_pred(target)) {
            Some(i) => Some(i),
            None => match first_visible(rs, fallback_end, rs.len(), span_pred(target)) {
                Some(i) => Some(i),
                None => match pre[p as int].recorded_text {
                    Some(text) => if text@.len() > 0 {
                        first_visible(rs, cursor, rs.len(), text_pred(text@))
                    } else {
                        None
                    },
                    None => None,
                },
            },
        }
    }
}

/// The first realized child from `from` on with the span, where a blank
/// child before realization passes over visible realized children.
pub open spec fn span_match(rs: Seq<RealChild>, from: nat, span: u64, blank: bool) -> Option<nat>
    decreases rs.len() - from,
{
    if from >= rs.len() {
        None
    } else if !(blank && !rs[from as int].invisible) && rs[from as int].span == span {
        Some(from)
    } else {
        span_match(rs, from + 1, span, blank)
    }
}

/// The pairing state after the child before realization at `p`.
pub open spec fn pair_step(pre: Seq<PreChild>, p: nat, rs: Seq<RealChild>, st: PairState) -> PairState {
    let child = pre[p as int];
    let cursor = st.0;
    if child.kind == PreKind::Parbreak {
        (cursor, st.1.push(Pairing::Itself(p as usize)))
    } else if child.kind == PreKind::Context && cursor < rs.len() {
        let fallback_end = match next_pre_match(pre, p + 1, rs, cursor) {
            Some(e) => e,
            None => rs.len(),
        };
        match context_match(pre, p, rs, cursor, fallback_end) {
            Some(idx) => take_match(pre, p, rs, st, idx),
            None => (fallback_end, st.1.push(Pairing::Run(p as usize, cursor as usize, fallback_end as usize))),
        }
    } else {
        match span_match(rs, cursor, child.span, child.invisible) {
            Some(idx) => take_match(pre, p, rs, st, idx),
            None => {
                if cursor < rs.len() && child.invisible {
                    (cursor, st.1.push(Pairing::Itself(p as usize)))
                } else if cursor < rs.len() && rs[cursor as int].context_span is Some {
                    let after = push_unmatched(rs, st);
                    if after.0 >= rs.len() {
                        (after.0, after.1.push(Pairing::Itself(p as usize)))
                    } else {
                        (after.0 + 1, after.1.push(Pairing::One(p as usize, after.0 as usize)))
                    }
                } else if cursor < rs.len() {
                    (cursor + 1, st.1.push(Pairing::One(p as usize, cursor as usize)))
                } else {
                    st
                }
            },
        }
    }
}

/// The pairing state after the first `n` children before realization.
pub open spec fn pair_fold(pre: Seq<PreChild>, rs: Seq<RealChild>, n: nat) -> PairState
    decreases n,
{
    if n == 0 || n > pre.len() {
        (0, Seq::empty())
    } else {
        pair_step(pre, (n - 1) as nat, rs, pair_fold(pre, rs, (n - 1) as nat))
    }
}

/// The paired children: every child before realization in order, then the
/// trailing realized children alone.
pub open spec fn span_pairing_spec(pre: Seq<PreChild>, rs: Seq<RealChild>) -> Seq<Pairing> {
    drain_to(rs, pair_fold(pre, rs, pre.len()), rs.len()).1
}


// ---------------------------------------------------------------------------
// Executable pairing
// ---------------------------------------------------------------------------

fn push_unmatched_exec(rs: &[RealChild], cursor: usize, out: &mut Vec<Pairing>) -> (next: usize)
    requires
        real_children_wf(rs@),
        cursor < rs@.len(),
    ensures
        (next as nat, final(out)@) == push_unmatched(rs@, (cursor as nat, old(out)@)),
        cursor < next <= rs@.len(),
{
    assert(match rs@[cursor as int].recorded_run_end {
        Some(e) => cursor < e <= rs@.len(),
        None => true,
    });
    match rs[cursor].recorded_run_end {
        Some(e) => {
            out.push(Pairing::Recorded(cursor, e));
            e
        },
        None => {
            out.push(Pairing::Alone(cursor));
            cursor + 1
        },
    }
}

fn drain_to_exec(rs: &[RealChild], cursor: usize, target: usize, out: &mut Vec<Pairing>) -> (next: usize)
    requires
        real_children_wf(rs@),
        cursor <= rs@.len(),
    ensures
        (next as nat, final(out)@) == drain_to(rs@, (cursor as nat, old(out)@), target as nat),
        cursor <= next <= rs@.len(),
{
    let mut c = cursor;
    while c < target && c < rs.len()
        invariant
            real_children_wf(rs@),
            cursor <= c <= rs@.len(),
            drain_to(rs@, (c as nat, out@), target as nat) == drain_to(rs@, (cursor as nat, old(out)@), target as nat),
        decreases rs@.len() - c,
    {
        c = push_unmatched_exec(rs, c, out);
    }
    c
}

fn first_with_span_exec(rs: &[RealChild], from: usize, span: u64) -> (found: Option<usize>)
    ensures
        found matches Some(i) ==> i < rs@.len(),
        (match found { Some(i) => Some(i as nat), None => None }) == first_with_span(rs@, from as nat, span),
{
    let mut i = from;
    while i < rs.len()
        invariant
            from <= i,
            first_with_span(rs@, i as nat, span) == first_with_span(rs@, from as nat, span),
        decreases rs@.len() - i,
    {
        if rs[i].span == span {
            return Some(i);
        }
        i += 1;
    }
    None
}

fn next_pre_match_exec(pre: &[PreChild], p: usize, rs: &[RealChild], cursor: usize) -> (found: Option<usize>)
    ensures
        found matches Some(i) ==> i < rs@.len(),
        (match found { Some(i) => Some(i as nat), None => None }) == next_pre_match(pre@, p as nat, rs@, cursor as nat),
{
    let mut q = p;
    while q < pre.len()
        invariant
            p <= q,
            next_pre_match(pre@, q as nat, rs@, cursor as nat) == next_pre_match(pre@, p as nat, rs@, cursor as nat),
        decreases pre@.len() - q,
    {
        if !(pre[q].kind == PreKind::Parbreak || pre[q].span == DETACHED_SPAN) {
            match first_with_span_exec(rs, cursor, pre[q].span) {
                Some(i) => {
                    return Some(i);
                },
                None => {},
            }
        }
        q += 1;
    }
    None
}

fn owner_run_end_exec(pre: &[PreChild], p: usize, rs: &[RealChild], idx: usize) -> (end: usize)
    requires
        p < pre@.len(),
        idx < rs@.len(),
    ensures
        end as nat == owner_run_end(pre@, p as nat, rs@, idx as nat),
        idx < end <= rs@.len(),
{
    let n = rs.len();
    if !pre[p].contains_context {
        return idx + 1;
    }
    let limit = match next_pre_match_exec(pre, p + 1, rs, idx + 1) {
        Some(l) => l,
        None => rs.len(),
    };
    let mut e = idx + 1;
    while e < limit && e < rs.len()
        invariant
            idx < e <= rs@.len(),
            owner_scan(rs@, e as nat, limit as nat) == owner_scan(rs@, idx as nat + 1, limit as nat),
            p < pre@.len(),
            pre@[p as int].contains_context,
            limit as nat == (match next_pre_match(pre@, p as nat + 1, rs@, idx as nat + 1) {
                Some(l) => l,
                None => rs@.len(),
            }),
        decreases rs@.len() - e,
    {
        if rs[e].context_span.is_some() {
            return e + 1;
        }
        if !rs[e].invisible {
            return idx + 1;
        }
        e += 1;
    }
    idx + 1
}

fn first_output_span(rs: &[RealChild], from: usize, to: usize, target: u64) -> (found: Option<usize>)
    ensures
        found matches Some(i) ==> i < rs@.len(),
        (match found { Some(i) => Some(i as nat), None => None }) == first_visible(rs@, from as nat, to as nat, output_span_pred(target)),
{
    let mut i = from;
    while i < to && i < rs.len()
        invariant
            from <= i,
            first_visible(rs@, i as nat, to as nat, output_span_pred(target)) == first_visible(rs@, from as nat, to as nat, output_span_pred(target)),
        decreases rs@.len() - i,
    {
        let r = &rs[i];
        let hit = r.span == target || match r.context_span {
            Some(s) => s == target,
            None => false,
        };
        assert(hit == output_span_pred(target)(rs@[i as int]));
        if hit && !r.invisible {
            return Some(i);
        }
        i += 1;
    }
    None
}

fn first_span(rs: &[RealChild], from: usize, target: u64) -> (found: Option<usize>)
    ensures
        found matches Some(i) ==> i < rs@.len(),
        (match found { Some(i) => Some(i as nat), None => None }) == first_visible(rs@, from as nat, rs@.len(), span_pred(target)),
{
    let mut i = from;
    while i < rs.len()
        invariant
            from <= i,
            first_visible(rs@, i as nat, rs@.len(), span_pred(target)) == first_visible(rs@, from as nat, rs@.len(), span_pred(target)),
        decreases rs@.len() - i,
    {
        let r = &rs[i];
        assert((r.span == target) == span_pred(target)(rs@[i as int]));
        if r.span == target && !r.invisible {
            return Some(i);
        }
        i += 1;
    }
    None
}

fn first_text(rs: &[RealChild], from: usize, text: &String) -> (found: Option<usize>)
    ensures
        found matches Some(i) ==> i < rs@.len(),
        (match found { Some(i) => Some(i as nat), None => None }) == first_visible(rs@, from as nat, rs@.len(), text_pred(text@)),
{
    let mut i = from;
    while i < rs.len()
        invariant
            from <= i,
            first_visible(rs@, i as nat, rs@.len(), text_pred(text@)) == first_visible(rs@, from as nat, rs@.len(), text_pred(text@)),
        decreases rs@.len() - i,
    {
        let r = &rs[i];
        let same = str_eq(r.text.as_str(), text.as_str());
        assert(same == text_pred(text@)(rs@[i as int]));
        if same && !r.invisible {
            return Some(i);
        }
        i += 1;
    }
    None
}

fn context_match_exec(pre: &[PreChild], p: usize, rs: &[RealChild], cursor: usize, fallback_end: usize) -> (found: Option<usize>)
    requires
        p < pre@.len(),
        cursor < rs@.len(),
    ensures
        found matches Some(i) ==> i < rs@.len(),
        (match found { Some(i) => Some(i as nat), None => None }) == context_match(pre@, p as nat, rs@, cursor as nat, fallback_end as nat),
{
    let target = pre[p].span;
    if rs[cursor].context_span.is_some() || target == DETACHED_SPAN {
        return None;
    }
    match first_output_span(rs, cursor, fallback_end, target) {
        Some(i) => Some(i),
        None => match first_span(rs, fallback_end, target) {
            Some(i) => Some(i),
            None => match &pre[p].recorded_text {
                Some(text) => {
                    if text.unicode_len() > 0 {
                        first_text(rs, cursor, text)
                    } else {
                        None
                    }
                },
                None => None,
            },
        },
    }
}

fn span_match_exec(rs: &[RealChild], from: usize, span: u64, blank: bool) -> (found: Option<usize>)
    ensures
        found matches Some(i) ==> i < rs@.len(),
        (match found { Some(i) => Some(i as nat), None => None }) == span_match(rs@, from as nat, span, blank),
{
    let mut i = from;
    while i < rs.len()
        invariant
            from <= i,
            span_match(rs@, i as nat, span, blank) == span_match(rs@, from as nat, span, blank),
        decreases rs@.len() - i,
    {
        if !(blank && !rs[i].invisible) && rs[i].span == span {
            return Some(i);
        }
        i += 1;
    }
    None
}

fn take_match_exec(pre: &[PreChild], p: usize, rs: &[RealChild], cursor: usize, idx: usize, out: &mut Vec<Pairing>) -> (next: usize)
    requires
        real_children_wf(rs@),
        p < pre@.len(),
        cursor <= rs@.len(),
        idx < rs@.len(),
    ensures
        (next as nat, final(out)@) == take_match(pre@, p as nat, rs@, (cursor as nat, old(out)@), idx as nat),
        next <= rs@.len(),
{
    let _ = drain_to_exec(rs, cursor, idx, out);
    let end = owner_run_end_exec(pre, p, rs, idx);
    if end > idx + 1 {
        out.push(Pairing::Run(p, idx, end));
        end
    } else {
        out.push(Pairing::One(p, idx));
        idx + 1
    }
}

fn pair_step_exec(pre: &[PreChild], p: usize, rs: &[RealChild], cursor: usize, out: &mut Vec<Pairing>) -> (next: usize)
    requires
        real_children_wf(rs@),
        p < pre@.len(),
        cursor <= rs@.len(),
    ensures
        (next as nat, final(out)@) == pair_step(pre@, p as nat, rs@, (cursor as nat, old(out)@)),
        next <= rs@.len(),
{
    let kind = pre[p].kind;
    if kind == PreKind::Parbreak {
        out.push(Pairing::Itself(p));
        return cursor;
    }
    if kind == PreKind::Context && cursor < rs.len() {
        let fallback_end = match next_pre_match_exec(pre, p + 1, rs, cursor) {
            Some(e) => e,
            None => rs.len(),
        };
        return match context_match_exec(pre, p, rs, cursor, fallback_end) {
            Some(idx) => take_match_exec(pre, p, rs, cursor, idx, out),
            None => {
                out.push(Pairing::Run(p, cursor, fallback_end));
                fallback_end
            },
        };
    }
    match span_match_exec(rs, cursor, pre[p].span, pre[p].invisible) {
        Some(idx) => take_match_exec(pre, p, rs, cursor, idx, out),
        None => {
            if cursor < rs.len() && pre[p].invisible {
                out.push(Pairing::Itself(p));
                cursor
            } else if cursor < rs.len() && rs[cursor].context_span.is_some() {
                let after = push_unmatched_exec(rs, cursor, out);
                if after >= rs.len() {
                    out.push(Pairing::Itself(p));
                    after
                } else {
                    out.push(Pairing::One(p, after));
                    after + 1
                }
            } else if cursor < rs.len() {
                out.push(Pairing::One(p, cursor));
                cursor + 1
            } else {
                cursor
            }
        },
    }
}

/// Pairs the children before realization with the realized children by
/// span; see [`span_pairing_spec`].
pub fn pair_sequence_by_span(pre: &[PreChild], rs: &[RealChild]) -> (pairs: Vec<Pairing>)
    requires
        real_children_wf(rs@),
    ensures
        pairs@ == span_pairing_spec(pre@, rs@),
{
    let mut out: Vec<Pairing> = Vec::new();
    let mut cursor: usize = 0;
    let mut p: usize = 0;
    while p < pre.len()
        invariant
            real_children_wf(rs@),
            p <= pre@.len(),
            cursor <= rs@.len(),
            (cursor as nat, out@) == pair_fold(pre@, rs@, p as nat),
        decreases pre@.len() - p,
    {
        cursor = pair_step_exec(pre, p, rs, cursor, &mut out);
        p += 1;
    }
    let _ = drain_to_exec(rs, cursor, rs.len(), &mut out);
    out
}


// ---------------------------------------------------------------------------
// Every realized child is paired
// ---------------------------------------------------------------------------

/// The pairing holds the realized child at `r`.
pub open spec fn pairing_holds(p: Pairing, r: nat) -> bool {
    match p {
        Pairing::Itself(_) => false,
        Pairing::One(_, i) => i == r,
        Pairing::Run(_, start, end) => start <= r < end,
        Pairing::Alone(i) => i == r,
        Pairing::Recorded(start, end) => start <= r < end,
    }
}

/// Some pairing holds the realized child at `r`.
pub open spec fn held(out: Seq<Pairing>, r: nat) -> bool {
    exists|k: int| 0 <= k < out.len() && pairing_holds(#[trigger] out[k], r)
}

/// Every realized child before `c` is held.
pub open spec fn held_below(out: Seq<Pairing>, c: nat) -> bool {
    forall|r: nat| r < c ==> #[trigger] held(out, r)
}

proof fn lemma_held_push(out: Seq<Pairing>, x: Pairing, c: nat)
    requires
        held_below(out, c),
    ensures
        held_below(out.push(x), c),
        forall|r: nat| pairing_holds(x, r) ==> #[trigger] held(out.push(x), r),
{
    assert forall|r: nat| r < c implies #[trigger] held(out.push(x), r) by {
        assert(held(out, r));
        let k = choose|k: int| 0 <= k < out.len() && pairing_holds(out[k], r);
        assert(out.push(x)[k] == out[k]);
    }
    assert forall|r: nat| pairing_holds(x, r) implies #[trigger] held(out.push(x), r) by {
        assert(out.push(x)[out.len() as int] == x);
    }
}

proof fn lemma_push_unmatched_held(rs: Seq<RealChild>, st: PairState)
    requires
        real_children_wf(rs),
        rs.len() <= usize::MAX,
        st.0 < rs.len(),
        held_below(st.1, st.0),
    ensures
        held_below(push_unmatched(rs, st).1, push_unmatched(rs, st).0),
        st.0 < push_unmatched(rs, st).0 <= rs.len(),
{
    let c = st.0 as int;
    assert(match rs[c].recorded_run_end {
        Some(e) => c < e <= rs.len(),
        None => true,
    });
    let after = push_unmatched(rs, st);
    let x = after.1.last();
    assert(after.1 == st.1.push(x));
    lemma_held_push(st.1, x, st.0);
    assert forall|r: nat| r < after.0 implies #[trigger] held(after.1, r) by {
        if r >= st.0 {
            assert(pairing_holds(x, r));
        }
    }
}

proof fn lemma_drain_held(rs: Seq<RealChild>, st: PairState, target: nat)
    requires
        real_children_wf(rs),
        rs.len() <= usize::MAX,
        st.0 <= rs.len(),
        held_below(st.1, st.0),
    ensures
        held_below(drain_to(rs, st, target).1, drain_to(rs, st, target).0),
        st.0 <= drain_to(rs, st, target).0 <= rs.len(),
        drain_to(rs, st, target).0 >= target || drain_to(rs, st, target).0 >= rs.len(),
    decreases rs.len() - st.0,
{
    if !(st.0 >= target || st.0 >= rs.len()) {
        lemma_push_unmatched_held(rs, st);
        lemma_drain_held(rs, push_unmatched(rs, st), target);
    }
}

proof fn lemma_first_with_span_bounds(rs: Seq<RealChild>, from: nat, span: u64)
    ensures
        first_with_span(rs, from, span) matches Some(i) ==> from <= i < rs.len(),
    decreases rs.len() - from,
{
    if from < rs.len() && rs[from as int].span != span {
        lemma_first_with_span_bounds(rs, from + 1, span);
    }
}

proof fn lemma_next_pre_match_bounds(pre: Seq<PreChild>, p: nat, rs: Seq<RealChild>, cursor: nat)
    ensures
        next_pre_match(pre, p, rs, cursor) matches Some(i) ==> cursor <= i < rs.len(),
    decreases pre.len() - p,
{
    if p < pre.len() {
        if !(pre[p as int].kind == PreKind::Parbreak || pre[p as int].span == DETACHED_SPAN) {
            lemma_first_with_span_bounds(rs, cursor, pre[p as int].span);
        }
        lemma_next_pre_match_bounds(pre, p + 1, rs, cursor);
    }
}

proof fn lemma_first_visible_bounds(rs: Seq<RealChild>, from: nat, to: nat, pred: spec_fn(RealChild) -> bool)
    ensures
        first_visible(rs, from, to, pred) matches Some(i) ==> from <= i < rs.len(),
    decreases to - from,
{
    if from < to && from < rs.len() && !(pred(rs[from as int]) && !rs[from as int].invisible) {
        lemma_first_visible_bounds(rs, from + 1, to, pred);
    }
}

proof fn lemma_span_match_bounds(rs: Seq<RealChild>, from: nat, span: u64, blank: bool)
    ensures
        span_match(rs, from, span, blank) matches Some(i) ==> from <= i < rs.len(),
    decreases rs.len() - from,
{
    if from < rs.len() && !(!(blank && !rs[from as int].invisible) && rs[from as int].span == span) {
        lemma_span_match_bounds(rs, from + 1, span, blank);
    }
}

proof fn lemma_take_match_held(pre: Seq<PreChild>, p: nat, rs: Seq<RealChild>, st: PairState, idx: nat)
    requires
        real_children_wf(rs),
        rs.len() <= usize::MAX,
        st.0 <= rs.len(),
        idx < rs.len(),
        held_below(st.1, st.0),
    ensures
        held_below(take_match(pre, p, rs, st, idx).1, take_match(pre, p, rs, st, idx).0),
{
    lemma_drain_held(rs, st, idx);
    lemma_owner_run_end_bounded(pre, p, rs, idx);
    let drained = drain_to(rs, st, idx);
    let end = owner_run_end(pre, p, rs, idx);
    let x = if end > idx + 1 { Pairing::Run(p as usize, idx as usize, end as usize) } else { Pairing::One(p as usize, idx as usize) };
    let next = if end > idx + 1 { end } else { idx + 1 };
    lemma_held_push(drained.1, x, drained.0);
    assert(take_match(pre, p, rs, st, idx) == (next, drained.1.push(x)));
    assert forall|r: nat| r < next implies #[trigger] held(drained.1.push(x), r) by {
        if r >= idx {
            assert(pairing_holds(x, r));
        }
    }
}

proof fn lemma_step_held(pre: Seq<PreChild>, p: nat, rs: Seq<RealChild>, st: PairState)
    requires
        real_children_wf(rs),
        rs.len() <= usize::MAX,
        p < pre.len(),
        st.0 <= rs.len(),
        held_below(st.1, st.0),
    ensures
        held_below(pair_step(pre, p, rs, st).1, pair_step(pre, p, rs, st).0),
{
    let child = pre[p as int];
    let cursor = st.0;
    if child.kind == PreKind::Parbreak {
        lemma_held_push(st.1, Pairing::Itself(p as usize), cursor);
    } else if child.kind == PreKind::Context && cursor < rs.len() {
        let fallback_end = match next_pre_match(pre, p + 1, rs, cursor) {
            Some(e) => e,
            None => rs.len(),
        };
        lemma_next_pre_match_bounds(pre, p + 1, rs, cursor);
        let target = child.span;
        lemma_first_visible_bounds(rs, cursor, fallback_end, output_span_pred(target));
        lemma_first_visible_bounds(rs, fallback_end, rs.len(), span_pred(target));
        match child.recorded_text {
            Some(text) => lemma_first_visible_bounds(rs, cursor, rs.len(), text_pred(text@)),
            None => {},
        }
        match context_match(pre, p, rs, cursor, fallback_end) {
            Some(idx) => lemma_take_match_held(pre, p, rs, st, idx),
            None => {
                let x = Pairing::Run(p as usize, cursor as usize, fallback_end as usize);
                lemma_held_push(st.1, x, cursor);
                assert forall|r: nat| r < fallback_end implies #[trigger] held(st.1.push(x), r) by {
                    if r >= cursor {
                        assert(pairing_holds(x, r));
                    }
                }
            },
        }
    } else {
        lemma_span_match_bounds(rs, cursor, child.span, child.invisible);
        match span_match(rs, cursor, child.span, child.invisible) {
            Some(idx) => lemma_take_match_held(pre, p, rs, st, idx),
            None => {
                if cursor < rs.len() && child.invisible {
                    lemma_held_push(st.1, Pairing::Itself(p as usize), cursor);
                } else if cursor < rs.len() && rs[cursor as int].context_span is Some {
                    lemma_push_unmatched_held(rs, st);
                    let after = push_unmatched(rs, st);
                    if after.0 >= rs.len() {
                        lemma_held_push(after.1, Pairing::Itself(p as usize), after.0);
                    } else {
                        let x = Pairing::One(p as usize, after.0 as usize);
                        lemma_held_push(after.1, x, after.0);
                        assert forall|r: nat| r < after.0 + 1 implies #[trigger] held(after.1.push(x), r) by {
                            if r == after.0 {
                                assert(pairing_holds(x, r));
                            }
                        }
                    }
                } else if cursor < rs.len() {
                    let x = Pairing::One(p as usize, cursor as usize);
                    lemma_held_push(st.1, x, cursor);
                    assert forall|r: nat| r < cursor + 1 implies #[trigger] held(st.1.push(x), r) by {
                        if r == cursor {
                            assert(pairing_holds(x, r));
                        }
                    }
                }
            },
        }
    }
}

proof fn lemma_fold_held(pre: Seq<PreChild>, rs: Seq<RealChild>, n: nat)
    requires
        real_children_wf(rs),
        rs.len() <= usize::MAX,
        n <= pre.len(),
    ensures
        held_below(pair_fold(pre, rs, n).1, pair_fold(pre, rs, n).0),
        pair_fold(pre, rs, n).0 <= rs.len(),
    decreases n,
{
    if n > 0 {
        lemma_fold_held(pre, rs, (n - 1) as nat);
        lemma_step_held(pre, (n - 1) as nat, rs, pair_fold(pre, rs, (n - 1) as nat));
        lemma_step_bounded(pre, (n - 1) as nat, rs, pair_fold(pre, rs, (n - 1) as nat));
    }
}

proof fn lemma_step_bounded(pre: Seq<PreChild>, p: nat, rs: Seq<RealChild>, st: PairState)
    requires
        real_children_wf(rs),
        rs.len() <= usize::MAX,
        p < pre.len(),
        st.0 <= rs.len(),
    ensures
        pair_step(pre, p, rs, st).0 <= rs.len(),
{
    let child = pre[p as int];
    let cursor = st.0;
    lemma_drain_bounded(rs, st, 0);
    if child.kind == PreKind::Context && cursor < rs.len() {
        lemma_next_pre_match_bounds(pre, p + 1, rs, cursor);
        let fallback_end = match next_pre_match(pre, p + 1, rs, cursor) {
            Some(e) => e,
            None => rs.len(),
        };
        let target = child.span;
        lemma_first_visible_bounds(rs, cursor, fallback_end, output_span_pred(target));
        lemma_first_visible_bounds(rs, fallback_end, rs.len(), span_pred(target));
        match child.recorded_text {
            Some(text) => lemma_first_visible_bounds(rs, cursor, rs.len(), text_pred(text@)),
            None => {},
        }
        match context_match(pre, p, rs, cursor, fallback_end) {
            Some(idx) => lemma_owner_run_end_bounded(pre, p, rs, idx),
            None => {},
        }
    } else if child.kind != PreKind::Parbreak {
        lemma_span_match_bounds(rs, cursor, child.span, child.invisible);
        match span_match(rs, cursor, child.span, child.invisible) {
            Some(idx) => lemma_owner_run_end_bounded(pre, p, rs, idx),
            None => {
                if cursor < rs.len() && !child.invisible && rs[cursor as int].context_span is Some {
                    let c = cursor as int;
                    assert(match rs[c].recorded_run_end {
                        Some(e) => c < e <= rs.len(),
                        None => true,
                    });
                }
            },
        }
    }
}

proof fn lemma_drain_bounded(rs: Seq<RealChild>, st: PairState, target: nat)
    requires
        real_children_wf(rs),
        rs.len() <= usize::MAX,
        st.0 <= rs.len(),
    ensures
        drain_to(rs, st, target).0 <= rs.len(),
    decreases rs.len() - st.0,
{
    if !(st.0 >= target || st.0 >= rs.len()) {
        let c = st.0 as int;
        assert(match rs[c].recorded_run_end {
            Some(e) => c < e <= rs.len(),
            None => true,
        });
        lemma_drain_bounded(rs, push_unmatched(rs, st), target);
    }
}

proof fn lemma_owner_run_end_bounded(pre: Seq<PreChild>, p: nat, rs: Seq<RealChild>, idx: nat)
    requires
        idx < rs.len(),
    ensures
        idx < owner_run_end(pre, p, rs, idx) <= rs.len(),
{
    if pre[p as int].contains_context {
        let limit = match next_pre_match(pre, p + 1, rs, idx + 1) {
            Some(l) => l,
            None => rs.len(),
        };
        lemma_owner_scan_bounds(rs, idx + 1, limit);
    }
}

proof fn lemma_owner_scan_bounds(rs: Seq<RealChild>, e: nat, limit: nat)
    ensures
        owner_scan(rs, e, limit) matches Some(x) ==> e < x <= rs.len(),
    decreases limit - e,
{
    if e < limit && e < rs.len() && !(rs[e as int].context_span is Some) && rs[e as int].invisible {
        lemma_owner_scan_bounds(rs, e + 1, limit);
    }
}

/// Every realized child is held by some child of the paired sequence: the
/// pairing drops no realized content. (A realized child can be held twice,
/// when a recorded context output that stands alone runs past the next
/// span match.)
pub proof fn law_pairing_keeps_realized_children(pre: Seq<PreChild>, rs: Seq<RealChild>)
    requires
        real_children_wf(rs),
        rs.len() <= usize::MAX,
    ensures
        forall|r: nat| r < rs.len() ==> #[trigger] held(span_pairing_spec(pre, rs), r),
{
    lemma_fold_held(pre, rs, pre.len());
    let st = pair_fold(pre, rs, pre.len());
    lemma_drain_held(rs, st, rs.len());
}

// ---------------------------------------------------------------------------
// Realized children are held in order
// ---------------------------------------------------------------------------

/// The realized children that a pairing holds, as a range.
pub open spec fn held_range(p: Pairing) -> Option<(nat, nat)> {
    match p {
        Pairing::Itself(_) => None,
        Pairing::One(_, i) => Some((i as nat, (i + 1) as nat)),
        Pairing::Run(_, start, end) => Some((start as nat, end as nat)),
        Pairing::Alone(i) => Some((i as nat, (i + 1) as nat)),
        Pairing::Recorded(start, end) => Some((start as nat, end as nat)),
    }
}

/// The realized children held by `a` all come before those held by `b`.
pub open spec fn held_before(a: Pairing, b: Pairing) -> bool {
    match (held_range(a), held_range(b)) {
        (Some(x), Some(y)) => x.1 <= y.0,
        _ => true,
    }
}

/// No realized child holds a recorded context output.
pub open spec fn no_recorded_runs(rs: Seq<RealChild>) -> bool {
    forall|c: int| 0 <= c < rs.len() ==> (#[trigger] rs[c]).recorded_run_end is None
}

/// Every held range ends by `c`, and the ranges come in order.
pub open spec fn ordered_below(out: Seq<Pairing>, c: nat) -> bool {
    &&& forall|k: int| 0 <= k < out.len() ==> match held_range(#[trigger] out[k]) {
        Some(x) => x.0 <= x.1 <= c,
        None => true,
    }
    &&& forall|k1: int, k2: int| 0 <= k1 < k2 < out.len() ==> held_before(#[trigger] out[k1], #[trigger] out[k2])
}

proof fn lemma_ordered_push(out: Seq<Pairing>, x: Pairing, c: nat, c2: nat)
    requires
        ordered_below(out, c),
        c <= c2,
        match held_range(x) {
            Some(r) => c <= r.0 <= r.1 <= c2,
            None => true,
        },
    ensures
        ordered_below(out.push(x), c2),
{
    let o = out.push(x);
    assert forall|k: int| 0 <= k < o.len() implies match held_range(#[trigger] o[k]) {
        Some(r) => r.0 <= r.1 <= c2,
        None => true,
    } by {
        if k < out.len() {
            assert(o[k] == out[k]);
        }
    }
    assert forall|k1: int, k2: int| 0 <= k1 < k2 < o.len() implies held_before(#[trigger] o[k1], #[trigger] o[k2]) by {
        assert(o[k1] == out[k1]);
        if k2 < out.len() {
            assert(o[k2] == out[k2]);
        } else {
            assert(o[k2] == x);
        }
    }
}

proof fn lemma_drain_ordered(rs: Seq<RealChild>, st: PairState, target: nat)
    requires
        no_recorded_runs(rs),
        rs.len() <= usize::MAX,
        ordered_below(st.1, st.0),
    ensures
        ordered_below(drain_to(rs, st, target).1, drain_to(rs, st, target).0),
        st.0 <= drain_to(rs, st, target).0,
        st.0 <= target && target <= rs.len() ==> drain_to(rs, st, target).0 == target,
    decreases rs.len() - st.0,
{
    assert(real_children_wf(rs)) by {
        assert forall|c: int| 0 <= c < rs.len() implies match (#[trigger] rs[c]).recorded_run_end {
            Some(e) => c < e <= rs.len(),
            None => true,
        } by {
            assert(rs[c].recorded_run_end is None);
        }
    }
    if !(st.0 >= target || st.0 >= rs.len()) {
        let c = st.0 as int;
        assert(rs[c].recorded_run_end is None);
        lemma_ordered_push(st.1, Pairing::Alone(c as usize), st.0, st.0 + 1);
        lemma_drain_ordered(rs, push_unmatched(rs, st), target);
    }
}

proof fn lemma_take_match_ordered(pre: Seq<PreChild>, p: nat, rs: Seq<RealChild>, st: PairState, idx: nat)
    requires
        no_recorded_runs(rs),
        rs.len() <= usize::MAX,
        st.0 <= idx < rs.len(),
        ordered_below(st.1, st.0),
    ensures
        ordered_below(take_match(pre, p, rs, st, idx).1, take_match(pre, p, rs, st, idx).0),
        st.0 <= take_match(pre, p, rs, st, idx).0,
{
    lemma_drain_ordered(rs, st, idx);
    lemma_owner_run_end_bounded(pre, p, rs, idx);
    let drained = drain_to(rs, st, idx);
    let end = owner_run_end(pre, p, rs, idx);
    if end > idx + 1 {
        lemma_ordered_push(drained.1, Pairing::Run(p as usize, idx as usize, end as usize), idx, end);
    } else {
        lemma_ordered_push(drained.1, Pairing::One(p as usize, idx as usize), idx, idx + 1);
    }
}

proof fn lemma_step_ordered(pre: Seq<PreChild>, p: nat, rs: Seq<RealChild>, st: PairState)
    requires
        no_recorded_runs(rs),
        rs.len() <= usize::MAX,
        p < pre.len(),
        st.0 <= rs.len(),
        ordered_below(st.1, st.0),
    ensures
        ordered_below(pair_step(pre, p, rs, st).1, pair_step(pre, p, rs, st).0),
        st.0 <= pair_step(pre, p, rs, st).0 <= rs.len(),
{
    let child = pre[p as int];
    let cursor = st.0;
    if child.kind == PreKind::Parbreak {
        lemma_ordered_push(st.1, Pairing::Itself(p as usize), cursor, cursor);
    } else if child.kind == PreKind::Context && cursor < rs.len() {
        let fallback_end = match next_pre_match(pre, p + 1, rs, cursor) {
            Some(e) => e,
            None => rs.len(),
        };
        lemma_next_pre_match_bounds(pre, p + 1, rs, cursor);
        let target = child.span;
        lemma_first_visible_bounds(rs, cursor, fallback_end, output_span_pred(target));
        lemma_first_visible_bounds(rs, fallback_end, rs.len(), span_pred(target));
        match child.recorded_text {
            Some(text) => lemma_first_visible_bounds(rs, cursor, rs.len(), text_pred(text@)),
            None => {},
        }
        match context_match(pre, p, rs, cursor, fallback_end) {
            Some(idx) => {
                lemma_take_match_ordered(pre, p, rs, st, idx);
                lemma_owner_run_end_bounded(pre, p, rs, idx);
            },
            None => {
                lemma_ordered_push(st.1, Pairing::Run(p as usize, cursor as usize, fallback_end as usize), cursor, fallback_end);
            },
        }
    } else {
        lemma_span_match_bounds(rs, cursor, child.span, child.invisible);
        match span_match(rs, cursor, child.span, child.invisible) {
            Some(idx) => {
                lemma_take_match_ordered(pre, p, rs, st, idx);
                lemma_owner_run_end_bounded(pre, p, rs, idx);
            },
            None => {
                if cursor < rs.len() && child.invisible {
                    lemma_ordered_push(st.1, Pairing::Itself(p as usize), cursor, cursor);
                } else if cursor < rs.len() && rs[cursor as int].context_span is Some {
                    assert(rs[cursor as int].recorded_run_end is None);
                    lemma_ordered_push(st.1, Pairing::Alone(cursor as usize), cursor, cursor + 1);
                    let after = push_unmatched(rs, st);
                    if after.0 >= rs.len() {
                        lemma_ordered_push(after.1, Pairing::Itself(p as usize), after.0, after.0);
                    } else {
                        lemma_ordered_push(after.1, Pairing::One(p as usize, after.0 as usize), after.0, after.0 + 1);
                    }
                } else if cursor < rs.len() {
                    lemma_ordered_push(st.1, Pairing::One(p as usize, cursor as usize), cursor, cursor + 1);
                }
            },
        }
    }
}

proof fn lemma_fold_ordered(pre: Seq<PreChild>, rs: Seq<RealChild>, n: nat)
    requires
        no_recorded_runs(rs),
        rs.len() <= usize::MAX,
        n <= pre.len(),
    ensures
        ordered_below(pair_fold(pre, rs, n).1, pair_fold(pre, rs, n).0),
        pair_fold(pre, rs, n).0 <= rs.len(),
    decreases n,
{
    if n > 0 {
        lemma_fold_ordered(pre, rs, (n - 1) as nat);
        lemma_step_ordered(pre, (n - 1) as nat, rs, pair_fold(pre, rs, (n - 1) as nat));
    }
}

/// Where no realized child holds a recorded context output, the children of
/// the paired sequence hold the realized children in order, and none is held
/// twice.
pub proof fn law_pairing_holds_in_order(pre: Seq<PreChild>, rs: Seq<RealChild>)
    requires
        no_recorded_runs(rs),
        rs.len() <= usize::MAX,
    ensures
        forall|k1: int, k2: int| 0 <= k1 < k2 < span_pairing_spec(pre, rs).len()
            ==> held_before(#[trigger] span_pairing_spec(pre, rs)[k1], #[trigger] span_pairing_spec(pre, rs)[k2]),
        forall|k1: int, k2: int, r: nat| 0 <= k1 < k2 < span_pairing_spec(pre, rs).len()
            && #[trigger] pairing_holds(span_pairing_spec(pre, rs)[k1], r)
            ==> !#[trigger] pairing_holds(span_pairing_spec(pre, rs)[k2], r),
{
    lemma_fold_ordered(pre, rs, pre.len());
    let st = pair_fold(pre, rs, pre.len());
    lemma_drain_ordered(rs, st, rs.len());
    let out = span_pairing_spec(pre, rs);
    assert forall|k1: int, k2: int, r: nat| 0 <= k1 < k2 < out.len()
        && #[trigger] pairing_holds(out[k1], r) implies !#[trigger] pairing_holds(out[k2], r) by {
        assert(held_before(out[k1], out[k2]));
    }
}

// ---------------------------------------------------------------------------
// The end of a recorded run
// ---------------------------------------------------------------------------

/// The first position from `from` on whose child closes the run.
pub open spec fn first_closing(closes: Seq<bool>, from: nat) -> Option<nat>
    decreases closes.len() - from,
{
    if from >= closes.len() {
        None
    } else if closes[from as int] {
        Some(from)
    } else {
        first_closing(closes, from + 1)
    }
}

/// The end of the recorded run that opens at `cursor`: just after the first
/// later child that closes it (the end tag of the same location), or just
/// after the opening child when none does. `closes` tells, for each child,
/// whether it is that end tag.
pub fn recorded_run_end(closes: &[bool], cursor: usize) -> (end: usize)
    requires
        cursor < closes@.len(),
    ensures
        end == match first_closing(closes@, (cursor + 1) as nat) {
            Some(i) => i as int + 1,
            None => cursor as int + 1,
        },
        cursor < end <= closes@.len(),
{
    let n = closes.len();
    assert(cursor < n);
    let mut i: usize = cursor + 1;
    while i < closes.len()
        invariant
            cursor < i <= closes@.len(),
            first_closing(closes@, i as nat) == first_closing(closes@, (cursor + 1) as nat),
        decreases closes@.len() - i,
    {
        if closes[i] {
            return i + 1;
        }
        i += 1;
    }
    cursor + 1
}

} // verus!
