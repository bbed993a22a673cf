//! Ordered edit scripts over keyed children.
//!
//! Slots, child sequences and structured container children all share one
//! script shape: equal runs, deletes anchored into the new side, inserts and
//! replacements. The longest-common-subsequence mode runs the Myers diff of the
//! `similar` crate over key identifiers; the same-shape mode pairs by position.

use similar::{capture_diff_slices, Algorithm, DiffOp};
use vstd::prelude::*;

use crate::text::chars_of;

verus! {

// ---------------------------------------------------------------------------
// Keys
// ---------------------------------------------------------------------------

/// A value that edit scripts compare by key.
///
/// `key_view` is the mathematical identity of the key: two keys are the same
/// exactly when their views are equal.
pub trait DiffKey {
    spec fn key_view(&self) -> (Seq<char>, Seq<char>);

    fn same_key(&self, other: &Self) -> (same: bool)
        ensures
            same == (self.key_view() == other.key_view()),
    ;
}

/// Whether two texts are equal, character by character.
pub(crate) fn str_eq(a: &str, b: &str) -> (same: bool)
    ensures
        same == (a@ == b@),
{
    let ac = chars_of(a);
    let bc = chars_of(b);
    if ac.len() != bc.len() {
        return false;
    }
    let mut i: usize = 0;
    while i < ac.len()
        invariant
            ac@ == a@,
            bc@ == b@,
            ac@.len() == bc@.len(),
            i <= ac@.len(),
            forall|k: int| 0 <= k < i ==> ac@[k] == bc@[k],
        decreases ac@.len() - i,
    {
        if ac[i] != bc[i] {
            return false;
        }
        i += 1;
    }
    assert(a@ =~= b@);
    true
}

impl DiffKey for String {
    open spec fn key_view(&self) -> (Seq<char>, Seq<char>) {
        (self@, Seq::empty())
    }

    fn same_key(&self, other: &Self) -> (same: bool) {
        *self == *other
    }
}

impl<'a> DiffKey for &'a str {
    open spec fn key_view(&self) -> (Seq<char>, Seq<char>) {
        ((*self)@, Seq::empty())
    }

    fn same_key(&self, other: &Self) -> (same: bool) {
        str_eq(*self, *other)
    }
}

/// The key views of a sequence of keys.
pub open spec fn key_views<K: DiffKey>(keys: Seq<K>) -> Seq<(Seq<char>, Seq<char>)> {
    keys.map_values(|k: K| k.key_view())
}

/// `q` is the first position of the sequence holding the value found at `p`.
pub open spec fn is_first_index<V>(all: Seq<V>, p: int, q: int) -> bool {
    &&& 0 <= q <= p < all.len()
    &&& all[q] == all[p]
    &&& forall|r: int| 0 <= r < q ==> all[r] != all[p]
}

/// Each position of `all` mapped to the first position that holds an equal value.
pub open spec fn first_ids<V>(all: Seq<V>) -> Seq<int> {
    Seq::new(all.len(), |p: int| choose|q: int| is_first_index(all, p, q))
}

/// The identifiers given to the old and the new keys: the first position of
/// each key in the old keys followed by the new keys.
pub open spec fn key_ids(
    old: Seq<(Seq<char>, Seq<char>)>,
    new: Seq<(Seq<char>, Seq<char>)>,
) -> (Seq<u64>, Seq<u64>) {
    let ids = first_ids(old + new);
    (
        Seq::new(old.len(), |p: int| ids[p] as u64),
        Seq::new(new.len(), |p: int| ids[old.len() + p] as u64),
    )
}

proof fn lemma_first_index_exists<V>(all: Seq<V>, p: int)
    requires
        0 <= p < all.len(),
    ensures
        exists|q: int| is_first_index(all, p, q),
    decreases p,
{
    if exists|r: int| 0 <= r < p && all[r] == all[p] {
        let r = choose|r: int| 0 <= r < p && all[r] == all[p];
        lemma_first_index_exists(all, r);
        let q = choose|q: int| is_first_index(all, r, q);
        assert(is_first_index(all, p, q));
    } else {
        assert(is_first_index(all, p, p));
    }
}

proof fn lemma_first_index_unique<V>(all: Seq<V>, p: int, q1: int, q2: int)
    requires
        is_first_index(all, p, q1),
        is_first_index(all, p, q2),
    ensures
        q1 == q2,
{
    if q1 < q2 {
        assert(all[q1] == all[p]);
    } else if q2 < q1 {
        assert(all[q2] == all[p]);
    }
}

/// Two positions get the same first index exactly when they hold equal values.
proof fn lemma_first_ids_equal<V>(all: Seq<V>, p1: int, p2: int)
    requires
        0 <= p1 < all.len(),
        0 <= p2 < all.len(),
    ensures
        (first_ids(all)[p1] == first_ids(all)[p2]) <==> (all[p1] == all[p2]),
{
    lemma_first_index_exists(all, p1);
    lemma_first_index_exists(all, p2);
    let q1 = first_ids(all)[p1];
    let q2 = first_ids(all)[p2];
    assert(is_first_index(all, p1, q1));
    assert(is_first_index(all, p2, q2));
    if all[p1] == all[p2] {
        if q1 < q2 {
            assert(all[q1] == all[p2]);
        } else if q2 < q1 {
            assert(all[q2] == all[p1]);
        }
    }
}

/// The value at position `p` of the old keys followed by the new keys.
pub open spec fn joined_at<K>(old: Seq<K>, new: Seq<K>, p: int) -> K {
    if p < old.len() {
        old[p]
    } else {
        new[p - old.len()]
    }
}

fn joined_key<'a, K: DiffKey>(old: &'a [K], new: &'a [K], p: usize) -> (k: &'a K)
    requires
        p < old@.len() + new@.len(),
    ensures
        *k == joined_at(old@, new@, p as int),
{
    if p < old.len() {
        &old[p]
    } else {
        &new[p - old.len()]
    }
}

/// The views of the old keys followed by the new keys.
pub open spec fn joined_views<K: DiffKey>(old: Seq<K>, new: Seq<K>) -> Seq<(Seq<char>, Seq<char>)> {
    key_views(old) + key_views(new)
}

proof fn lemma_joined_views<K: DiffKey>(old: Seq<K>, new: Seq<K>, r: int)
    requires
        0 <= r < old.len() + new.len(),
    ensures
        joined_views(old, new)[r] == joined_at(old, new, r).key_view(),
{
}

/// `firsts` lists, for every key seen before position `p`, the first
/// position that holds it.
spec fn firsts_cover(views: Seq<(Seq<char>, Seq<char>)>, firsts: Seq<usize>, p: int) -> bool {
    &&& forall|t: int| 0 <= t < firsts.len() ==> is_first_index(views, #[trigger] firsts[t] as int, firsts[t] as int)
    &&& forall|t: int| 0 <= t < firsts.len() ==> #[trigger] firsts[t] < p
    &&& forall|r: int| #![trigger views[r]] 0 <= r < p ==> exists|t: int| 0 <= t < firsts.len() && views[#[trigger] firsts[t] as int] == views[r]
}

proof fn lemma_cover_found(views: Seq<(Seq<char>, Seq<char>)>, firsts: Seq<usize>, p: int, q: int)
    requires
        0 <= p < views.len(),
        firsts_cover(views, firsts, p),
        is_first_index(views, p, q),
        q < p,
    ensures
        firsts_cover(views, firsts, p + 1),
{
    assert(views[q] == views[p]);
    assert(exists|t: int| 0 <= t < firsts.len() && views[#[trigger] firsts[t] as int] == views[q]);
}

proof fn lemma_cover_new(views: Seq<(Seq<char>, Seq<char>)>, firsts: Seq<usize>, p: usize)
    requires
        0 <= p < views.len(),
        firsts_cover(views, firsts, p as int),
        forall|r: int| 0 <= r < p ==> views[r] != views[p as int],
    ensures
        firsts_cover(views, firsts.push(p), p + 1),
{
    let after = firsts.push(p);
    assert(is_first_index(views, p as int, p as int));
    assert(after[firsts.len() as int] == p);
    assert(views[after[firsts.len() as int] as int] == views[p as int]);
    assert forall|r: int| #![trigger views[r]] 0 <= r < p implies exists|t: int| 0 <= t < after.len() && views[#[trigger] after[t] as int] == views[r] by {
        let t2 = choose|t2: int| 0 <= t2 < firsts.len() && views[#[trigger] firsts[t2] as int] == views[r];
        assert(after[t2] == firsts[t2]);
    }
    assert forall|t: int| 0 <= t < after.len() implies is_first_index(views, #[trigger] after[t] as int, after[t] as int) by {
        if t < firsts.len() {
            assert(after[t] == firsts[t]);
        }
    }
}

/// Looks up the first position of the key at `p` among `firsts`.
fn find_first<K: DiffKey>(old: &[K], new: &[K], firsts: &Vec<usize>, p: usize) -> (found: Option<usize>)
    requires
        p < old@.len() + new@.len(),
        firsts_cover(joined_views(old@, new@), firsts@, p as int),
    ensures
        found matches Some(q) ==> is_first_index(joined_views(old@, new@), p as int, q as int) && q < p,
        found is None ==> forall|r: int| 0 <= r < p ==> joined_views(old@, new@)[r] != joined_views(old@, new@)[p as int],
{
    let ghost views = joined_views(old@, new@);
    proof { lemma_joined_views(old@, new@, p as int); }
    let key = joined_key(old, new, p);
    let mut t: usize = 0;
    while t < firsts.len()
        invariant
            p < old@.len() + new@.len(),
            views == joined_views(old@, new@),
            views[p as int] == key.key_view(),
            firsts_cover(views, firsts@, p as int),
            t <= firsts@.len(),
            forall|u: int| 0 <= u < t ==> views[#[trigger] firsts@[u] as int] != views[p as int],
        decreases firsts@.len() - t,
    {
        let q = firsts[t];
        proof { lemma_joined_views(old@, new@, q as int); }
        let candidate = joined_key(old, new, q);
        if candidate.same_key(key) {
            assert(is_first_index(views, q as int, q as int));
            return Some(q);
        }
        t += 1;
    }
    assert forall|r: int| 0 <= r < p implies views[r] != views[p as int] by {
        let t2 = choose|t2: int| 0 <= t2 < firsts@.len() && views[#[trigger] firsts@[t2] as int] == views[r];
        assert(views[firsts@[t2] as int] != views[p as int]);
    }
    None
}

/// The identifier of every position of the old keys followed by the new keys.
fn joined_ids<K: DiffKey>(old: &[K], new: &[K]) -> (ids: Vec<u64>)
    requires
        old@.len() + new@.len() <= usize::MAX,
    ensures
        ids@.len() == old@.len() + new@.len(),
        forall|r: int| 0 <= r < ids@.len() ==> is_first_index(joined_views(old@, new@), r, #[trigger] ids@[r] as int),
{
    let ghost views = joined_views(old@, new@);
    let total = old.len() + new.len();
    let mut firsts: Vec<usize> = Vec::new();
    let mut all_ids: Vec<u64> = Vec::new();
    let mut p: usize = 0;
    while p < total
        invariant
            total == old@.len() + new@.len(),
            total <= usize::MAX,
            views == joined_views(old@, new@),
            views.len() == total,
            p <= total,
            all_ids@.len() == p,
            forall|r: int| 0 <= r < p ==> is_first_index(views, r, #[trigger] all_ids@[r] as int),
            firsts_cover(views, firsts@, p as int),
        decreases total - p,
    {
        match find_first(old, new, &firsts, p) {
            Some(q) => {
                proof { lemma_cover_found(views, firsts@, p as int, q as int); }
                all_ids.push(q as u64);
            },
            None => {
                proof { lemma_cover_new(views, firsts@, p); }
                assert(is_first_index(views, p as int, p as int));
                firsts.push(p);
                all_ids.push(p as u64);
            },
        }
        p += 1;
    }
    all_ids
}

/// Gives every key the identifier defined by [`key_ids`]: equal keys get the
/// same identifier and different keys different ones.
pub fn intern_keys<K: DiffKey>(old: &[K], new: &[K]) -> (ids: (Vec<u64>, Vec<u64>))
    requires
        old@.len() + new@.len() <= usize::MAX,
    ensures
        ids.0@ == key_ids(key_views(old@), key_views(new@)).0,
        ids.1@ == key_ids(key_views(old@), key_views(new@)).1,
{
    let ghost views = joined_views(old@, new@);
    let all_ids = joined_ids(old, new);
    let ghost ids = first_ids(views);
    assert forall|r: int| 0 <= r < all_ids@.len() implies ids[r] == all_ids@[r] as int by {
        lemma_first_index_exists(views, r);
        lemma_first_index_unique(views, r, ids[r], all_ids@[r] as int);
    }
    let mut old_ids: Vec<u64> = Vec::new();
    let mut new_ids: Vec<u64> = Vec::new();
    let mut i: usize = 0;
    while i < old.len()
        invariant
            i <= old@.len(),
            all_ids@.len() == old@.len() + new@.len(),
            old_ids@ == all_ids@.subrange(0, i as int),
        decreases old@.len() - i,
    {
        old_ids.push(all_ids[i]);
        i += 1;
    }
    let base = old.len();
    let mut j: usize = 0;
    while j < new.len()
        invariant
            base == old@.len(),
            old@.len() + new@.len() <= usize::MAX,
            j <= new@.len(),
            all_ids@.len() == old@.len() + new@.len(),
            new_ids@ == all_ids@.subrange(base as int, base + j),
        decreases new@.len() - j,
    {
        new_ids.push(all_ids[base + j]);
        j += 1;
    }
    assert(old_ids@ =~= key_ids(key_views(old@), key_views(new@)).0);
    assert(new_ids@ =~= key_ids(key_views(old@), key_views(new@)).1);
    (old_ids, new_ids)
}

/// Equal key sequences get equal identifier sequences.
proof fn lemma_key_ids_same(keys: Seq<(Seq<char>, Seq<char>)>)
    ensures
        key_ids(keys, keys).0 == key_ids(keys, keys).1,
{
    let all = keys + keys;
    assert forall|i: int| 0 <= i < keys.len() implies key_ids(keys, keys).0[i] == key_ids(keys, keys).1[i] by {
        lemma_first_ids_equal(all, i, keys.len() + i);
    }
    assert(key_ids(keys, keys).0 =~= key_ids(keys, keys).1);
}

/// Identifiers from [`key_ids`] are equal exactly when the keys are.
pub proof fn lemma_key_ids_match(
    old: Seq<(Seq<char>, Seq<char>)>,
    new: Seq<(Seq<char>, Seq<char>)>,
    i: int,
    j: int,
)
    requires
        0 <= i < old.len(),
        0 <= j < new.len(),
        old.len() + new.len() <= u64::MAX,
    ensures
        (key_ids(old, new).0[i] == key_ids(old, new).1[j]) <==> (old[i] == new[j]),
{
    let all = old + new;
    lemma_first_ids_equal(all, i, old.len() + j);
    lemma_first_index_exists(all, i);
    lemma_first_index_exists(all, old.len() + j);
    let ids = first_ids(all);
    assert(is_first_index(all, i, ids[i]));
    assert(is_first_index(all, old.len() + j, ids[old.len() + j]));
    assert(all[i] == old[i]);
    assert(all[old.len() + j] == new[j]);
}


// ---------------------------------------------------------------------------
// Myers diff of key identifiers
// ---------------------------------------------------------------------------

/// One operation of a Myers diff, as the `similar` crate reports it.
#[derive(Clone, Copy, Debug, PartialEq, Eq, Structural)]
pub enum MyersOp {
    Equal { old_index: usize, new_index: usize, len: usize },
    Delete { old_index: usize, old_len: usize, new_index: usize },
    Insert { old_index: usize, new_index: usize, new_len: usize },
    Replace { old_index: usize, old_len: usize, new_index: usize, new_len: usize },
}

/// The operations that `similar::capture_diff_slices` with `Algorithm::Myers`
/// returns for two sequences of identifiers.
pub uninterp spec fn myers_script(old: Seq<u64>, new: Seq<u64>) -> Seq<MyersOp>;

/// The script of a sequence against an equal one: a single equal run over
/// all of it, or nothing when it is empty.
pub open spec fn identity_script(len: nat) -> Seq<MyersOp> {
    if len == 0 {
        Seq::empty()
    } else {
        seq![MyersOp::Equal { old_index: 0, new_index: 0, len: len as usize }]
    }
}

/// The length of a longest common subsequence of two sequences.
pub open spec fn lcs_len<V>(a: Seq<V>, b: Seq<V>) -> nat
    decreases a.len() + b.len(),
{
    if a.len() == 0 || b.len() == 0 {
        0
    } else if a.last() == b.last() {
        lcs_len(a.drop_last(), b.drop_last()) + 1
    } else {
        let x = lcs_len(a.drop_last(), b);
        let y = lcs_len(a, b.drop_last());
        if x >= y { x } else { y }
    }
}

/// The number of elements that the equal runs of a script keep.
pub open spec fn myers_equal_total(ops: Seq<MyersOp>) -> nat
    decreases ops.len(),
{
    if ops.len() == 0 {
        0
    } else {
        let here: nat = match ops[0] {
            MyersOp::Equal { len, .. } => len as nat,
            _ => 0,
        };
        here + myers_equal_total(ops.drop_first())
    }
}

/// Two pairs of sequences whose elements compare alike have common
/// subsequences of the same greatest length.
pub proof fn lemma_lcs_relabel<V, W>(a: Seq<V>, b: Seq<V>, c: Seq<W>, d: Seq<W>)
    requires
        a.len() == c.len(),
        b.len() == d.len(),
        forall|i: int, j: int| 0 <= i < a.len() && 0 <= j < b.len() ==> ((a[i] == b[j]) <==> (c[i] == d[j])),
    ensures
        lcs_len(a, b) == lcs_len(c, d),
    decreases a.len() + b.len(),
{
    if a.len() > 0 && b.len() > 0 {
        assert((a.last() == b.last()) <==> (c.last() == d.last())) by {
            assert(a.last() == a[a.len() - 1]);
            assert(b.last() == b[b.len() - 1]);
            assert(c.last() == c[c.len() - 1]);
            assert(d.last() == d[d.len() - 1]);
        }
        lemma_lcs_relabel(a.drop_last(), b.drop_last(), c.drop_last(), d.drop_last());
        lemma_lcs_relabel(a.drop_last(), b, c.drop_last(), d);
        lemma_lcs_relabel(a, b.drop_last(), c, d.drop_last());
    }
}

/// `ops`, read from old position `i` and new position `j`, walks both
/// sequences to their ends in order without gaps or overlaps.
pub open spec fn myers_covers(old_len: int, new_len: int, ops: Seq<MyersOp>, i: int, j: int) -> bool
    decreases ops.len(),
{
    if ops.len() == 0 {
        i == old_len && j == new_len
    } else {
        let rest = ops.drop_first();
        match ops[0] {
            MyersOp::Equal { old_index, new_index, len } => old_index == i && new_index == j
                && myers_covers(old_len, new_len, rest, i + len, j + len),
            MyersOp::Delete { old_index, old_len: n, new_index } => old_index == i && new_index == j
                && myers_covers(old_len, new_len, rest, i + n, j),
            MyersOp::Insert { old_index, new_index, new_len: n } => old_index == i && new_index == j
                && myers_covers(old_len, new_len, rest, i, j + n),
            MyersOp::Replace { old_index, old_len: n, new_index, new_len: m } => old_index == i
                && new_index == j && myers_covers(old_len, new_len, rest, i + n, j + m),
        }
    }
}

/// The operation covers at least one element on each side it touches.
pub open spec fn myers_op_nonempty(op: MyersOp) -> bool {
    match op {
        MyersOp::Equal { len, .. } => len > 0,
        MyersOp::Delete { old_len, .. } => old_len > 0,
        MyersOp::Insert { new_len, .. } => new_len > 0,
        MyersOp::Replace { old_len, new_len, .. } => old_len > 0 && new_len > 0,
    }
}

/// No operation of the script is empty.
pub open spec fn myers_ops_nonempty(ops: Seq<MyersOp>) -> bool {
    forall|m: int| 0 <= m < ops.len() ==> myers_op_nonempty(#[trigger] ops[m])
}

/// Every equal run of `ops` pairs equal elements of the two sequences.
pub open spec fn myers_equal_runs_match(old: Seq<u64>, new: Seq<u64>, ops: Seq<MyersOp>) -> bool {
    myers_equal_runs_match_keys(old, new, ops)
}

/// An equal run pairs equal elements; other operations pass.
pub open spec fn myers_run_matches<V>(old: Seq<V>, new: Seq<V>, op: MyersOp) -> bool {
    match op {
        MyersOp::Equal { old_index, new_index, len } => old_index + len <= old.len()
            && new_index + len <= new.len() && forall|d: int|
            old_index <= d < old_index + len ==> #[trigger] old[d] == new[new_index + (d - old_index)],
        _ => true,
    }
}

/// Trusted Myers diff of two identifier sequences.
///
/// Calls `similar::capture_diff_slices(Algorithm::Myers, old, new)` and copies
/// each `DiffOp` into a [`MyersOp`]. The result is named by [`myers_script`].
/// The contract also states what the hook chain in `similar` (Myers, then
/// `Compact`, then `Replace`, then `Capture`) emits: operations that walk both
/// sequences in order from the start to the end, whose equal runs pair equal
/// elements. On two equal sequences Myers reports their common prefix, the
/// whole of them, as one equal run and nothing else, and the later hooks pass
/// that run on unchanged; the contract states this too. Without a deadline
/// `similar` runs Myers' algorithm to the end with no heuristic that gives
/// up optimality, so its script is a shortest edit script: the equal runs
/// keep a longest common subsequence. `Compact` only shifts edits along equal
/// runs and `Replace` only merges neighbouring operations, so the number of
/// kept elements stays; the contract states it. Myers reports only non-empty
/// runs, `Compact` drops a run that it shrinks to nothing and inserts only
/// non-empty equal runs (its branches that shift a delete never fire: a
/// delete's new range is empty, so the common prefix or suffix it measures is
/// empty), and `Replace` adds lengths up, so no operation is empty; the
/// contract states that too.
#[verifier::external_body]
fn myers_diff(old: &[u64], new: &[u64]) -> (ops: Vec<MyersOp>)
    ensures
        ops@ == myers_script(old@, new@),
        myers_covers(old@.len() as int, new@.len() as int, ops@, 0, 0),
        myers_equal_runs_match(old@, new@, ops@),
        old@ == new@ ==> ops@ == identity_script(old@.len()),
        myers_equal_total(ops@) == lcs_len(old@, new@),
        myers_ops_nonempty(ops@),
{
    capture_diff_slices(Algorithm::Myers, old, new).into_iter().map(|op| match op {
        DiffOp::Equal { old_index, new_index, len } => MyersOp::Equal { old_index, new_index, len },
        DiffOp::Delete { old_index, old_len, new_index } => MyersOp::Delete { old_index, old_len, new_index },
        DiffOp::Insert { old_index, new_index, new_len } => MyersOp::Insert { old_index, new_index, new_len },
        DiffOp::Replace { old_index, old_len, new_index, new_len } => MyersOp::Replace { old_index, old_len, new_index, new_len },
    }).collect()
}

/// The Myers operations for two key sequences: the diff of their identifiers.
pub open spec fn keyed_myers_script(
    old: Seq<(Seq<char>, Seq<char>)>,
    new: Seq<(Seq<char>, Seq<char>)>,
) -> Seq<MyersOp> {
    myers_script(key_ids(old, new).0, key_ids(old, new).1)
}

/// Every equal run of `ops` pairs equal keys.
pub open spec fn myers_equal_runs_match_keys<V>(old: Seq<V>, new: Seq<V>, ops: Seq<MyersOp>) -> bool {
    forall|k: int| 0 <= k < ops.len() ==> myers_run_matches(old, new, #[trigger] ops[k])
}

/// Myers diff of two key sequences.
///
/// Keys are first turned into identifiers with [`intern_keys`]; Myers compares
/// elements only for equality, so the script is the one for the keys.
pub fn keyed_myers_diff<K: DiffKey>(old: &[K], new: &[K]) -> (ops: Vec<MyersOp>)
    requires
        old@.len() + new@.len() <= usize::MAX,
    ensures
        ops@ == keyed_myers_script(key_views(old@), key_views(new@)),
        myers_covers(old@.len() as int, new@.len() as int, ops@, 0, 0),
        myers_equal_runs_match_keys(key_views(old@), key_views(new@), ops@),
        key_views(old@) == key_views(new@) ==> ops@ == identity_script(old@.len()),
        myers_equal_total(ops@) == lcs_len(key_views(old@), key_views(new@)),
        myers_ops_nonempty(ops@),
{
    let (old_ids, new_ids) = intern_keys(old, new);
    proof {
        if key_views(old@) == key_views(new@) {
            lemma_key_ids_same(key_views(old@));
        }
    }
    let ops = myers_diff(&old_ids, &new_ids);
    let ghost ov = key_views(old@);
    let ghost nv = key_views(new@);
    let ghost oi = key_ids(ov, nv).0;
    let ghost ni = key_ids(ov, nv).1;
    assert(oi.len() == ov.len() && ni.len() == nv.len());
    assert(ov.len() == old@.len() && nv.len() == new@.len());
    assert(ov.len() + nv.len() <= u64::MAX);
    assert forall|k: int| 0 <= k < ops@.len() implies myers_run_matches(ov, nv, #[trigger] ops@[k]) by {
        let op = ops@[k];
        assert(myers_run_matches(oi, ni, op));
        match op {
            MyersOp::Equal { old_index, new_index, len } => {
                assert forall|d: int| old_index <= d < old_index + len implies #[trigger] ov[d] == nv[new_index + (d - old_index)] by {
                    assert(oi[d] == ni[new_index + (d - old_index)]);
                    lemma_key_ids_match(ov, nv, d, new_index + (d - old_index));
                }
            },
            _ => {},
        }
    }
    proof {
        assert forall|i: int, j: int| 0 <= i < oi.len() && 0 <= j < ni.len() implies ((oi[i] == ni[j]) <==> (ov[i] == nv[j])) by {
            lemma_key_ids_match(ov, nv, i, j);
        }
        lemma_lcs_relabel(oi, ni, ov, nv);
    }
    ops
}

// ---------------------------------------------------------------------------
// Edit scripts
// ---------------------------------------------------------------------------

/// How an edit script pairs old and new children.
#[derive(Clone, Copy, Debug, PartialEq, Eq, Structural)]
pub enum EditScriptMode {
    /// Pair children by position.
    SameShape,
    /// Keep a longest common subsequence of equal keys.
    Lcs,
}

/// One operation of an ordered edit script.
#[derive(Clone, Copy, Debug, PartialEq, Eq, Structural)]
pub enum EditScriptOp {
    Equal { old_index: usize, new_index: usize, len: usize },
    Delete { old_index: usize, old_len: usize, new_index: usize },
    Insert { new_index: usize, new_len: usize },
    Replace { old_index: usize, old_len: usize, new_index: usize, new_len: usize },
}

/// `ops`, read from old position `i` and new position `j`, walks both
/// sequences to their ends in order without gaps or overlaps.
pub open spec fn script_covers(old_len: int, new_len: int, ops: Seq<EditScriptOp>, i: int, j: int) -> bool
    decreases ops.len(),
{
    if ops.len() == 0 {
        i == old_len && j == new_len
    } else {
        let rest = ops.drop_first();
        match ops[0] {
            EditScriptOp::Equal { old_index, new_index, len } => old_index == i && new_index == j
                && script_covers(old_len, new_len, rest, i + len, j + len),
            EditScriptOp::Delete { old_index, old_len: n, new_index } => old_index == i
                && new_index == j && script_covers(old_len, new_len, rest, i + n, j),
            EditScriptOp::Insert { new_index, new_len: n } => new_index == j
                && script_covers(old_len, new_len, rest, i, j + n),
            EditScriptOp::Replace { old_index, old_len: n, new_index, new_len: m } => old_index == i
                && new_index == j && script_covers(old_len, new_len, rest, i + n, j + m),
        }
    }
}

/// Every equal run of `ops` pairs equal keys.
pub open spec fn equal_runs_match<V>(old: Seq<V>, new: Seq<V>, ops: Seq<EditScriptOp>) -> bool {
    forall|k: int| 0 <= k < ops.len() ==> run_matches(old, new, #[trigger] ops[k])
}

/// An equal run pairs equal elements; other operations pass.
pub open spec fn run_matches<V>(old: Seq<V>, new: Seq<V>, op: EditScriptOp) -> bool {
    match op {
        EditScriptOp::Equal { old_index, new_index, len } => old_index + len <= old.len()
            && new_index + len <= new.len() && forall|d: int|
            old_index <= d < old_index + len ==> #[trigger] old[d] == new[new_index + (d - old_index)],
        _ => true,
    }
}

/// The same-shape script: the common prefix of positions is paired as one
/// equal run, then the surplus old children are deleted or the surplus new
/// children inserted.
pub open spec fn same_shape_spec(old_len: nat, new_len: nat) -> Seq<EditScriptOp> {
    let paired = if old_len < new_len { old_len } else { new_len };
    let equal = if paired > 0 {
        seq![EditScriptOp::Equal { old_index: 0, new_index: 0, len: paired as usize }]
    } else {
        Seq::empty()
    };
    let delete = if old_len > paired {
        seq![EditScriptOp::Delete { old_index: paired as usize, old_len: (old_len - paired) as usize, new_index: paired as usize }]
    } else {
        Seq::empty()
    };
    let insert = if new_len > paired {
        seq![EditScriptOp::Insert { new_index: paired as usize, new_len: (new_len - paired) as usize }]
    } else {
        Seq::empty()
    };
    equal + delete + insert
}

/// The edit script of a sequence against an equal one: everything kept as a
/// single equal run, or nothing when it is empty.
pub open spec fn keep_all_script(len: nat) -> Seq<EditScriptOp> {
    if len == 0 {
        Seq::empty()
    } else {
        seq![EditScriptOp::Equal { old_index: 0, new_index: 0, len: len as usize }]
    }
}

/// The number of elements that the equal runs of an edit script keep.
pub open spec fn script_equal_total(ops: Seq<EditScriptOp>) -> nat
    decreases ops.len(),
{
    if ops.len() == 0 {
        0
    } else {
        let here: nat = match ops[0] {
            EditScriptOp::Equal { len, .. } => len as nat,
            _ => 0,
        };
        here + script_equal_total(ops.drop_first())
    }
}

proof fn lemma_equal_total_of_myers(ops: Seq<MyersOp>)
    ensures
        script_equal_total(ops.map_values(|op: MyersOp| edit_op_of(op))) == myers_equal_total(ops),
    decreases ops.len(),
{
    if ops.len() > 0 {
        let mapped = ops.map_values(|op: MyersOp| edit_op_of(op));
        assert(mapped.drop_first() =~= ops.drop_first().map_values(|op: MyersOp| edit_op_of(op)));
        lemma_equal_total_of_myers(ops.drop_first());
    }
}

/// The edit-script operation that a Myers operation becomes.
pub open spec fn edit_op_of(op: MyersOp) -> EditScriptOp {
    match op {
        MyersOp::Equal { old_index, new_index, len } => EditScriptOp::Equal { old_index, new_index, len },
        MyersOp::Delete { old_index, old_len, new_index } => EditScriptOp::Delete { old_index, old_len, new_index },
        MyersOp::Insert { new_index, new_len, .. } => EditScriptOp::Insert { new_index, new_len },
        MyersOp::Replace { old_index, old_len, new_index, new_len } => EditScriptOp::Replace { old_index, old_len, new_index, new_len },
    }
}

/// The longest-common-subsequence script of two key sequences.
pub open spec fn lcs_spec(
    old: Seq<(Seq<char>, Seq<char>)>,
    new: Seq<(Seq<char>, Seq<char>)>,
) -> Seq<EditScriptOp> {
    keyed_myers_script(old, new).map_values(|op: MyersOp| edit_op_of(op))
}

/// The script that [`build_edit_script`] returns.
pub open spec fn edit_script_spec(
    old: Seq<(Seq<char>, Seq<char>)>,
    new: Seq<(Seq<char>, Seq<char>)>,
    mode: EditScriptMode,
) -> Seq<EditScriptOp> {
    match mode {
        EditScriptMode::SameShape => same_shape_spec(old.len(), new.len()),
        EditScriptMode::Lcs => lcs_spec(old, new),
    }
}

/// Builds the edit script of two key sequences in the given mode.
pub fn build_edit_script<K: DiffKey>(old_keys: &[K], new_keys: &[K], mode: EditScriptMode) -> (ops: Vec<EditScriptOp>)
    requires
        old_keys@.len() + new_keys@.len() <= usize::MAX,
    ensures
        ops@ == edit_script_spec(key_views(old_keys@), key_views(new_keys@), mode),
        script_covers(old_keys@.len() as int, new_keys@.len() as int, ops@, 0, 0),
        mode == EditScriptMode::Lcs ==> equal_runs_match(key_views(old_keys@), key_views(new_keys@), ops@),
        key_views(old_keys@) == key_views(new_keys@) ==> ops@ == keep_all_script(old_keys@.len()),
        mode == EditScriptMode::Lcs ==> script_equal_total(ops@) == lcs_len(key_views(old_keys@), key_views(new_keys@)),
{
    proof {
        assert(key_views(old_keys@).len() == old_keys@.len());
        assert(key_views(new_keys@).len() == new_keys@.len());
    }
    match mode {
        EditScriptMode::SameShape => same_shape_script(old_keys.len(), new_keys.len()),
        EditScriptMode::Lcs => lcs_script(old_keys, new_keys),
    }
}

/// Pairs children by position.
pub fn same_shape_script(old_len: usize, new_len: usize) -> (ops: Vec<EditScriptOp>)
    ensures
        ops@ == same_shape_spec(old_len as nat, new_len as nat),
        script_covers(old_len as int, new_len as int, ops@, 0, 0),
        old_len == new_len ==> ops@ == keep_all_script(old_len as nat),
{
    let paired = if old_len < new_len { old_len } else { new_len };
    let mut ops: Vec<EditScriptOp> = Vec::new();
    if paired > 0 {
        ops.push(EditScriptOp::Equal { old_index: 0, new_index: 0, len: paired });
    }
    if old_len > paired {
        ops.push(EditScriptOp::Delete { old_index: paired, old_len: old_len - paired, new_index: paired });
    }
    if new_len > paired {
        ops.push(EditScriptOp::Insert { new_index: paired, new_len: new_len - paired });
    }
    assert(ops@ =~= same_shape_spec(old_len as nat, new_len as nat));
    proof {
        reveal_with_fuel(script_covers, 4);
        let s = ops@;
        if s.len() > 0 {
            let r1 = s.drop_first();
            if r1.len() > 0 {
                let r2 = r1.drop_first();
                if r2.len() > 0 {
                    assert(r2.drop_first().len() == 0);
                }
            }
        }
    }
    ops
}

proof fn lemma_covers_of_myers(old_len: int, new_len: int, ops: Seq<MyersOp>, i: int, j: int)
    requires
        myers_covers(old_len, new_len, ops, i, j),
    ensures
        script_covers(old_len, new_len, ops.map_values(|op: MyersOp| edit_op_of(op)), i, j),
    decreases ops.len(),
{
    let mapped = ops.map_values(|op: MyersOp| edit_op_of(op));
    if ops.len() > 0 {
        assert(mapped.drop_first() =~= ops.drop_first().map_values(|op: MyersOp| edit_op_of(op)));
        match ops[0] {
            MyersOp::Equal { old_index, new_index, len } => {
                lemma_covers_of_myers(old_len, new_len, ops.drop_first(), i + len, j + len);
            },
            MyersOp::Delete { old_index, old_len: n, new_index } => {
                lemma_covers_of_myers(old_len, new_len, ops.drop_first(), i + n, j);
            },
            MyersOp::Insert { old_index, new_index, new_len: n } => {
                lemma_covers_of_myers(old_len, new_len, ops.drop_first(), i, j + n);
            },
            MyersOp::Replace { old_index, old_len: n, new_index, new_len: m } => {
                lemma_covers_of_myers(old_len, new_len, ops.drop_first(), i + n, j + m);
            },
        }
    }
}

/// Keeps a longest common subsequence of equal keys (Myers).
pub fn lcs_script<K: DiffKey>(old_keys: &[K], new_keys: &[K]) -> (ops: Vec<EditScriptOp>)
    requires
        old_keys@.len() + new_keys@.len() <= usize::MAX,
    ensures
        ops@ == lcs_spec(key_views(old_keys@), key_views(new_keys@)),
        script_covers(old_keys@.len() as int, new_keys@.len() as int, ops@, 0, 0),
        equal_runs_match(key_views(old_keys@), key_views(new_keys@), ops@),
        key_views(old_keys@) == key_views(new_keys@) ==> ops@ == keep_all_script(old_keys@.len()),
        script_equal_total(ops@) == lcs_len(key_views(old_keys@), key_views(new_keys@)),
{
    let raw = keyed_myers_diff(old_keys, new_keys);
    let mut ops: Vec<EditScriptOp> = Vec::new();
    let mut k: usize = 0;
    while k < raw.len()
        invariant
            k <= raw@.len(),
            ops@ == raw@.subrange(0, k as int).map_values(|op: MyersOp| edit_op_of(op)),
        decreases raw@.len() - k,
    {
        let op = match raw[k] {
            MyersOp::Equal { old_index, new_index, len } => EditScriptOp::Equal { old_index, new_index, len },
            MyersOp::Delete { old_index, old_len, new_index } => EditScriptOp::Delete { old_index, old_len, new_index },
            MyersOp::Insert { new_index, new_len, .. } => EditScriptOp::Insert { new_index, new_len },
            MyersOp::Replace { old_index, old_len, new_index, new_len } => EditScriptOp::Replace { old_index, old_len, new_index, new_len },
        };
        ops.push(op);
        k += 1;
        assert(ops@ =~= raw@.subrange(0, k as int).map_values(|op: MyersOp| edit_op_of(op)));
    }
    assert(raw@.subrange(0, raw@.len() as int) =~= raw@);
    proof {
        lemma_covers_of_myers(old_keys@.len() as int, new_keys@.len() as int, raw@, 0, 0);
        let ov = key_views(old_keys@);
        let nv = key_views(new_keys@);
        assert(ops@ =~= raw@.map_values(|op: MyersOp| edit_op_of(op)));
        lemma_equal_total_of_myers(raw@);
        if key_views(old_keys@) == key_views(new_keys@) {
            assert(key_views(old_keys@).len() == old_keys@.len());
            assert(ops@ =~= keep_all_script(old_keys@.len()));
        }
        assert forall|k2: int| 0 <= k2 < ops@.len() implies run_matches(ov, nv, #[trigger] ops@[k2]) by {
            let op = raw@[k2];
            assert(ops@[k2] == edit_op_of(op));
            assert(myers_run_matches(ov, nv, op));
            match op {
                MyersOp::Equal { old_index, new_index, len } => {
                    assert forall|d: int| old_index <= d < old_index + len implies #[trigger] ov[d] == nv[new_index + (d - old_index)] by {
                        assert(ov[d] == nv[new_index + (d - old_index)]);
                    }
                },
                _ => {},
            }
        }
    }
    ops
}

/// The ranges that a Myers operation reads lie inside both sequences.
pub open spec fn myers_op_in_bounds(op: MyersOp, old_len: int, new_len: int) -> bool {
    match op {
        MyersOp::Equal { old_index, new_index, len } => old_index + len <= old_len && new_index + len <= new_len,
        MyersOp::Delete { old_index, old_len: n, new_index } => old_index + n <= old_len && new_index <= new_len,
        MyersOp::Insert { old_index, new_index, new_len: n } => old_index <= old_len && new_index + n <= new_len,
        MyersOp::Replace { old_index, old_len: n, new_index, new_len: m } => old_index + n <= old_len
            && new_index + m <= new_len,
    }
}

pub proof fn lemma_myers_covers_ends(old_len: int, new_len: int, ops: Seq<MyersOp>, i: int, j: int)
    requires
        myers_covers(old_len, new_len, ops, i, j),
    ensures
        i <= old_len && j <= new_len,
    decreases ops.len(),
{
    if ops.len() > 0 {
        match ops[0] {
            MyersOp::Equal { old_index, new_index, len } => {
                lemma_myers_covers_ends(old_len, new_len, ops.drop_first(), i + len, j + len);
            },
            MyersOp::Delete { old_index, old_len: n, new_index } => {
                lemma_myers_covers_ends(old_len, new_len, ops.drop_first(), i + n, j);
            },
            MyersOp::Insert { old_index, new_index, new_len: n } => {
                lemma_myers_covers_ends(old_len, new_len, ops.drop_first(), i, j + n);
            },
            MyersOp::Replace { old_index, old_len: n, new_index, new_len: m } => {
                lemma_myers_covers_ends(old_len, new_len, ops.drop_first(), i + n, j + m);
            },
        }
    }
}

/// Every operation of a covering script reads inside both sequences.
pub proof fn lemma_myers_in_bounds(old_len: int, new_len: int, ops: Seq<MyersOp>, i: int, j: int)
    requires
        myers_covers(old_len, new_len, ops, i, j),
    ensures
        forall|k: int| 0 <= k < ops.len() ==> myers_op_in_bounds(#[trigger] ops[k], old_len, new_len),
    decreases ops.len(),
{
    if ops.len() > 0 {
        let rest = ops.drop_first();
        match ops[0] {
            MyersOp::Equal { old_index, new_index, len } => {
                lemma_myers_covers_ends(old_len, new_len, rest, i + len, j + len);
                lemma_myers_in_bounds(old_len, new_len, rest, i + len, j + len);
            },
            MyersOp::Delete { old_index, old_len: n, new_index } => {
                lemma_myers_covers_ends(old_len, new_len, rest, i + n, j);
                lemma_myers_in_bounds(old_len, new_len, rest, i + n, j);
            },
            MyersOp::Insert { old_index, new_index, new_len: n } => {
                lemma_myers_covers_ends(old_len, new_len, rest, i, j + n);
                lemma_myers_in_bounds(old_len, new_len, rest, i, j + n);
            },
            MyersOp::Replace { old_index, old_len: n, new_index, new_len: m } => {
                lemma_myers_covers_ends(old_len, new_len, rest, i + n, j + m);
                lemma_myers_in_bounds(old_len, new_len, rest, i + n, j + m);
            },
        }
        assert forall|k: int| 0 <= k < ops.len() implies myers_op_in_bounds(#[trigger] ops[k], old_len, new_len) by {
            if k > 0 {
                assert(ops[k] == rest[k - 1]);
            }
        }
    }
}

} // verus!
