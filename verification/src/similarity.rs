//! Text similarity between blocks: bounded Levenshtein distance for short
//! texts, word overlap for long ones.
//!
//! Scores are exact fractions. Short texts score the normalized edit
//! distance, one minus the distance over the longer length.

use vstd::multiset::Multiset;
use vstd::prelude::*;

use crate::text::{chars_of, is_white_space, is_whitespace, push_char};

verus! {

// ---------------------------------------------------------------------------
// Levenshtein distance
// ---------------------------------------------------------------------------

pub open spec fn min2(x: nat, y: nat) -> nat {
    if x <= y { x } else { y }
}

/// The edit distance between the first `i` characters of `a` and the first
/// `j` characters of `b`, in the recurrence that the row computation uses.
pub open spec fn lev(a: Seq<char>, b: Seq<char>, i: nat, j: nat) -> nat
    decreases i + j,
{
    if i == 0 {
        j
    } else if j == 0 {
        i
    } else if a[i - 1] == b[j - 1] {
        lev(a, b, (i - 1) as nat, (j - 1) as nat)
    } else {
        1 + min2(min2(lev(a, b, (i - 1) as nat, j), lev(a, b, i, (j - 1) as nat)), lev(a, b, (i - 1) as nat, (j - 1) as nat))
    }
}

/// The edit distance between `a` and `b`.
pub open spec fn edit_distance(a: Seq<char>, b: Seq<char>) -> nat {
    lev(a, b, a.len(), b.len())
}

/// The edit distance when it is at most `limit`.
pub open spec fn limited_distance(a: Seq<char>, b: Seq<char>, limit: nat) -> Option<nat> {
    if edit_distance(a, b) <= limit {
        Some(edit_distance(a, b))
    } else {
        None
    }
}

pub open spec fn abs_diff(x: int, y: int) -> int {
    if x >= y { x - y } else { y - x }
}

/// An edit distance is at least the difference of the lengths and at most the larger length.
pub proof fn lemma_lev_bounds(a: Seq<char>, b: Seq<char>, i: nat, j: nat)
    ensures
        lev(a, b, i, j) >= abs_diff(i as int, j as int),
        lev(a, b, i, j) <= if i >= j { i } else { j },
    decreases i + j,
{
    if i > 0 && j > 0 {
        lemma_lev_bounds(a, b, (i - 1) as nat, (j - 1) as nat);
        lemma_lev_bounds(a, b, (i - 1) as nat, j);
        lemma_lev_bounds(a, b, i, (j - 1) as nat);
    }
}

/// Every entry of row `i` is at least `r`.
pub open spec fn row_at_least(a: Seq<char>, b: Seq<char>, i: nat, r: nat) -> bool {
    forall|j: nat| j <= b.len() ==> #[trigger] lev(a, b, i, j) >= r
}

proof fn lemma_next_row_at_least(a: Seq<char>, b: Seq<char>, i: nat, r: nat, j: nat)
    requires
        i < a.len(),
        row_at_least(a, b, i, r),
        j <= b.len(),
    ensures
        lev(a, b, i + 1, j) >= r,
    decreases j,
{
    if j == 0 {
        assert(lev(a, b, i, 0) >= r);
    } else {
        lemma_next_row_at_least(a, b, i, r, (j - 1) as nat);
        assert(lev(a, b, i, (j - 1) as nat) >= r);
        assert(lev(a, b, i, j) >= r);
    }
}

/// Rows never drop below an earlier row's minimum.
pub proof fn lemma_rows_at_least(a: Seq<char>, b: Seq<char>, i: nat, k: nat, r: nat)
    requires
        i <= k <= a.len(),
        row_at_least(a, b, i, r),
    ensures
        row_at_least(a, b, k, r),
    decreases k - i,
{
    if i < k {
        assert forall|j: nat| j <= b.len() implies #[trigger] lev(a, b, i + 1, j) >= r by {
            lemma_next_row_at_least(a, b, i, r, j);
        }
        lemma_rows_at_least(a, b, i + 1, k, r);
    }
}

fn min_usize(x: usize, y: usize) -> (m: usize)
    ensures
        m == min2(x as nat, y as nat),
{
    if x <= y { x } else { y }
}

/// The Levenshtein distance between `a` and `b` if it is at most
/// `max_distance`, else `None`.
pub fn edit_distance_with_limit(a: &str, b: &str, max_distance: usize) -> (d: Option<usize>)
    requires
        a@.len() < usize::MAX,
        b@.len() < usize::MAX,
    ensures
        edit_distance(a@, b@) <= max_distance ==> d == Some(edit_distance(a@, b@) as usize),
        edit_distance(a@, b@) > max_distance ==> d is None,
        (match d {
            Some(x) => Some(x as nat),
            None => None,
        }) == limited_distance(a@, b@, max_distance as nat),
{
    let ghost av = a@;
    let ghost bv = b@;
    let ac = chars_of(a);
    let bc = chars_of(b);
    let m = ac.len();
    let n = bc.len();
    let diff = if m >= n { m - n } else { n - m };
    if diff > max_distance {
        proof {
            lemma_lev_bounds(av, bv, m as nat, n as nat);
        }
        return None;
    }
    let mut prev: Vec<usize> = Vec::new();
    let mut j: usize = 0;
    while j <= n
        invariant
            n == bv.len(),
            n < usize::MAX,
            j <= n + 1,
            prev@.len() == j,
            forall|jj: int| 0 <= jj < j ==> #[trigger] prev@[jj] == lev(av, bv, 0, jj as nat),
        decreases n + 1 - j,
    {
        prev.push(j);
        j += 1;
    }
    let mut curr: Vec<usize> = Vec::new();
    let mut c: usize = 0;
    while c <= n
        invariant
            curr@.len() == c,
            n < usize::MAX,
            c <= n + 1,
        decreases n + 1 - c,
    {
        curr.push(0);
        c += 1;
    }
    let mut i: usize = 1;
    while i <= m
        invariant
            m == av.len(),
            n == bv.len(),
            m < usize::MAX,
            n < usize::MAX,
            av == a@,
            bv == b@,
            ac@ == av,
            bc@ == bv,
            1 <= i <= m + 1,
            prev@.len() == n + 1,
            curr@.len() == n + 1,
            forall|jj: int| 0 <= jj <= n ==> #[trigger] prev@[jj] == lev(av, bv, (i - 1) as nat, jj as nat),
        decreases m + 1 - i,
    {
        curr.set(0, i);
        let mut row_min = i;
        let mut j: usize = 1;
        while j <= n
            invariant
                m == av.len(),
                n == bv.len(),
                n < usize::MAX,
                av == a@,
                bv == b@,
                ac@ == av,
                bc@ == bv,
                1 <= i <= m,
                1 <= j <= n + 1,
                prev@.len() == n + 1,
                curr@.len() == n + 1,
                forall|jj: int| 0 <= jj <= n ==> #[trigger] prev@[jj] == lev(av, bv, (i - 1) as nat, jj as nat),
                forall|jj: int| 0 <= jj < j ==> #[trigger] curr@[jj] == lev(av, bv, i as nat, jj as nat),
                forall|jj: int| 0 <= jj < j ==> row_min <= #[trigger] lev(av, bv, i as nat, jj as nat),
            decreases n + 1 - j,
        {
            proof {
                lemma_lev_bounds(av, bv, (i - 1) as nat, (j - 1) as nat);
                lemma_lev_bounds(av, bv, i as nat, j as nat);
            }
            let value = if ac[i - 1] == bc[j - 1] {
                prev[j - 1]
            } else {
                1 + min_usize(min_usize(prev[j], curr[j - 1]), prev[j - 1])
            };
            assert(value == lev(av, bv, i as nat, j as nat));
            curr.set(j, value);
            if value < row_min {
                row_min = value;
            }
            j += 1;
        }
        assert(j == n + 1);
        if row_min > max_distance {
            proof {
                assert forall|jj: nat| jj <= bv.len() implies #[trigger] lev(av, bv, i as nat, jj) >= (max_distance + 1) as nat by {
                    let jji = jj as int;
                    assert(0 <= jji < j);
                    assert(row_min <= lev(av, bv, i as nat, jji as nat));
                }
                lemma_rows_at_least(av, bv, i as nat, m as nat, (max_distance + 1) as nat);
                assert(lev(av, bv, m as nat, n as nat) >= max_distance + 1);
            }
            return None;
        }
        std::mem::swap(&mut prev, &mut curr);
        i += 1;
    }
    let distance = prev[n];
    assert(distance == lev(av, bv, m as nat, n as nat));
    if distance <= max_distance {
        Some(distance)
    } else {
        None
    }
}


// ---------------------------------------------------------------------------
// Scores
// ---------------------------------------------------------------------------

/// A similarity score: the fraction `num / den`.
#[derive(Clone, Copy, Debug, PartialEq, Eq, Structural)]
pub struct Similarity {
    pub num: usize,
    pub den: usize,
}

/// The length of a text that a Rust string can hold: at most `isize::MAX`.
pub open spec fn text_fits(cs: Seq<char>) -> bool {
    cs.len() <= isize::MAX
}

impl Similarity {
    /// A score in `[0, 1]` with a positive denominator.
    pub open spec fn wf(self) -> bool {
        0 < self.den && self.num <= self.den
    }

    /// `self <= other`, comparing the fractions.
    pub open spec fn spec_not_above(self, other: Similarity) -> bool {
        self.num * other.den <= other.num * self.den
    }

    /// The score reaches the pairing threshold `3 / 10`.
    pub open spec fn spec_reaches_threshold(self) -> bool {
        10 * self.num >= 3 * self.den
    }

    /// Whether `self <= other` as fractions.
    pub fn not_above(&self, other: &Similarity) -> (b: bool)
        ensures
            b == self.spec_not_above(*other),
    {
        let a = self.num as u128;
        let d = other.den as u128;
        let c = other.num as u128;
        let e = self.den as u128;
        assert(a * d <= u128::MAX && c * e <= u128::MAX) by (nonlinear_arith)
            requires
                a <= u64::MAX,
                d <= u64::MAX,
                c <= u64::MAX,
                e <= u64::MAX,
        ;
        a * d <= c * e
    }

    /// Whether the score reaches the pairing threshold `3 / 10`.
    pub fn reaches_threshold(&self) -> (b: bool)
        ensures
            b == self.spec_reaches_threshold(),
    {
        10 * (self.num as u128) >= 3 * (self.den as u128)
    }
}

// ---------------------------------------------------------------------------
// Words
// ---------------------------------------------------------------------------

/// The words of a text, as `str::split_whitespace` yields them: the maximal
/// runs of characters that are not white space, in order.
pub open spec fn words(cs: Seq<char>) -> Seq<Seq<char>>
    decreases cs.len(),
{
    if cs.len() == 0 {
        Seq::empty()
    } else {
        let init = words(cs.drop_last());
        let c = cs.last();
        if is_white_space(c) {
            init
        } else if cs.len() >= 2 && !is_white_space(cs[cs.len() - 2]) {
            init.drop_last().push(init.last().push(c))
        } else {
            init.push(seq![c])
        }
    }
}

/// The character sequences of a sequence of strings.
pub open spec fn string_views(v: Seq<String>) -> Seq<Seq<char>> {
    v.map_values(|s: String| s@)
}

/// The words of a text.
pub fn split_words(text: &str) -> (ws: Vec<String>)
    ensures
        string_views(ws@) == words(text@),
{
    let mut done: Vec<String> = Vec::new();
    let mut cur = String::new();
    let mut in_word = false;
    for c in it: text.chars()
        invariant
            it.seq() == text@,
            in_word == (it.index() > 0 && !is_white_space(it.seq()[it.index() - 1])),
            in_word ==> string_views(done@).push(cur@) == words(it.seq().take(it.index() as int)),
            !in_word ==> string_views(done@) == words(it.seq().take(it.index() as int)),
            !in_word ==> cur@.len() == 0,
    {
        let ghost before = it.seq().take(it.index() as int);
        let ghost after = it.seq().take(it.index() + 1);
        proof {
            assert(after.drop_last() =~= before);
            assert(after.last() == c);
        }
        if is_whitespace(c) {
            if in_word {
                let ghost dv = string_views(done@);
                let ghost cv = cur@;
                done.push(cur);
                cur = String::new();
                assert(string_views(done@) =~= dv.push(cv));
            }
            in_word = false;
        } else {
            let ghost dv = string_views(done@);
            let ghost cv = cur@;
            push_char(&mut cur, c);
            proof {
                if in_word {
                    assert(before.len() >= 1);
                    assert(after[after.len() - 2] == before.last());
                    assert(words(before) == dv.push(cv));
                    assert(dv.push(cv).drop_last() =~= dv);
                    assert(string_views(done@).push(cur@) =~= dv.push(cv.push(c)));
                } else {
                    assert(before.len() == 0 || is_white_space(before.last()));
                    if before.len() >= 1 {
                        assert(after[after.len() - 2] == before.last());
                    }
                    assert(cur@ =~= seq![c]);
                    assert(string_views(done@).push(cur@) =~= dv.push(seq![c]));
                }
            }
            in_word = true;
        }
    }
    if in_word {
        let ghost dv = string_views(done@);
        let ghost cv = cur@;
        done.push(cur);
        assert(string_views(done@) =~= dv.push(cv));
    }
    assert(text@.take(text@.len() as int) =~= text@);
    done
}


// ---------------------------------------------------------------------------
// Word overlap
// ---------------------------------------------------------------------------

/// The number of words of `ws` matched against `pool`, each word of `ws` in
/// turn taking away one equal word of the pool while one is left.
pub open spec fn consume_overlap(pool: Seq<Seq<char>>, ws: Seq<Seq<char>>) -> nat
    decreases ws.len(),
{
    if ws.len() == 0 {
        0
    } else if pool.contains(ws[0]) {
        1 + consume_overlap(pool.remove_value(ws[0]), ws.drop_first())
    } else {
        consume_overlap(pool, ws.drop_first())
    }
}

/// The overlap counts at most the words of either side.
pub proof fn lemma_overlap_bounds(pool: Seq<Seq<char>>, ws: Seq<Seq<char>>)
    ensures
        consume_overlap(pool, ws) <= ws.len(),
        consume_overlap(pool, ws) <= pool.len(),
    decreases ws.len(),
{
    if ws.len() > 0 {
        if pool.contains(ws[0]) {
            pool.index_of_first_ensures(ws[0]);
            lemma_overlap_bounds(pool.remove_value(ws[0]), ws.drop_first());
        } else {
            lemma_overlap_bounds(pool, ws.drop_first());
        }
    }
}

/// The Sørensen–Dice score of the two word lists: twice the overlap over the
/// total word count, 1 when both are empty and 0 when only one is.
pub open spec fn word_overlap_spec(a: Seq<char>, b: Seq<char>) -> Similarity {
    let la = words(a).len();
    let lb = words(b).len();
    if la == 0 && lb == 0 {
        Similarity { num: 1, den: 1 }
    } else if la == 0 || lb == 0 {
        Similarity { num: 0, den: 1 }
    } else {
        Similarity {
            num: (2 * consume_overlap(words(a), words(b))) as usize,
            den: (la + lb) as usize,
        }
    }
}

proof fn lemma_words_len(cs: Seq<char>)
    ensures
        words(cs).len() <= cs.len(),
    decreases cs.len(),
{
    if cs.len() > 0 {
        lemma_words_len(cs.drop_last());
    }
}

/// Finds the first word of `pool` equal to `w`.
fn find_word(pool: &Vec<String>, w: &String) -> (found: Option<usize>)
    ensures
        match found {
            Some(i) => i < pool@.len() && string_views(pool@).index_of_first(w@) == Some(i as int),
            None => !string_views(pool@).contains(w@),
        },
{
    let ghost pv = string_views(pool@);
    let mut i: usize = 0;
    while i < pool.len()
        invariant
            i <= pool@.len(),
            pv == string_views(pool@),
            forall|j: int| 0 <= j < i ==> pv[j] != w@,
        decreases pool@.len() - i,
    {
        if pool[i] == *w {
            proof {
                pv.index_of_first_ensures(w@);
                assert(pv[i as int] == w@);
                assert(pv.contains(w@));
                let k = pv.index_of_first(w@).unwrap();
                if k < i {
                    assert(pv[k] != w@);
                }
                if k > i {
                    assert(pv[i as int] != w@);
                }
            }
            return Some(i);
        }
        i += 1;
    }
    proof {
        if pv.contains(w@) {
            let k = choose|k: int| 0 <= k < pv.len() && pv[k] == w@;
            assert(pv[k] != w@);
        }
    }
    None
}

/// Word-overlap similarity of two texts.
pub fn word_overlap_similarity(a: &str, b: &str) -> (s: Similarity)
    requires
        text_fits(a@),
        text_fits(b@),
    ensures
        s == word_overlap_spec(a@, b@),
        s.wf(),
{
    let mut pool = split_words(a);
    let bws = split_words(b);
    let a_len = pool.len();
    let b_len = bws.len();
    let ghost wa = words(a@);
    let ghost wb = words(b@);
    proof {
        lemma_words_len(a@);
        lemma_words_len(b@);
        assert(string_views(pool@).len() == pool@.len());
        assert(string_views(bws@).len() == bws@.len());
        assert(wb.subrange(0, wb.len() as int) =~= wb);
    }
    let mut overlap: usize = 0;
    let mut k: usize = 0;
    while k < bws.len()
        invariant
            string_views(bws@) == wb,
            k <= bws@.len(),
            overlap <= k,
            overlap + consume_overlap(string_views(pool@), wb.subrange(k as int, wb.len() as int))
                == consume_overlap(wa, wb),
        decreases bws@.len() - k,
    {
        let ghost pv = string_views(pool@);
        let ghost rest = wb.subrange(k as int, wb.len() as int);
        assert(rest[0] == bws@[k as int]@);
        assert(rest.drop_first() =~= wb.subrange(k + 1, wb.len() as int));
        match find_word(&pool, &bws[k]) {
            Some(i) => {
                pool.remove(i);
                proof {
                    pv.index_of_first_ensures(bws@[k as int]@);
                    assert(string_views(pool@) =~= pv.remove_value(bws@[k as int]@));
                }
                overlap += 1;
            },
            None => {},
        }
        k += 1;
    }
    proof {
        assert(wb.subrange(wb.len() as int, wb.len() as int) =~= Seq::<Seq<char>>::empty());
        lemma_overlap_bounds(wa, wb);
    }
    if a_len == 0 && b_len == 0 {
        Similarity { num: 1, den: 1 }
    } else if a_len == 0 || b_len == 0 {
        Similarity { num: 0, den: 1 }
    } else {
        Similarity { num: 2 * overlap, den: a_len + b_len }
    }
}

// ---------------------------------------------------------------------------
// Similarity
// ---------------------------------------------------------------------------

/// The similarity of two texts: 1 when both are empty; word overlap when the
/// longer one has more than 2000 characters; else the normalized edit
/// distance, one minus the edit distance over the longer length.
pub open spec fn similarity_spec(a: Seq<char>, b: Seq<char>) -> Similarity {
    let m = if a.len() >= b.len() { a.len() } else { b.len() };
    if m == 0 {
        Similarity { num: 1, den: 1 }
    } else if m > 2000 {
        word_overlap_spec(a, b)
    } else {
        Similarity { num: (m - edit_distance(a, b)) as usize, den: m as usize }
    }
}

/// A similarity score in `[0, 1]` between two plain texts.
pub fn similarity(a: &str, b: &str) -> (s: Similarity)
    requires
        text_fits(a@),
        text_fits(b@),
    ensures
        s == similarity_spec(a@, b@),
        s.wf(),
{
    let la = a.unicode_len();
    let lb = b.unicode_len();
    if la == 0 && lb == 0 {
        return Similarity { num: 1, den: 1 };
    }
    let max_len = if la >= lb { la } else { lb };
    if max_len > 2000 {
        return word_overlap_similarity(a, b);
    }
    proof {
        lemma_lev_bounds(a@, b@, a@.len(), b@.len());
    }
    match edit_distance_with_limit(a, b, max_len) {
        Some(distance) => Similarity { num: max_len - distance, den: max_len },
        None => Similarity { num: 0, den: 1 },
    }
}


// ---------------------------------------------------------------------------
// Laws of similarity
// ---------------------------------------------------------------------------

/// The edit distance does not depend on the order of the two texts.
pub proof fn lemma_lev_symmetric(a: Seq<char>, b: Seq<char>, i: nat, j: nat)
    ensures
        lev(a, b, i, j) == lev(b, a, j, i),
    decreases i + j,
{
    if i > 0 && j > 0 {
        lemma_lev_symmetric(a, b, (i - 1) as nat, (j - 1) as nat);
        lemma_lev_symmetric(a, b, (i - 1) as nat, j);
        lemma_lev_symmetric(a, b, i, (j - 1) as nat);
    }
}

/// A text is at distance zero from itself.
pub proof fn lemma_lev_same(a: Seq<char>, i: nat)
    ensures
        lev(a, a, i, i) == 0,
    decreases i,
{
    if i > 0 {
        lemma_lev_same(a, (i - 1) as nat);
    }
}

/// The word overlap counts the words the two lists share: the size of the
/// intersection of their multisets.
pub proof fn lemma_overlap_is_intersection(pool: Seq<Seq<char>>, ws: Seq<Seq<char>>)
    ensures
        consume_overlap(pool, ws) == pool.to_multiset().intersection_with(ws.to_multiset()).len(),
    decreases ws.len(),
{
    broadcast use vstd::seq_lib::group_to_multiset_ensures;
    broadcast use vstd::multiset::group_multiset_axioms;
    broadcast use vstd::multiset::group_multiset_properties;

    let pm = pool.to_multiset();
    let wm = ws.to_multiset();
    if ws.len() == 0 {
        assert(wm =~= Multiset::<Seq<char>>::empty());
        assert(pm.intersection_with(wm) =~= Multiset::<Seq<char>>::empty());
    } else {
        let w = ws[0];
        let rest = ws.drop_first();
        assert(ws.remove(0) =~= rest);
        let rm = rest.to_multiset();
        assert(rm =~= wm.remove(w));
        assert(wm.count(w) > 0) by {
            assert(ws.contains(w)) by {
                assert(ws[0] == w);
            }
        }
        if pool.contains(w) {
            pool.index_of_first_ensures(w);
            let i = pool.index_of_first(w).unwrap();
            assert(pool.remove_value(w) == pool.remove(i));
            let pm2 = pool.remove_value(w).to_multiset();
            assert(pm2 =~= pm.remove(w));
            lemma_overlap_is_intersection(pool.remove_value(w), rest);
            assert(pm.count(w) > 0);
            assert(pm.intersection_with(wm) =~= pm2.intersection_with(rm).insert(w));
        } else {
            assert(pm.count(w) == 0);
            lemma_overlap_is_intersection(pool, rest);
            assert(pm.intersection_with(wm) =~= pm.intersection_with(rm));
        }
    }
}

/// The word overlap does not depend on the order of the two lists.
pub proof fn lemma_overlap_symmetric(a: Seq<Seq<char>>, b: Seq<Seq<char>>)
    ensures
        consume_overlap(a, b) == consume_overlap(b, a),
{
    broadcast use vstd::multiset::group_multiset_axioms;
    broadcast use vstd::multiset::group_multiset_properties;

    lemma_overlap_is_intersection(a, b);
    lemma_overlap_is_intersection(b, a);
    assert(a.to_multiset().intersection_with(b.to_multiset()) =~= b.to_multiset().intersection_with(
        a.to_multiset(),
    ));
}

/// Every word of a list overlaps with itself.
pub proof fn lemma_overlap_self(a: Seq<Seq<char>>)
    ensures
        consume_overlap(a, a) == a.len(),
{
    broadcast use vstd::seq_lib::group_to_multiset_ensures;
    broadcast use vstd::multiset::group_multiset_axioms;
    broadcast use vstd::multiset::group_multiset_properties;

    lemma_overlap_is_intersection(a, a);
    assert(a.to_multiset().intersection_with(a.to_multiset()) =~= a.to_multiset());
}

/// Similarity is symmetric: comparing `a` with `b` gives the same score as
/// comparing `b` with `a`.
pub proof fn law_similarity_symmetric(a: Seq<char>, b: Seq<char>)
    ensures
        similarity_spec(a, b) == similarity_spec(b, a),
{
    lemma_lev_symmetric(a, b, a.len(), b.len());
    lemma_overlap_symmetric(words(a), words(b));
}

/// A text is fully similar to itself: the score is one.
pub proof fn law_similarity_self(a: Seq<char>)
    requires
        text_fits(a),
    ensures
        similarity_spec(a, a).num == similarity_spec(a, a).den,
        similarity_spec(a, a).den > 0,
{
    lemma_lev_same(a, a.len());
    lemma_overlap_self(words(a));
    lemma_words_len(a);
}


/// The score of two texts that fit a Rust string is a fraction with a
/// positive denominator.
pub proof fn lemma_similarity_den_positive(a: Seq<char>, b: Seq<char>)
    requires
        text_fits(a),
        text_fits(b),
    ensures
        similarity_spec(a, b).den > 0,
{
    lemma_words_len(a);
    lemma_words_len(b);
}

/// The limited edit distance does not depend on the order of the texts, is
/// zero from a text to itself, and a distance found within one limit is found
/// alike within every limit at least as large: the limit only decides
/// whether the distance is reported, never its value.
pub proof fn law_limited_distance(a: Seq<char>, b: Seq<char>, limit: nat, other_limit: nat)
    ensures
        limited_distance(a, b, limit) == limited_distance(b, a, limit),
        limited_distance(a, a, limit) == Some(0nat),
        limited_distance(a, b, limit) matches Some(d) ==> d <= limit
            && (other_limit >= d ==> limited_distance(a, b, other_limit) == Some(d)),
{
    lemma_lev_symmetric(a, b, a.len(), b.len());
    lemma_lev_same(a, a.len());
}

} // verus!
