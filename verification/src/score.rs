//! Subsequence scoring.
//!
//! A normalized query matches a candidate's normalized text when the query's
//! characters occur in the text in order, not necessarily adjacent. The scan
//! is greedy: a cursor walks the text, and each query character is matched
//! at its first occurrence at or after the cursor. The score of a match is
//! the number of unmatched characters standing strictly between consecutive
//! matched positions; 0 means the query was found contiguously at the first
//! occurrence of its first character.

use vstd::prelude::*;

verus! {

/// The position of the first occurrence of `c` in `t` at or after `from`,
/// if any.
pub open spec fn first_hit(t: Seq<char>, c: char, from: int) -> Option<int>
    decreases t.len() - from,
{
    if from < 0 || from >= t.len() {
        None
    } else if t[from] == c {
        Some(from)
    } else {
        first_hit(t, c, from + 1)
    }
}

/// Greedy scan of all of `q` against `t` starting at cursor `from`; each
/// matched character contributes the distance from the cursor to its
/// matched position. `None` when some character has no occurrence left.
pub open spec fn gap_sum(q: Seq<char>, t: Seq<char>, from: int) -> Option<int>
    decreases q.len(),
{
    if q.len() == 0 {
        Some(0)
    } else {
        match first_hit(t, q[0], from) {
            None => None,
            Some(p) => match gap_sum(q.drop_first(), t, p + 1) {
                None => None,
                Some(rest) => Some(p - from + rest),
            },
        }
    }
}

/// The score of query `q` against text `t`: `None` when `q` is not found
/// as a subsequence by the greedy scan; otherwise the sum of the gaps
/// between consecutive matched positions (the first matched character
/// contributes no gap). The empty query scores 0 against every text.
pub open spec fn match_score(q: Seq<char>, t: Seq<char>) -> Option<int> {
    if q.len() == 0 {
        Some(0)
    } else {
        match first_hit(t, q[0], 0) {
            None => None,
            Some(p) => gap_sum(q.drop_first(), t, p + 1),
        }
    }
}

/// Whether `q` occurs as a subsequence of `t` using only positions at or
/// after `from`.
pub open spec fn subseq_from(q: Seq<char>, t: Seq<char>, from: int) -> bool
    decreases t.len() - from, q.len(),
{
    if q.len() == 0 {
        true
    } else if from < 0 || from >= t.len() {
        false
    } else if t[from] == q[0] && subseq_from(q.drop_first(), t, from + 1) {
        true
    } else {
        subseq_from(q, t, from + 1)
    }
}

/// Whether `q` occurs as a subsequence of `t`: every character of `q` can
/// be found in `t`, in order, not necessarily adjacent.
pub open spec fn is_subsequence(q: Seq<char>, t: Seq<char>) -> bool {
    subseq_from(q, t, 0)
}

/// Whether `q` occurs as a contiguous substring of `t` starting at
/// position `p`.
pub open spec fn occurs_at(q: Seq<char>, t: Seq<char>, p: int) -> bool {
    &&& 0 <= p
    &&& p + q.len() <= t.len()
    &&& forall|i: int| 0 <= i < q.len() ==> #[trigger] t.index(p + i) == q[i]
}

proof fn lemma_first_hit_bounds(t: Seq<char>, c: char, from: int)
    ensures
        first_hit(t, c, from) matches Some(p) ==> from <= p < t.len() && t[p] == c && forall|j: int|
            from <= j < p ==> t[j] != c,
    decreases t.len() - from,
{
    if from < 0 || from >= t.len() {
    } else if t[from] == c {
    } else {
        lemma_first_hit_bounds(t, c, from + 1);
    }
}

proof fn lemma_subseq_mono(q: Seq<char>, t: Seq<char>, i: int, j: int)
    requires
        0 <= i <= j,
        subseq_from(q, t, j),
    ensures
        subseq_from(q, t, i),
    decreases j - i,
{
    if i < j {
        if q.len() == 0 {
        } else {
            assert(subseq_from(q, t, j - 1));
        }
        lemma_subseq_mono(q, t, i, j - 1);
    }
}

proof fn lemma_greedy_sound(q: Seq<char>, t: Seq<char>, from: int)
    requires
        gap_sum(q, t, from) is Some,
    ensures
        subseq_from(q, t, from),
    decreases q.len(),
{
    if q.len() > 0 {
        let p = first_hit(t, q[0], from).unwrap();
        lemma_first_hit_bounds(t, q[0], from);
        lemma_greedy_sound(q.drop_first(), t, p + 1);
        if p > from {
            assert(subseq_from(q.drop_first(), t, p + 1));
            assert(t[p] == q[0]);
            assert(subseq_from(q, t, p));
            lemma_subseq_mono(q, t, from, p);
        }
    }
}

proof fn lemma_greedy_complete(q: Seq<char>, t: Seq<char>, from: int)
    requires
        subseq_from(q, t, from),
    ensures
        gap_sum(q, t, from) is Some,
    decreases q.len(), t.len() - from,
{
    if q.len() > 0 {
        if from < 0 || from >= t.len() {
        } else if t[from] == q[0] && subseq_from(q.drop_first(), t, from + 1) {
            assert(first_hit(t, q[0], from) == Some(from));
            lemma_greedy_complete(q.drop_first(), t, from + 1);
        } else {
            assert(subseq_from(q, t, from + 1));
            lemma_greedy_complete(q, t, from + 1);
            let p = first_hit(t, q[0], from + 1).unwrap();
            lemma_first_hit_bounds(t, q[0], from + 1);
            if t[from] == q[0] {
                assert(first_hit(t, q[0], from) == Some(from));
                assert(gap_sum(q.drop_first(), t, p + 1) is Some);
                lemma_greedy_sound(q.drop_first(), t, p + 1);
                lemma_subseq_mono(q.drop_first(), t, from + 1, p + 1);
                lemma_greedy_complete(q.drop_first(), t, from + 1);
            } else {
                assert(first_hit(t, q[0], from) == first_hit(t, q[0], from + 1));
            }
        }
    }
}

/// Subsequence necessity: the greedy scan produces a score exactly when
/// the query is a subsequence of the text.
pub proof fn lemma_match_iff_subsequence(q: Seq<char>, t: Seq<char>)
    ensures
        match_score(q, t) is Some <==> is_subsequence(q, t),
{
    if q.len() == 0 {
    } else {
        if match_score(q, t) is Some {
            let p = first_hit(t, q[0], 0).unwrap();
            lemma_first_hit_bounds(t, q[0], 0);
            lemma_greedy_sound(q.drop_first(), t, p + 1);
            assert(subseq_from(q, t, p));
            lemma_subseq_mono(q, t, 0, p);
        }
        if is_subsequence(q, t) {
            lemma_greedy_complete(q, t, 0);
            let p0 = first_hit(t, q[0], 0).unwrap();
            assert(gap_sum(q.drop_first(), t, p0 + 1) is Some);
        }
    }
}

proof fn lemma_gap_sum_exact(q: Seq<char>, t: Seq<char>, from: int)
    requires
        0 <= from,
        from + q.len() <= t.len(),
        forall|i: int| 0 <= i < q.len() ==> t[from + i] == #[trigger] q[i],
    ensures
        gap_sum(q, t, from) == Some(0int),
    decreases q.len(),
{
    if q.len() > 0 {
        assert(t[from] == q[0]);
        assert(first_hit(t, q[0], from) == Some(from));
        assert(forall|i: int|
            0 <= i < q.drop_first().len() ==> t[from + 1 + i] == #[trigger] q.drop_first()[i]);
        lemma_gap_sum_exact(q.drop_first(), t, from + 1);
    }
}

/// Contiguous occurrence at the first viable position scores zero: if the
/// query occurs as a contiguous substring of the text starting at the
/// first occurrence of the query's first character, its score is exactly
/// 0. (An earlier stray occurrence of the first character can pull the
/// greedy scan away from a later contiguous occurrence, so the
/// first-occurrence condition cannot be dropped.)
pub proof fn lemma_contiguous_substring_zero(q: Seq<char>, t: Seq<char>, p: int)
    requires
        q.len() > 0,
        occurs_at(q, t, p),
        forall|j: int| 0 <= j < p ==> t[j] != q[0],
    ensures
        match_score(q, t) == Some(0int),
{
    assert(t.index(p + 0) == q[0]);
    lemma_first_hit_exact(t, q[0], 0, p);
    assert forall|i: int| 0 <= i < q.drop_first().len() implies t.index(p + 1 + i) == #[trigger] q
        .drop_first()[i] by {
        assert(t.index(p + (i + 1)) == q[i + 1]);
    }
    lemma_gap_sum_exact(q.drop_first(), t, p + 1);
}

proof fn lemma_gap_sum_nonneg(q: Seq<char>, t: Seq<char>, from: int)
    ensures
        gap_sum(q, t, from) matches Some(s) ==> 0 <= s,
    decreases q.len(),
{
    if q.len() > 0 {
        lemma_first_hit_bounds(t, q[0], from);
        if first_hit(t, q[0], from) is Some {
            let p = first_hit(t, q[0], from).unwrap();
            lemma_gap_sum_nonneg(q.drop_first(), t, p + 1);
        }
    }
}

proof fn lemma_gap_sum_zero_contig(q: Seq<char>, t: Seq<char>, from: int)
    requires
        0 <= from <= t.len(),
        gap_sum(q, t, from) == Some(0int),
    ensures
        from + q.len() <= t.len(),
        forall|i: int| 0 <= i < q.len() ==> t[from + i] == #[trigger] q[i],
    decreases q.len(),
{
    if q.len() > 0 {
        let p = first_hit(t, q[0], from).unwrap();
        lemma_first_hit_bounds(t, q[0], from);
        lemma_gap_sum_nonneg(q.drop_first(), t, p + 1);
        assert(p == from);
        assert(gap_sum(q.drop_first(), t, from + 1) == Some(0int));
        lemma_gap_sum_zero_contig(q.drop_first(), t, from + 1);
        assert forall|i: int| 0 <= i < q.len() implies t[from + i] == #[trigger] q[i] by {
            if i > 0 {
                assert(t[from + 1 + (i - 1)] == q.drop_first()[i - 1]);
            }
        }
    }
}

/// A zero score means the query occurs as a contiguous substring of the
/// text.
pub proof fn lemma_zero_score_is_contiguous(q: Seq<char>, t: Seq<char>)
    requires
        q.len() > 0,
        match_score(q, t) == Some(0int),
    ensures
        exists|p: int| #[trigger] occurs_at(q, t, p),
{
    let p0 = first_hit(t, q[0], 0).unwrap();
    lemma_first_hit_bounds(t, q[0], 0);
    lemma_gap_sum_zero_contig(q.drop_first(), t, p0 + 1);
    assert(occurs_at(q, t, p0)) by {
        assert forall|i: int| 0 <= i < q.len() implies #[trigger] t.index(p0 + i) == q[i] by {
            if i > 0 {
                assert(t[p0 + 1 + (i - 1)] == q.drop_first()[i - 1]);
            }
        }
    }
}

proof fn lemma_first_hit_exact(t: Seq<char>, c: char, from: int, p: int)
    requires
        0 <= from <= p < t.len(),
        t[p] == c,
        forall|j: int| from <= j < p ==> t[j] != c,
    ensures
        first_hit(t, c, from) == Some(p),
    decreases p - from,
{
    if from < p {
        lemma_first_hit_exact(t, c, from + 1, p);
    }
}

/// Score the candidate text `t` against the normalized query `nq`:
/// `None` when the query is not a subsequence of `t`, otherwise the gap
/// sum of the greedy scan.
pub fn score_candidate(nq: &Vec<char>, t: &[char]) -> (r: Option<usize>)
    ensures
        r is Some <==> match_score(nq@, t@) is Some,
        r matches Some(d) ==> match_score(nq@, t@) == Some(d as int),
{
    let qn = nq.len();
    let tn = t.len();
    if qn == 0 {
        return Some(0);
    }
    // First query character: find its first occurrence; it contributes no
    // gap.
    let first = match scan_for(t, nq[0], 0) {
        Some(p) => p,
        None => {
            return None;
        },
    };
    let mut cursor: usize = first + 1;
    let mut dist: usize = 0;
    let mut qi: usize = 1;
    proof {
        assert(nq@.skip(0).drop_first() =~= nq@.skip(1));
        assert(nq@.skip(0) =~= nq@);
    }
    while qi < qn
        invariant
            qn == nq@.len(),
            tn == t@.len(),
            1 <= qi <= qn,
            dist < cursor <= tn + 1,
            cursor <= tn || qi == qn,
            match_score(nq@, t@) == (match gap_sum(nq@.skip(qi as int), t@, cursor as int) {
                Some(rest) => Some(dist + rest),
                None => None::<int>,
            }),
        decreases qn - qi,
    {
        let p = match scan_for(t, nq[qi], cursor) {
            Some(p) => p,
            None => {
                proof {
                    assert(nq@.skip(qi as int)[0] == nq@[qi as int]);
                }
                return None;
            },
        };
        proof {
            assert(nq@.skip(qi as int)[0] == nq@[qi as int]);
            assert(nq@.skip(qi as int).drop_first() =~= nq@.skip(qi as int + 1));
        }
        dist = dist + (p - cursor);
        cursor = p + 1;
        qi = qi + 1;
    }
    proof {
        assert(nq@.skip(qn as int) =~= Seq::<char>::empty());
        assert(gap_sum(nq@.skip(qn as int), t@, cursor as int) == Some(0int));
    }
    Some(dist)
}

/// Find the first occurrence of `c` in `t` at or after `from`.
fn scan_for(t: &[char], c: char, from: usize) -> (r: Option<usize>)
    ensures
        r matches Some(p) ==> first_hit(t@, c, from as int) == Some(p as int) && from <= p
            < t@.len(),
        r is None ==> first_hit(t@, c, from as int) is None,
{
    let tn = t.len();
    let mut i: usize = from;
    while i < tn
        invariant
            from <= i,
            tn == t@.len(),
            first_hit(t@, c, from as int) == first_hit(t@, c, i as int),
        decreases tn - i,
    {
        if *vstd::slice::slice_index_get(t, i) == c {
            return Some(i);
        }
        i = i + 1;
    }
    None
}

} // verus!
