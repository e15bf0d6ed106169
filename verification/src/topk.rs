//! Bounded top-K selection over scored candidates.
//!
//! A candidate is a key `(score, index)`: its match score and its position
//! in the corpus. Keys are ordered lexicographically — lower score first,
//! and among equal scores the earlier corpus position — which makes the
//! best-K result of any candidate pool unique. [`is_topk`] characterizes
//! that result for the pool of all matching indices in a range;
//! [`is_topk_list`] does the same for an explicitly listed pool, which is
//! what a merge of per-shard results selects from. The lemmas here carry a
//! result across one more scanned candidate, across a shard merge, and to
//! uniqueness.

use vstd::prelude::*;

verus! {

/// Strict lexicographic order on `(score, index)` keys: lower score wins,
/// and among equal scores the lower (earlier) index wins.
pub open spec fn key_lt(a: (int, int), b: (int, int)) -> bool {
    a.0 < b.0 || (a.0 == b.0 && a.1 < b.1)
}

/// The smaller of two integers.
pub open spec fn int_min(a: int, b: int) -> int {
    if a <= b {
        a
    } else {
        b
    }
}

/// Keys strictly ascending: every earlier key is strictly below every
/// later one.
pub open spec fn sorted_keys(ks: Seq<(int, int)>) -> bool {
    forall|a: int, b: int| 0 <= a < b < ks.len() ==> key_lt(#[trigger] ks[a], #[trigger] ks[b])
}

/// Whether some key in `ks` carries candidate index `i`.
pub open spec fn has_index(ks: Seq<(int, int)>, i: int) -> bool {
    exists|j: int| 0 <= j < ks.len() && (#[trigger] ks[j]).1 == i
}

/// Whether `key` is a candidate of the pool: an index in `[lo, hi)` whose
/// score is present and equals the key's score.
pub open spec fn in_pool(scores: Seq<Option<int>>, lo: int, hi: int, key: (int, int)) -> bool {
    &&& lo <= key.1 < hi
    &&& 0 <= key.1 < scores.len()
    &&& scores[key.1] == Some(key.0)
}

/// How many indices in `[lo, hi)` carry a score.
pub open spec fn match_count(scores: Seq<Option<int>>, lo: int, hi: int) -> int
    decreases hi - lo,
{
    if lo >= hi {
        0
    } else {
        match_count(scores, lo, hi - 1) + if 0 <= hi - 1 < scores.len() && scores[hi - 1]
            is Some {
            1int
        } else {
            0int
        }
    }
}

/// `ks` is the best-K result over the pool of all scored indices in
/// `[lo, hi)`: strictly ascending keys, all drawn from the pool, as many
/// of them as the pool allows up to `k`, the whole pool when it fits, and
/// every rejected candidate strictly worse than every kept one.
pub open spec fn is_topk(
    ks: Seq<(int, int)>,
    scores: Seq<Option<int>>,
    lo: int,
    hi: int,
    k: int,
) -> bool {
    &&& sorted_keys(ks)
    &&& forall|j: int| 0 <= j < ks.len() ==> in_pool(scores, lo, hi, #[trigger] ks[j])
    &&& ks.len() == int_min(k, match_count(scores, lo, hi))
    &&& (match_count(scores, lo, hi) <= k ==> forall|i: int|
        lo <= i < hi && 0 <= i < scores.len() && (#[trigger] scores[i]) is Some ==> has_index(
            ks,
            i,
        ))
    &&& forall|i: int, j: int|
        lo <= i < hi && 0 <= i < scores.len() && (#[trigger] scores[i]) is Some && !has_index(
            ks,
            i,
        ) && 0 <= j < ks.len() ==> key_lt(#[trigger] ks[j], (scores[i].unwrap(), i))
}

/// `x` inserted into the ascending key sequence `ks`, before the first
/// strictly greater key.
pub open spec fn insert_key(ks: Seq<(int, int)>, x: (int, int)) -> Seq<(int, int)>
    decreases ks.len(),
{
    if ks.len() == 0 {
        seq![x]
    } else if key_lt(x, ks[0]) {
        seq![x] + ks
    } else {
        seq![ks[0]] + insert_key(ks.drop_first(), x)
    }
}

/// `x` inserted into `ks`, with the result cut back to at most `k` keys.
pub open spec fn trunc_insert(ks: Seq<(int, int)>, x: (int, int), k: int) -> Seq<(int, int)> {
    if ks.len() + 1 <= k {
        insert_key(ks, x)
    } else {
        insert_key(ks, x).take(k)
    }
}

/// Inserting a fresh-indexed key keeps the sequence strictly ascending,
/// adds exactly that key, and keeps every old key.
pub proof fn lemma_insert_key_props(ks: Seq<(int, int)>, x: (int, int))
    requires
        sorted_keys(ks),
        forall|j: int| 0 <= j < ks.len() ==> (#[trigger] ks[j]).1 != x.1,
    ensures
        insert_key(ks, x).len() == ks.len() + 1,
        sorted_keys(insert_key(ks, x)),
        insert_key(ks, x).contains(x),
        forall|j: int| 0 <= j < ks.len() ==> insert_key(ks, x).contains(#[trigger] ks[j]),
        forall|j: int|
            0 <= j < insert_key(ks, x).len() ==> insert_key(ks, x)[j] == x || ks.contains(
                #[trigger] insert_key(ks, x)[j],
            ),
    decreases ks.len(),
{
    let ins = insert_key(ks, x);
    if ks.len() == 0 {
        assert(ins[0] == x);
    } else if key_lt(x, ks[0]) {
        assert(ins[0] == x);
        assert forall|j: int| 0 <= j < ks.len() implies ins.contains(#[trigger] ks[j]) by {
            assert(ins[j + 1] == ks[j]);
        }
    } else {
        let rest = ks.drop_first();
        assert(sorted_keys(rest)) by {
            assert(forall|a: int, b: int|
                0 <= a < b < rest.len() ==> key_lt(#[trigger] rest[a], #[trigger] rest[b]));
        }
        lemma_insert_key_props(rest, x);
        let insr = insert_key(rest, x);
        assert(ins == seq![ks[0]] + insr);
        // ks[0] is strictly below x (not above it, and indices differ) and
        // below every key of the recursive insertion.
        assert(key_lt(ks[0], x)) by {
            assert(!key_lt(x, ks[0]));
            assert(ks[0].1 != x.1);
        }
        assert forall|a: int, b: int| 0 <= a < b < ins.len() implies key_lt(
            #[trigger] ins[a],
            #[trigger] ins[b],
        ) by {
            if a == 0 {
                assert(ins[b] == insr[b - 1]);
                if insr[b - 1] == x {
                    assert(key_lt(ks[0], x));
                } else {
                    assert(rest.contains(insr[b - 1]));
                    let m = choose|m: int| 0 <= m < rest.len() && rest[m] == insr[b - 1];
                    assert(key_lt(ks[0], rest[m]));
                }
            } else {
                assert(ins[a] == insr[a - 1] && ins[b] == insr[b - 1]);
            }
        }
        assert(ins.contains(x)) by {
            let m = choose|m: int| 0 <= m < insr.len() && insr[m] == x;
            assert(ins[m + 1] == x);
        }
        assert forall|j: int| 0 <= j < ks.len() implies ins.contains(#[trigger] ks[j]) by {
            if j == 0 {
                assert(ins[0] == ks[0]);
            } else {
                assert(insr.contains(rest[j - 1]));
                let m = choose|m: int| 0 <= m < insr.len() && insr[m] == rest[j - 1];
                assert(ins[m + 1] == ks[j]);
            }
        }
        assert forall|j: int| 0 <= j < ins.len() implies ins[j] == x || ks.contains(
            #[trigger] ins[j],
        ) by {
            if j == 0 {
                assert(ks.contains(ks[0])) by {
                    assert(ks[0] == ks[0]);
                }
            } else {
                assert(ins[j] == insr[j - 1]);
                if insr[j - 1] != x {
                    assert(rest.contains(insr[j - 1]));
                    let m = choose|m: int| 0 <= m < rest.len() && rest[m] == insr[j - 1];
                    assert(ks[m + 1] == insr[j - 1]);
                }
            }
        }
    }
}

/// Where the new key lands: if every key before `pos` is strictly below
/// `x` and the key at `pos` (if any) is strictly above it, insertion
/// splits the sequence exactly at `pos`.
pub proof fn lemma_insert_key_at(ks: Seq<(int, int)>, x: (int, int), pos: int)
    requires
        sorted_keys(ks),
        0 <= pos <= ks.len(),
        forall|j: int| 0 <= j < pos ==> key_lt(#[trigger] ks[j], x),
        pos == ks.len() || key_lt(x, ks[pos]),
    ensures
        insert_key(ks, x) =~= ks.take(pos) + seq![x] + ks.skip(pos),
    decreases ks.len(),
{
    if ks.len() == 0 {
    } else if key_lt(x, ks[0]) {
        assert(pos == 0) by {
            if pos > 0 {
                assert(key_lt(ks[0], x));
            }
        }
    } else {
        assert(pos > 0) by {
            if pos == 0 {
                assert(key_lt(x, ks[0]));
            }
        }
        let rest = ks.drop_first();
        assert(sorted_keys(rest)) by {
            assert(forall|a: int, b: int|
                0 <= a < b < rest.len() ==> key_lt(#[trigger] rest[a], #[trigger] rest[b]));
        }
        assert(forall|j: int| 0 <= j < pos - 1 ==> key_lt(#[trigger] rest[j], x));
        lemma_insert_key_at(rest, x, pos - 1);
    }
}

/// A pool never has a negative number of matches.
pub proof fn lemma_match_count_nonneg(scores: Seq<Option<int>>, lo: int, hi: int)
    ensures
        match_count(scores, lo, hi) >= 0,
    decreases hi - lo,
{
    if lo < hi {
        lemma_match_count_nonneg(scores, lo, hi - 1);
    }
}

/// Matches in a range split at any midpoint.
pub proof fn lemma_match_count_split(scores: Seq<Option<int>>, lo: int, mid: int, hi: int)
    requires
        lo <= mid <= hi,
    ensures
        match_count(scores, lo, hi) == match_count(scores, lo, mid) + match_count(
            scores,
            mid,
            hi,
        ),
    decreases hi - mid,
{
    if mid < hi {
        lemma_match_count_split(scores, lo, mid, hi - 1);
    }
}

/// An empty result is the best-K of an empty range.
pub proof fn lemma_topk_empty(scores: Seq<Option<int>>, lo: int, k: int)
    requires
        k >= 0,
    ensures
        is_topk(Seq::<(int, int)>::empty(), scores, lo, lo, k),
{
}

/// Scanning past a candidate with no score leaves the best-K unchanged.
pub proof fn lemma_topk_skip(
    ks: Seq<(int, int)>,
    scores: Seq<Option<int>>,
    lo: int,
    hi: int,
    k: int,
)
    requires
        is_topk(ks, scores, lo, hi, k),
        lo <= hi < scores.len(),
        scores[hi] is None,
    ensures
        is_topk(ks, scores, lo, hi + 1, k),
{
    assert(match_count(scores, lo, hi + 1) == match_count(scores, lo, hi));
}

/// Scanning a candidate whose score is present extends the best-K by
/// inserting its key and cutting back to `k`.
pub proof fn lemma_topk_extend(
    ks: Seq<(int, int)>,
    scores: Seq<Option<int>>,
    lo: int,
    hi: int,
    k: int,
    d: int,
)
    requires
        is_topk(ks, scores, lo, hi, k),
        0 <= lo <= hi < scores.len(),
        scores[hi] == Some(d),
        k >= 0,
    ensures
        is_topk(trunc_insert(ks, (d, hi), k), scores, lo, hi + 1, k),
{
    let x = (d, hi);
    let ins = insert_key(ks, x);
    let new = trunc_insert(ks, x, k);
    let mc = match_count(scores, lo, hi);
    lemma_match_count_nonneg(scores, lo, hi);
    assert(match_count(scores, lo, hi + 1) == mc + 1);
    assert(forall|j: int| 0 <= j < ks.len() ==> (#[trigger] ks[j]).1 != x.1);
    lemma_insert_key_props(ks, x);

    // The result is a prefix of the insertion, so it is ascending and its
    // keys come from the old result plus the new key.
    assert(forall|j: int| 0 <= j < new.len() ==> new[j] == ins[j]);
    assert(sorted_keys(new));
    assert forall|j: int| 0 <= j < new.len() implies in_pool(
        scores,
        lo,
        hi + 1,
        #[trigger] new[j],
    ) by {
        if new[j] != x {
            assert(ks.contains(new[j]));
            let m = choose|m: int| 0 <= m < ks.len() && ks[m] == new[j];
            assert(in_pool(scores, lo, hi, ks[m]));
        }
    }
    assert(new.len() == int_min(k, mc + 1));

    // When the grown pool still fits in k, nothing was cut and every
    // scored index is still present.
    if mc + 1 <= k {
        assert(new == ins);
        assert forall|i: int|
            lo <= i < hi + 1 && 0 <= i < scores.len() && (#[trigger] scores[i])
                is Some implies has_index(new, i) by {
            if i == hi {
                let m = choose|m: int| 0 <= m < ins.len() && ins[m] == x;
                assert(new[m].1 == i);
            } else {
                assert(has_index(ks, i));
                let m = choose|m: int| 0 <= m < ks.len() && (#[trigger] ks[m]).1 == i;
                assert(ins.contains(ks[m]));
                let m2 = choose|m2: int| 0 <= m2 < ins.len() && ins[m2] == ks[m];
                assert(new[m2].1 == i);
            }
        }
    }

    // Every rejected candidate of the grown pool is strictly worse than
    // every kept key.
    assert forall|i: int, j: int|
        lo <= i < hi + 1 && 0 <= i < scores.len() && (#[trigger] scores[i]) is Some && !has_index(
            new,
            i,
        ) && 0 <= j < new.len() implies key_lt(#[trigger] new[j], (scores[i].unwrap(), i)) by {
        let ki = (scores[i].unwrap(), i);
        if i == hi {
            // The new key itself was rejected, so the result was cut and
            // the new key was the cut maximum.
            assert(!ins.contains(x) || ins.len() > k) by {
                if ins.len() <= k {
                    let m = choose|m: int| 0 <= m < ins.len() && ins[m] == x;
                    assert(new[m].1 == hi);
                }
            }
            let m = choose|m: int| 0 <= m < ins.len() && ins[m] == x;
            assert(m >= k) by {
                if m < k {
                    assert(new[m].1 == hi);
                }
            }
            assert(m == ins.len() - 1 && ins.len() == k + 1) by {
                assert(ks.len() <= k);
            }
            assert(key_lt(ins[j], ins[m]));
        } else {
            if has_index(ks, i) {
                // Its key was kept before, so the cut dropped it; only the
                // insertion's last key is dropped, and it bounds the rest.
                let m = choose|m: int| 0 <= m < ks.len() && (#[trigger] ks[m]).1 == i;
                assert(ks[m] == ki) by {
                    assert(in_pool(scores, lo, hi, ks[m]));
                }
                assert(ins.contains(ks[m]));
                let m2 = choose|m2: int| 0 <= m2 < ins.len() && ins[m2] == ks[m];
                assert(m2 >= k) by {
                    if m2 < new.len() {
                        assert(new[m2].1 == i);
                    }
                }
                assert(ins.len() == k + 1 && m2 == k) by {
                    assert(ks.len() <= k);
                }
                assert(key_lt(ins[j], ins[m2]));
            } else {
                // It was already rejected; the old keys bound it, and the
                // new key does too, else the new key would be the cut
                // maximum and absent.
                assert(key_lt(ks[j], ki) || new[j] == x) by {
                    if new[j] != x {
                        assert(ks.contains(new[j]));
                        let m = choose|m: int| 0 <= m < ks.len() && ks[m] == new[j];
                        assert(key_lt(ks[m], ki));
                    }
                }
                if new[j] == x {
                    assert(mc > k) by {
                        if mc <= k {
                            assert(has_index(ks, i));
                        }
                    }
                    assert(ks.len() == k);
                    assert(key_lt(x, ki)) by {
                        if !key_lt(x, ki) {
                            // Then the new key tops every kept key and the
                            // rejected candidate, so the cut drops it.
                            assert(x.1 != ki.1);
                            assert(key_lt(ki, x));
                            assert(forall|m: int|
                                0 <= m < ks.len() ==> key_lt(#[trigger] ks[m], x));
                            lemma_insert_key_at(ks, x, ks.len() as int);
                            assert(ins[ks.len() as int] == x);
                            assert(ins.len() == k + 1);
                            assert(new[j] == ins[j] && j < k);
                            assert(sorted_keys(ins));
                            assert(key_lt(ins[j], ins[k as int]));
                            assert(new[j] != x);
                        }
                    }
                } else {
                    assert(key_lt(new[j], ki));
                }
            }
        }
    }
}

/// When the kept list is full and the new key tops it, inserting and
/// cutting back changes nothing.
pub proof fn lemma_trunc_insert_noop(ks: Seq<(int, int)>, x: (int, int), k: int)
    requires
        sorted_keys(ks),
        ks.len() == k,
        k >= 1,
        forall|j: int| 0 <= j < ks.len() ==> key_lt(#[trigger] ks[j], x),
    ensures
        trunc_insert(ks, x, k) == ks,
{
    lemma_insert_key_at(ks, x, ks.len() as int);
    assert(ks.take(ks.len() as int) =~= ks);
    assert(ks.skip(ks.len() as int) =~= Seq::<(int, int)>::empty());
    assert(insert_key(ks, x) =~= ks + seq![x]);
    assert(trunc_insert(ks, x, k) =~= ks);
}

proof fn unique_not_lt(
    r1: Seq<(int, int)>,
    r2: Seq<(int, int)>,
    scores: Seq<Option<int>>,
    lo: int,
    hi: int,
    k: int,
    j: int,
)
    requires
        is_topk(r1, scores, lo, hi, k),
        is_topk(r2, scores, lo, hi, k),
        0 <= j < r1.len(),
        j < r2.len(),
        forall|m: int| 0 <= m < j ==> r1[m] == r2[m],
    ensures
        !key_lt(r1[j], r2[j]),
{
    let a = r1[j];
    if key_lt(a, r2[j]) {
        assert(in_pool(scores, lo, hi, a));
        if has_index(r2, a.1) {
            let m = choose|m: int| 0 <= m < r2.len() && (#[trigger] r2[m]).1 == a.1;
            assert(r2[m] == a) by {
                assert(in_pool(scores, lo, hi, r2[m]));
            }
            if m < j {
                assert(r1[m] == a);
                assert(key_lt(r1[m], r1[j]));
            } else if m == j {
            } else {
                assert(key_lt(r2[j], r2[m]));
            }
        } else {
            assert(key_lt(r2[j], (scores[a.1].unwrap(), a.1)));
        }
    }
}

proof fn unique_upto(
    r1: Seq<(int, int)>,
    r2: Seq<(int, int)>,
    scores: Seq<Option<int>>,
    lo: int,
    hi: int,
    k: int,
    j: int,
)
    requires
        is_topk(r1, scores, lo, hi, k),
        is_topk(r2, scores, lo, hi, k),
        0 <= j <= r1.len(),
        r1.len() == r2.len(),
    ensures
        forall|m: int| 0 <= m < j ==> r1[m] == r2[m],
    decreases j,
{
    if j > 0 {
        unique_upto(r1, r2, scores, lo, hi, k, j - 1);
        unique_not_lt(r1, r2, scores, lo, hi, k, j - 1);
        unique_not_lt(r2, r1, scores, lo, hi, k, j - 1);
        assert(r1[j - 1] == r2[j - 1]) by {
            let a = r1[j - 1];
            let b = r2[j - 1];
            assert(in_pool(scores, lo, hi, a) && in_pool(scores, lo, hi, b));
            if a.1 == b.1 {
                assert(a == b);
            } else {
                assert(key_lt(a, b) || key_lt(b, a));
            }
        }
    }
}

/// The best-K result of a pool is unique: any two key sequences that both
/// satisfy the characterization are equal.
pub proof fn lemma_topk_unique(
    r1: Seq<(int, int)>,
    r2: Seq<(int, int)>,
    scores: Seq<Option<int>>,
    lo: int,
    hi: int,
    k: int,
)
    requires
        is_topk(r1, scores, lo, hi, k),
        is_topk(r2, scores, lo, hi, k),
    ensures
        r1 == r2,
{
    unique_upto(r1, r2, scores, lo, hi, k, r1.len() as int);
    assert(r1 =~= r2);
}

/// `ks` is the best-K result over the pool listed in `l`: strictly
/// ascending keys drawn from the list, as many as the list allows up to
/// `k`, the whole list when it fits, and every listed key left out
/// strictly worse than every kept one.
pub open spec fn is_topk_list(ks: Seq<(int, int)>, l: Seq<(int, int)>, k: int) -> bool {
    &&& sorted_keys(ks)
    &&& forall|j: int| 0 <= j < ks.len() ==> l.contains(#[trigger] ks[j])
    &&& ks.len() == int_min(k, l.len() as int)
    &&& (l.len() <= k ==> forall|j: int| 0 <= j < l.len() ==> ks.contains(#[trigger] l[j]))
    &&& forall|i: int, j: int|
        0 <= i < l.len() && !ks.contains(#[trigger] l[i]) && 0 <= j < ks.len() ==> key_lt(
            #[trigger] ks[j],
            l[i],
        )
}

/// A kept list of at most `k` keys is its own best-K.
pub proof fn lemma_topk_list_base(ks: Seq<(int, int)>, k: int)
    requires
        sorted_keys(ks),
        ks.len() <= k,
    ensures
        is_topk_list(ks, ks, k),
{
    assert(forall|j: int| 0 <= j < ks.len() ==> ks.contains(#[trigger] ks[j]));
}

/// Feeding one more listed key with a fresh index through insert-and-cut
/// keeps the best-K of the grown list.
pub proof fn lemma_topk_list_extend(ks: Seq<(int, int)>, l: Seq<(int, int)>, x: (int, int), k: int)
    requires
        is_topk_list(ks, l, k),
        k >= 0,
        forall|j: int| 0 <= j < l.len() ==> (#[trigger] l[j]).1 != x.1,
    ensures
        is_topk_list(trunc_insert(ks, x, k), l.push(x), k),
{
    let ins = insert_key(ks, x);
    let new = trunc_insert(ks, x, k);
    let l2 = l.push(x);
    assert forall|j: int| 0 <= j < ks.len() implies (#[trigger] ks[j]).1 != x.1 by {
        let m = choose|m: int| 0 <= m < l.len() && l[m] == ks[j];
    }
    lemma_insert_key_props(ks, x);
    assert(forall|j: int| 0 <= j < new.len() ==> new[j] == ins[j]);
    assert(sorted_keys(new));
    assert(l2[l.len() as int] == x);
    assert forall|j: int| 0 <= j < new.len() implies l2.contains(#[trigger] new[j]) by {
        if new[j] == x {
            assert(l2[l.len() as int] == x);
        } else {
            assert(ks.contains(new[j]));
            let m = choose|m: int| 0 <= m < ks.len() && ks[m] == new[j];
            let m2 = choose|m2: int| 0 <= m2 < l.len() && l[m2] == ks[m];
            assert(l2[m2] == new[j]);
        }
    }
    assert(new.len() == int_min(k, l2.len() as int));
    if l2.len() <= k {
        assert(new == ins);
        assert forall|j: int| 0 <= j < l2.len() implies new.contains(#[trigger] l2[j]) by {
            if j == l.len() {
                assert(ins.contains(x));
            } else {
                assert(ks.contains(l[j]));
                let m = choose|m: int| 0 <= m < ks.len() && ks[m] == l[j];
                assert(ins.contains(ks[m]));
            }
        }
    }
    assert forall|i: int, j: int|
        0 <= i < l2.len() && !new.contains(#[trigger] l2[i]) && 0 <= j
            < new.len() implies key_lt(#[trigger] new[j], l2[i]) by {
        let y = l2[i];
        if i == l.len() {
            // The new key itself was cut: it sat at the end of the
            // insertion, above everything kept.
            assert(y == x);
            let m = choose|m: int| 0 <= m < ins.len() && ins[m] == x;
            assert(m >= k) by {
                if m < k && m < new.len() {
                    assert(new[m] == x);
                }
            }
            assert(ins.len() == k + 1 && m == k) by {
                assert(ks.len() <= k);
            }
            assert(key_lt(ins[j], ins[m]));
        } else {
            assert(y == l[i] && y.1 != x.1 && y != x);
            if ks.contains(y) {
                let m = choose|m: int| 0 <= m < ks.len() && ks[m] == y;
                assert(ins.contains(ks[m]));
                let m2 = choose|m2: int| 0 <= m2 < ins.len() && ins[m2] == y;
                assert(m2 >= k) by {
                    if m2 < k && m2 < new.len() {
                        assert(new[m2] == y);
                    }
                }
                assert(ins.len() == k + 1 && m2 == k) by {
                    assert(ks.len() <= k);
                }
                assert(key_lt(ins[j], ins[m2]));
            } else {
                assert(forall|m: int| 0 <= m < ks.len() ==> key_lt(#[trigger] ks[m], y));
                if new[j] == x {
                    assert(l.len() > k) by {
                        if l.len() <= k {
                            assert(ks.contains(l[i]));
                        }
                    }
                    assert(ks.len() == k);
                    assert(key_lt(x, y)) by {
                        if !key_lt(x, y) {
                            assert(key_lt(y, x));
                            assert(forall|m: int|
                                0 <= m < ks.len() ==> key_lt(#[trigger] ks[m], x));
                            lemma_insert_key_at(ks, x, ks.len() as int);
                            assert(ins[ks.len() as int] == x);
                            assert(new[j] == ins[j] && j < k);
                            assert(key_lt(ins[j], ins[k as int]));
                            assert(new[j] != x);
                        }
                    }
                } else {
                    assert(ks.contains(new[j]));
                    let m = choose|m: int| 0 <= m < ks.len() && ks[m] == new[j];
                    assert(key_lt(ks[m], y));
                }
            }
        }
    }
}

/// Strictly ascending keys never repeat.
proof fn lemma_sorted_no_dup(ks: Seq<(int, int)>)
    requires
        sorted_keys(ks),
    ensures
        ks.no_duplicates(),
{
}

proof fn merge_dominates(
    r: Seq<(int, int)>,
    s: Seq<(int, int)>,
    l: Seq<(int, int)>,
    scores: Seq<Option<int>>,
    slo: int,
    shi: int,
    k: int,
    i: int,
)
    requires
        is_topk(s, scores, slo, shi, k),
        sorted_keys(r),
        r.len() == k,
        forall|m: int| 0 <= m < s.len() ==> l.contains(#[trigger] s[m]),
        forall|m: int, j: int|
            0 <= m < l.len() && !r.contains(#[trigger] l[m]) && 0 <= j < r.len() ==> key_lt(
                #[trigger] r[j],
                l[m],
            ),
        slo <= i < shi,
        0 <= i < scores.len(),
        scores[i] is Some,
        !has_index(r, i),
        !has_index(s, i),
    ensures
        forall|j: int| 0 <= j < r.len() ==> key_lt(#[trigger] r[j], (scores[i].unwrap(), i)),
{
    let ki = (scores[i].unwrap(), i);
    // The shard kept a full list, else this candidate would be in it.
    assert(s.len() == k) by {
        lemma_match_count_nonneg(scores, slo, shi);
        if match_count(scores, slo, shi) <= k {
            assert(has_index(s, i));
        }
    }
    assert(forall|m: int| 0 <= m < s.len() ==> key_lt(#[trigger] s[m], ki));
    if exists|m: int| 0 <= m < s.len() && !r.contains(#[trigger] s[m]) {
        // Some shard key was itself rejected by the merge: it bounds every
        // merged key and is itself below this candidate.
        let m = choose|m: int| 0 <= m < s.len() && !r.contains(#[trigger] s[m]);
        let m2 = choose|m2: int| 0 <= m2 < l.len() && l[m2] == s[m];
        assert forall|j: int| 0 <= j < r.len() implies key_lt(#[trigger] r[j], ki) by {
            assert(key_lt(r[j], l[m2]));
            assert(key_lt(s[m], ki));
        }
    } else {
        // Every shard key was kept; the merged list has no room for
        // anything else, so each merged key is a shard key.
        assert forall|j: int| 0 <= j < r.len() implies key_lt(#[trigger] r[j], ki) by {
            if !s.contains(r[j]) {
                lemma_sorted_no_dup(s);
                s.unique_seq_to_set();
                r.lemma_cardinality_of_set();
                broadcast use vstd::seq_lib::seq_to_set_is_finite;
                broadcast use vstd::seq_lib::group_seq_properties;

                assert(s.to_set().insert(r[j]).subset_of(r.to_set())) by {
                    assert forall|y: (int, int)| s.to_set().insert(r[j]).contains(y) implies r
                        .to_set()
                        .contains(y) by {
                        if y == r[j] {
                            assert(r.contains(r[j]));
                        } else {
                            assert(s.to_set().contains(y));
                            assert(s.contains(y));
                            let m = choose|m: int| 0 <= m < s.len() && s[m] == y;
                            assert(r.contains(s[m]));
                        }
                    }
                }
                assert(!s.to_set().contains(r[j])) by {
                    if s.to_set().contains(r[j]) {
                        assert(s.contains(r[j]));
                    }
                }
                assert(s.to_set().insert(r[j]).len() == k + 1);
                vstd::set_lib::lemma_len_subset(s.to_set().insert(r[j]), r.to_set());
                assert(false);
            } else {
                let m = choose|m: int| 0 <= m < s.len() && s[m] == r[j];
                assert(key_lt(s[m], ki));
            }
        }
    }
}

/// Merging two adjacent best-K results selects the best-K of the union:
/// the best-K of the listed union of per-range results is the best-K of
/// the whole range.
pub proof fn lemma_merge_two(
    a: Seq<(int, int)>,
    b: Seq<(int, int)>,
    r: Seq<(int, int)>,
    scores: Seq<Option<int>>,
    lo: int,
    mid: int,
    hi: int,
    k: int,
)
    requires
        0 <= lo <= mid <= hi <= scores.len(),
        k >= 0,
        is_topk(a, scores, lo, mid, k),
        is_topk(b, scores, mid, hi, k),
        is_topk_list(r, a + b, k),
    ensures
        is_topk(r, scores, lo, hi, k),
{
    let l = a + b;
    let mc = match_count(scores, lo, hi);
    let mca = match_count(scores, lo, mid);
    let mcb = match_count(scores, mid, hi);
    lemma_match_count_split(scores, lo, mid, hi);
    lemma_match_count_nonneg(scores, lo, mid);
    lemma_match_count_nonneg(scores, mid, hi);
    assert(forall|m: int| 0 <= m < a.len() ==> l[m] == #[trigger] a[m]);
    assert(forall|m: int| 0 <= m < b.len() ==> l[a.len() + m] == #[trigger] b[m]);

    assert forall|j: int| 0 <= j < r.len() implies in_pool(scores, lo, hi, #[trigger] r[j]) by {
        let m = choose|m: int| 0 <= m < l.len() && l[m] == r[j];
        if m < a.len() {
            assert(in_pool(scores, lo, mid, a[m]));
        } else {
            assert(in_pool(scores, mid, hi, b[m - a.len()]));
        }
    }
    assert(r.len() == int_min(k, mc));

    if mc <= k {
        assert(a.len() == mca && b.len() == mcb);
        assert forall|i: int|
            lo <= i < hi && 0 <= i < scores.len() && (#[trigger] scores[i])
                is Some implies has_index(r, i) by {
            if i < mid {
                assert(has_index(a, i));
                let m = choose|m: int| 0 <= m < a.len() && (#[trigger] a[m]).1 == i;
                assert(l[m] == a[m]);
                assert(r.contains(l[m]));
                let m2 = choose|m2: int| 0 <= m2 < r.len() && r[m2] == a[m];
            } else {
                assert(has_index(b, i));
                let m = choose|m: int| 0 <= m < b.len() && (#[trigger] b[m]).1 == i;
                assert(l[a.len() + m] == b[m]);
                assert(r.contains(b[m]));
                let m2 = choose|m2: int| 0 <= m2 < r.len() && r[m2] == b[m];
            }
        }
    }

    assert forall|i: int, j: int|
        lo <= i < hi && 0 <= i < scores.len() && (#[trigger] scores[i]) is Some && !has_index(
            r,
            i,
        ) && 0 <= j < r.len() implies key_lt(#[trigger] r[j], (scores[i].unwrap(), i)) by {
        let ki = (scores[i].unwrap(), i);
        if i < mid {
            if has_index(a, i) {
                let m = choose|m: int| 0 <= m < a.len() && (#[trigger] a[m]).1 == i;
                assert(a[m] == ki) by {
                    assert(in_pool(scores, lo, mid, a[m]));
                }
                assert(l[m] == ki);
                assert(!r.contains(ki)) by {
                    if r.contains(ki) {
                        let m2 = choose|m2: int| 0 <= m2 < r.len() && r[m2] == ki;
                    }
                }
                assert(key_lt(r[j], ki));
            } else {
                assert(r.len() == k) by {
                    if mca <= k {
                        assert(has_index(a, i));
                    }
                }
                assert(!has_index(a, i));
                merge_dominates(r, a, l, scores, lo, mid, k, i);
            }
        } else {
            if has_index(b, i) {
                let m = choose|m: int| 0 <= m < b.len() && (#[trigger] b[m]).1 == i;
                assert(b[m] == ki) by {
                    assert(in_pool(scores, mid, hi, b[m]));
                }
                assert(l[a.len() + m] == ki);
                assert(!r.contains(ki)) by {
                    if r.contains(ki) {
                        let m2 = choose|m2: int| 0 <= m2 < r.len() && r[m2] == ki;
                    }
                }
                assert(key_lt(r[j], ki));
            } else {
                assert(r.len() == k) by {
                    if mcb <= k {
                        assert(has_index(b, i));
                    }
                }
                assert forall|m: int| 0 <= m < b.len() implies l.contains(#[trigger] b[m]) by {
                    assert(l[a.len() + m] == b[m]);
                }
                merge_dominates(r, b, l, scores, mid, hi, k, i);
            }
        }
    }
}

/// The keys of a local result, each index moved up by `d`.
pub open spec fn shift_keys(ks: Seq<(int, int)>, d: int) -> Seq<(int, int)> {
    ks.map_values(|key: (int, int)| (key.0, key.1 + d))
}

proof fn lemma_match_count_subrange(scores: Seq<Option<int>>, lo: int, hi: int, j: int)
    requires
        0 <= lo <= hi <= scores.len(),
        0 <= j <= hi - lo,
    ensures
        match_count(scores.subrange(lo, hi), 0, j) == match_count(scores, lo, lo + j),
    decreases j,
{
    if j > 0 {
        lemma_match_count_subrange(scores, lo, hi, j - 1);
    }
}

/// A best-K of a score subrange, with its indices moved up by the
/// subrange's start, is a best-K of that range of the whole.
pub proof fn lemma_topk_shift(
    ks: Seq<(int, int)>,
    scores: Seq<Option<int>>,
    lo: int,
    hi: int,
    k: int,
)
    requires
        0 <= lo <= hi <= scores.len(),
        is_topk(ks, scores.subrange(lo, hi), 0, hi - lo, k),
    ensures
        is_topk(shift_keys(ks, lo), scores, lo, hi, k),
{
    let sub = scores.subrange(lo, hi);
    let sk = shift_keys(ks, lo);
    assert(sk.len() == ks.len());
    assert(forall|j: int| 0 <= j < ks.len() ==> (#[trigger] sk[j]) == (ks[j].0, ks[j].1 + lo));
    lemma_match_count_subrange(scores, lo, hi, hi - lo);
    assert forall|j: int| 0 <= j < sk.len() implies in_pool(scores, lo, hi, #[trigger] sk[j]) by {
        assert(in_pool(sub, 0, hi - lo, ks[j]));
        assert(sub[ks[j].1] == scores[lo + ks[j].1]);
    }
    if match_count(scores, lo, hi) <= k {
        assert forall|i: int|
            lo <= i < hi && 0 <= i < scores.len() && (#[trigger] scores[i])
                is Some implies has_index(sk, i) by {
            assert(sub[i - lo] == scores[i]);
            assert(has_index(ks, i - lo));
            let m = choose|m: int| 0 <= m < ks.len() && (#[trigger] ks[m]).1 == i - lo;
            assert(sk[m].1 == i);
        }
    }
    assert forall|i: int, j: int|
        lo <= i < hi && 0 <= i < scores.len() && (#[trigger] scores[i]) is Some && !has_index(
            sk,
            i,
        ) && 0 <= j < sk.len() implies key_lt(#[trigger] sk[j], (scores[i].unwrap(), i)) by {
        assert(sub[i - lo] == scores[i]);
        assert(!has_index(ks, i - lo)) by {
            if has_index(ks, i - lo) {
                let m = choose|m: int| 0 <= m < ks.len() && (#[trigger] ks[m]).1 == i - lo;
                assert(sk[m].1 == i);
            }
        }
        assert(key_lt(ks[j], (sub[i - lo].unwrap(), i - lo)));
    }
}

} // verus!
