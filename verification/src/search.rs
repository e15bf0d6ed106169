//! The match engine: subsequence scoring over record views with bounded
//! best-K selection, and a sharded variant that partitions the corpus,
//! scans each shard independently, and merges the per-shard results.
//!
//! Both entry points return the same uniquely determined result: the at
//! most `k` matching records with the lowest scores, ascending by score
//! and, among equal scores, by corpus order.

use vstd::prelude::*;
use vstd::slice::slice_index_get;
use vstd::slice::slice_subrange;

verus! {

use crate::bible::Verse;
use crate::normalise::normal_of;
use crate::normalise::normalise_text;
use crate::normalise::text_chars;
use crate::score::match_score;
use crate::score::score_candidate;
use crate::topk::has_index;
use crate::topk::in_pool;
use crate::topk::insert_key;
use crate::topk::int_min;
use crate::topk::is_topk;
use crate::topk::is_topk_list;
use crate::topk::key_lt;
use crate::topk::lemma_insert_key_at;
use crate::topk::lemma_insert_key_props;
use crate::topk::lemma_match_count_nonneg;
use crate::topk::lemma_merge_two;
use crate::topk::lemma_topk_empty;
use crate::topk::lemma_topk_extend;
use crate::topk::lemma_topk_list_base;
use crate::topk::lemma_topk_list_extend;
use crate::topk::lemma_topk_shift;
use crate::topk::lemma_topk_skip;
use crate::topk::lemma_topk_unique;
use crate::topk::lemma_trunc_insert_noop;
use crate::topk::match_count;
use crate::topk::shift_keys;
use crate::topk::sorted_keys;
use crate::topk::trunc_insert;

/// One result of a search: a borrowed record view and its score (lower is
/// better; 0 means the query was found contiguously).
#[derive(Debug)]
pub struct Match<'a> {
    pub verse: &'a Verse<'a>,
    pub distance: usize,
}

/// The score of every view against the normalized query `q`, by corpus
/// position.
pub open spec fn view_scores<'a>(q: Seq<char>, views: Seq<Verse<'a>>) -> Seq<Option<int>> {
    Seq::new(views.len(), |i: int| match_score(q, views[i].search_text@))
}

/// The matches carry exactly the keys `ks`: match `j` scores `ks[j].0`
/// and borrows the view at corpus position `ks[j].1`.
pub open spec fn corresponds<'a>(
    ms: Seq<Match<'a>>,
    ks: Seq<(int, int)>,
    views: Seq<Verse<'a>>,
) -> bool {
    &&& ms.len() == ks.len()
    &&& forall|j: int|
        0 <= j < ms.len() ==> {
            &&& (#[trigger] ms[j]).distance as int == ks[j].0
            &&& 0 <= ks[j].1 < views.len()
            &&& *ms[j].verse == views[ks[j].1]
        }
}

/// The whole contract of a search: the result realizes the unique best-K
/// key sequence of the pool of views matching the normalized query `q`.
pub open spec fn search_matches<'a>(
    ms: Seq<Match<'a>>,
    q: Seq<char>,
    views: Seq<Verse<'a>>,
    k: int,
) -> bool {
    exists|ks: Seq<(int, int)>|
        is_topk(ks, view_scores(q, views), 0, views.len() as int, k) && corresponds(
            ms,
            ks,
            views,
        )
}

// Insert a new match, keeping the list ascending by key and at most `k`
// long. The new candidate's corpus position is strictly above every held
// one, so among equal distances it sorts last.
fn topk_insert<'a>(
    ms: &mut Vec<Match<'a>>,
    Ghost(ks): Ghost<Seq<(int, int)>>,
    v: &'a Verse<'a>,
    d: usize,
    Ghost(gi): Ghost<int>,
    k: usize,
    Ghost(views): Ghost<Seq<Verse<'a>>>,
) -> (res: Ghost<Seq<(int, int)>>)
    requires
        sorted_keys(ks),
        corresponds(old(ms)@, ks, views),
        ks.len() <= k,
        k >= 1,
        0 <= gi < views.len(),
        *v == views[gi],
        forall|j: int| 0 <= j < ks.len() ==> (#[trigger] ks[j]).1 != gi,
        forall|j: int| 0 <= j < ks.len() ==> ((#[trigger] ks[j]).0 == d as int ==> ks[j].1 < gi),
    ensures
        res@ == trunc_insert(ks, (d as int, gi), k as int),
        corresponds(final(ms)@, res@, views),
{
    let ghost x = (d as int, gi);
    let len = ms.len();
    let mut pos: usize = 0;
    while pos < len && ms[pos].distance <= d
        invariant
            len == ms@.len(),
            pos <= len,
            forall|j: int| 0 <= j < pos ==> (#[trigger] ms@[j]).distance <= d,
        decreases len - pos,
    {
        pos = pos + 1;
    }
    proof {
        assert forall|j: int| 0 <= j < pos implies key_lt(#[trigger] ks[j], x) by {
            assert(ms@[j].distance <= d);
        }
        if pos < len {
            assert(ks[pos as int].0 > d as int);
        }
        lemma_insert_key_at(ks, x, pos as int);
        lemma_insert_key_props(ks, x);
    }
    ms.insert(pos, Match { verse: v, distance: d });
    let ghost ins = insert_key(ks, x);
    proof {
        assert(ins == ks.take(pos as int) + seq![x] + ks.skip(pos as int));
        assert(ms@.len() == ins.len());
        assert forall|j: int| 0 <= j < ms@.len() implies {
            &&& (#[trigger] ms@[j]).distance as int == ins[j].0
            &&& 0 <= ins[j].1 < views.len()
            &&& *ms@[j].verse == views[ins[j].1]
        } by {
            if j < pos {
                assert(ms@[j] == old(ms)@[j]);
                assert(ins[j] == ks[j]);
            } else if j == pos {
                assert(ins[j] == x);
            } else {
                assert(ms@[j] == old(ms)@[j - 1]);
                assert(ins[j] == ks[j - 1]);
            }
        }
    }
    if ms.len() > k {
        let ghost before_pop = ms@;
        ms.pop();
        proof {
            assert(ms@ =~= before_pop.drop_last());
            assert(trunc_insert(ks, x, k as int) =~= ins.take(k as int));
            assert(ms@.len() == k);
        }
        Ghost(ins.take(k as int))
    } else {
        proof {
            assert(trunc_insert(ks, x, k as int) == ins);
        }
        Ghost(ins)
    }
}

// Scan the views in order, scoring each against the normalized query and
// keeping the best `k` matches seen so far. The shortcut that rejects a
// candidate scoring no better than the worst held match is taken only
// once the list holds `k` matches; with fewer held, every matching
// candidate is inserted.
fn scan_views<'a>(nq: &Vec<char>, views: &'a [Verse<'a>], k: usize) -> (r: (
    Vec<Match<'a>>,
    Ghost<Seq<(int, int)>>,
))
    ensures
        is_topk(r.1@, view_scores(nq@, views@), 0, views@.len() as int, k as int),
        corresponds(r.0@, r.1@, views@),
{
    let ghost scores = view_scores(nq@, views@);
    let mut result: Vec<Match<'a>> = Vec::new();
    let mut gks: Ghost<Seq<(int, int)>> = Ghost(Seq::empty());
    proof {
        lemma_topk_empty(scores, 0, k as int);
    }
    let n = views.len();
    let mut i: usize = 0;
    while i < n
        invariant
            n == views@.len(),
            i <= n,
            scores == view_scores(nq@, views@),
            is_topk(gks@, scores, 0, i as int, k as int),
            corresponds(result@, gks@, views@),
        decreases n - i,
    {
        let v = slice_index_get(views, i);
        match score_candidate(nq, v.search_text) {
            Some(d) => {
                proof {
                    assert(scores[i as int] == Some(d as int));
                    lemma_match_count_nonneg(scores, 0, i as int);
                }
                if k == 0 {
                    proof {
                        lemma_topk_extend(gks@, scores, 0, i as int, k as int, d as int);
                        assert(insert_key(gks@, (d as int, i as int)).take(0) =~= gks@);
                    }
                } else if result.len() == k && result[k - 1].distance <= d {
                    // The list is full and this candidate cannot beat the
                    // worst held match (equal scores keep the earlier
                    // record), so it is rejected.
                    proof {
                        let x = (d as int, i as int);
                        assert forall|j: int| 0 <= j < gks@.len() implies key_lt(
                            #[trigger] gks@[j],
                            x,
                        ) by {
                            assert(key_lt(gks@[j], gks@[k - 1]) || j == k - 1);
                            assert(gks@[k - 1].0 <= d as int);
                            assert(in_pool(scores, 0, i as int, gks@[j]));
                        }
                        lemma_trunc_insert_noop(gks@, x, k as int);
                        lemma_topk_extend(gks@, scores, 0, i as int, k as int, d as int);
                    }
                } else {
                    proof {
                        lemma_topk_extend(gks@, scores, 0, i as int, k as int, d as int);
                        assert forall|j: int| 0 <= j < gks@.len() implies (#[trigger] gks@[j]).1
                            != i as int by {
                            assert(in_pool(scores, 0, i as int, gks@[j]));
                        }
                    }
                    let res = topk_insert(
                        &mut result,
                        Ghost(gks@),
                        v,
                        d,
                        Ghost(i as int),
                        k,
                        Ghost(views@),
                    );
                    gks = res;
                }
            },
            None => {
                proof {
                    assert(scores[i as int] is None);
                    lemma_topk_skip(gks@, scores, 0, i as int, k as int);
                }
            },
        }
        i = i + 1;
    }
    (result, gks)
}

/// Find the best matches for `query` among `verses`.
///
/// The query is normalized once; each verse's normalized text is scanned
/// for the query as a subsequence; the `k` lowest-scoring matches are
/// returned, ascending by score, equal scores in corpus order. A query
/// with no matching verse yields an empty result; an empty query matches
/// every verse with score 0.
pub fn search<'a>(query: String, verses: &'a Vec<Verse<'a>>, k: usize) -> (r: Vec<Match<'a>>)
    ensures
        search_matches(r@, normal_of(query@), verses@, k as int),
        r@.len() <= k,
        query@.len() == 0 ==> normal_of(query@) == Seq::<char>::empty(),
{
    let nq_string = normalise_text(query.as_str());
    let nq = text_chars(nq_string.as_str());
    proof {
        if query@.len() == 0 {
            assert(normal_of(query@) =~= Seq::<char>::empty());
        }
    }
    let (result, gks) = scan_views(&nq, verses.as_slice(), k);
    proof {
        lemma_match_count_nonneg(
            view_scores(normal_of(query@), verses@),
            0,
            verses@.len() as int,
        );
        assert(is_topk(
            gks@,
            view_scores(normal_of(query@), verses@),
            0,
            verses@.len() as int,
            k as int,
        ));
    }
    result
}

/// Find the best matches for `query` among `verses`, scanning the corpus
/// in `shard_count` contiguous, near-equal shards and merging the
/// per-shard results.
///
/// Returns exactly what [`search`] returns on the same inputs: the merge
/// of per-shard best-K lists is the global best-K.
pub fn search_parallel<'a>(
    query: String,
    verses: &'a Vec<Verse<'a>>,
    shard_count: usize,
    k: usize,
) -> (r: Vec<Match<'a>>)
    requires
        shard_count >= 1,
    ensures
        search_matches(r@, normal_of(query@), verses@, k as int),
        r@.len() <= k,
        query@.len() == 0 ==> normal_of(query@) == Seq::<char>::empty(),
{
    let nq_string = normalise_text(query.as_str());
    let nq = text_chars(nq_string.as_str());
    proof {
        if query@.len() == 0 {
            assert(normal_of(query@) =~= Seq::<char>::empty());
        }
    }
    let all = verses.as_slice();
    let n = all.len();
    let ghost scores = view_scores(nq@, verses@);
    if n == 0 {
        proof {
            lemma_topk_empty(scores, 0, k as int);
            assert(is_topk(
                Seq::<(int, int)>::empty(),
                view_scores(normal_of(query@), verses@),
                0,
                verses@.len() as int,
                k as int,
            ));
            assert(corresponds(Seq::<Match<'a>>::empty(), Seq::<(int, int)>::empty(), verses@));
        }
        let empty_result: Vec<Match<'a>> = Vec::new();
        return empty_result;
    }
    // Shard size: the ceiling of n / shard_count, so the last shard may be
    // shorter.
    proof {
        vstd::arithmetic::div_mod::lemma_div_nonincreasing(n as int - 1, shard_count as int);
    }
    let chunk = (n - 1) / shard_count + 1;
    let mut result: Vec<Match<'a>> = Vec::new();
    let mut gks: Ghost<Seq<(int, int)>> = Ghost(Seq::empty());
    proof {
        lemma_topk_empty(scores, 0, k as int);
    }
    let mut lo: usize = 0;
    while lo < n
        invariant
            n == verses@.len(),
            all@ == verses@,
            nq@ == normal_of(query@),
            scores == view_scores(nq@, verses@),
            lo <= n,
            n > 0 ==> chunk >= 1,
            is_topk(gks@, scores, 0, lo as int, k as int),
            corresponds(result@, gks@, verses@),
        decreases n - lo,
    {
        let hi = if chunk > n - lo {
            n
        } else {
            lo + chunk
        };
        let shard = slice_subrange(all, lo, hi);
        let (sres, sgks) = scan_views(&nq, shard, k);
        let ghost shifted = shift_keys(sgks@, lo as int);
        let ghost l0 = gks@;
        proof {
            assert(view_scores(nq@, shard@) =~= scores.subrange(lo as int, hi as int)) by {
                assert(forall|j: int|
                    0 <= j < shard@.len() ==> (#[trigger] shard@[j]) == verses@[lo + j]);
            }
            lemma_topk_shift(sgks@, scores, lo as int, hi as int, k as int);
            lemma_topk_list_base(l0, k as int);
            assert(l0 + shifted.take(0) =~= l0);
            // The shard's matches carry the shifted keys over the whole
            // corpus.
            assert(corresponds(sres@, shifted, verses@)) by {
                assert forall|j: int| 0 <= j < sres@.len() implies {
                    &&& (#[trigger] sres@[j]).distance as int == shifted[j].0
                    &&& 0 <= shifted[j].1 < verses@.len()
                    &&& *sres@[j].verse == verses@[shifted[j].1]
                } by {
                    assert(shifted[j] == (sgks@[j].0, sgks@[j].1 + lo));
                    assert(*sres@[j].verse == shard@[sgks@[j].1]);
                    assert(shard@[sgks@[j].1] == verses@[sgks@[j].1 + lo]);
                }
            }
        }
        let m = sres.len();
        let mut j: usize = 0;
        while j < m
            invariant
                m == sres@.len(),
                m == shifted.len(),
                j <= m,
                lo < hi <= n,
                n == verses@.len(),
                scores == view_scores(nq@, verses@),
                is_topk(l0, scores, 0, lo as int, k as int),
                is_topk(shifted, scores, lo as int, hi as int, k as int),
                corresponds(sres@, shifted, verses@),
                is_topk_list(gks@, l0 + shifted.take(j as int), k as int),
                corresponds(result@, gks@, verses@),
            decreases m - j,
        {
            let d = sres[j].distance;
            let v = sres[j].verse;
            let ghost x = shifted[j as int];
            let ghost l = l0 + shifted.take(j as int);
            proof {
                assert(x.0 == d as int && lo <= x.1 < hi) by {
                    assert(in_pool(scores, lo as int, hi as int, shifted[j as int]));
                }
                // Every key already fed in carries another index: the
                // accumulated ones lie in earlier shards, and the shard's
                // own earlier keys are strictly below this one.
                assert forall|a: int| 0 <= a < l.len() implies (#[trigger] l[a]).1 != x.1 by {
                    if a < l0.len() {
                        assert(in_pool(scores, 0, lo as int, l0[a]));
                    } else {
                        assert(l[a] == shifted[a - l0.len()]);
                        assert(key_lt(shifted[a - l0.len()], shifted[j as int]));
                        assert(in_pool(scores, lo as int, hi as int, shifted[a - l0.len()]));
                        assert(in_pool(scores, lo as int, hi as int, shifted[j as int]));
                    }
                }
                lemma_topk_list_extend(gks@, l, x, k as int);
                assert(l.push(x) =~= l0 + shifted.take(j as int + 1));
                assert(k >= 1) by {
                    lemma_match_count_nonneg(scores, lo as int, hi as int);
                }
            }
            if result.len() == k && result[k - 1].distance <= d {
                proof {
                    assert forall|a: int| 0 <= a < gks@.len() implies key_lt(
                        #[trigger] gks@[a],
                        x,
                    ) by {
                        assert(key_lt(gks@[a], gks@[k - 1]) || a == k - 1);
                        assert(gks@[k - 1].0 <= d as int);
                        assert(gks@.len() == int_min(k as int, l.len() as int));
                        // A held key with this score has a smaller index:
                        // it came from an earlier shard or an earlier spot
                        // in this one.
                        if gks@[a].0 == x.0 {
                            assert(l.contains(gks@[a]));
                            let b = choose|b: int| 0 <= b < l.len() && l[b] == gks@[a];
                            assert(l[b].1 != x.1);
                            if b < l0.len() {
                                assert(in_pool(scores, 0, lo as int, l0[b]));
                            } else {
                                assert(l[b] == shifted[b - l0.len()]);
                                assert(key_lt(shifted[b - l0.len()], shifted[j as int]));
                            }
                        }
                    }
                    lemma_trunc_insert_noop(gks@, x, k as int);
                }
            } else {
                proof {
                    assert forall|a: int| 0 <= a < gks@.len() implies (#[trigger] gks@[a]).1
                        != x.1 by {
                        assert(l.contains(gks@[a]));
                        let b = choose|b: int| 0 <= b < l.len() && l[b] == gks@[a];
                    }
                    assert forall|a: int|
                        0 <= a < gks@.len() && (#[trigger] gks@[a]).0 == d as int implies gks@[a].1
                        < x.1 by {
                        assert(l.contains(gks@[a]));
                        let b = choose|b: int| 0 <= b < l.len() && l[b] == gks@[a];
                        if b < l0.len() {
                            assert(in_pool(scores, 0, lo as int, l0[b]));
                        } else {
                            assert(l[b] == shifted[b - l0.len()]);
                            assert(key_lt(shifted[b - l0.len()], shifted[j as int]));
                        }
                    }
                    assert(*v == verses@[x.1]);
                }
                let res = topk_insert(
                    &mut result,
                    Ghost(gks@),
                    v,
                    d,
                    Ghost(x.1),
                    k,
                    Ghost(verses@),
                );
                gks = res;
            }
            j = j + 1;
        }
        proof {
            assert(shifted.take(m as int) =~= shifted);
            lemma_merge_two(l0, shifted, gks@, scores, 0, lo as int, hi as int, k as int);
        }
        lo = hi;
    }
    proof {
        lemma_match_count_nonneg(scores, 0, n as int);
        assert(is_topk(
            gks@,
            view_scores(normal_of(query@), verses@),
            0,
            verses@.len() as int,
            k as int,
        ));
    }
    result
}

/// Determinism, and shard/merge equivalence: the search contract pins its
/// result down uniquely, so any two results for the same query, views and
/// bound are equal — two runs of [`search`], or a run of [`search`]
/// against one of [`search_parallel`] with any shard count.
pub proof fn lemma_search_unique<'a>(
    r1: Seq<Match<'a>>,
    r2: Seq<Match<'a>>,
    q: Seq<char>,
    views: Seq<Verse<'a>>,
    k: int,
)
    requires
        search_matches(r1, q, views, k),
        search_matches(r2, q, views, k),
    ensures
        r1 == r2,
{
    let n = views.len() as int;
    let ks1 = choose|ks: Seq<(int, int)>|
        is_topk(ks, view_scores(q, views), 0, n, k) && corresponds(r1, ks, views);
    let ks2 = choose|ks: Seq<(int, int)>|
        is_topk(ks, view_scores(q, views), 0, n, k) && corresponds(r2, ks, views);
    lemma_topk_unique(ks1, ks2, view_scores(q, views), 0, n, k);
    assert(r1 =~= r2);
}

proof fn empty_query_prefix(
    ks: Seq<(int, int)>,
    scores: Seq<Option<int>>,
    n: int,
    k: int,
    j: int,
)
    requires
        is_topk(ks, scores, 0, n, k),
        n == scores.len(),
        forall|i: int| 0 <= i < n ==> (#[trigger] scores[i]) == Some(0int),
        0 <= j <= ks.len(),
        ks.len() <= n,
    ensures
        forall|m: int| 0 <= m < j ==> (#[trigger] ks[m]) == (0int, m),
    decreases j,
{
    if j > 0 {
        empty_query_prefix(ks, scores, n, k, j - 1);
        let m = j - 1;
        assert(in_pool(scores, 0, n, ks[m]));
        assert(ks[m].0 == 0);
        assert(ks[m].1 >= m) by {
            if m > 0 {
                assert(key_lt(ks[m - 1], ks[m]));
                assert(ks[m - 1] == (0int, m - 1));
            }
        }
        assert(ks[m].1 == m) by {
            if ks[m].1 > m {
                // Then index m itself is absent from the kept keys, yet a
                // kept key does not beat it: impossible.
                assert(!has_index(ks, m)) by {
                    if has_index(ks, m) {
                        let a = choose|a: int| 0 <= a < ks.len() && (#[trigger] ks[a]).1 == m;
                        if a < m {
                            assert(ks[a] == (0int, a));
                        } else if a > m {
                            assert(key_lt(ks[m], ks[a]));
                        }
                    }
                }
                assert(0 <= m < n && scores[m] is Some);
                assert(key_lt(ks[m], (scores[m].unwrap(), m)));
            }
        }
    }
}

proof fn lemma_count_all_matching(scores: Seq<Option<int>>, m: int)
    requires
        0 <= m <= scores.len(),
        forall|i: int| 0 <= i < scores.len() ==> (#[trigger] scores[i]) is Some,
    ensures
        match_count(scores, 0, m) == m,
    decreases m,
{
    if m > 0 {
        lemma_count_all_matching(scores, m - 1);
    }
}

/// Every returned match really contains the normalized query: its verse's
/// normalized text has the query as a subsequence, and the match's
/// distance is that candidate's score.
pub proof fn lemma_matches_are_subsequences<'a>(
    r: Seq<Match<'a>>,
    q: Seq<char>,
    views: Seq<Verse<'a>>,
    k: int,
)
    requires
        search_matches(r, q, views, k),
    ensures
        forall|j: int|
            0 <= j < r.len() ==> crate::score::is_subsequence(
                q,
                (#[trigger] r[j]).verse.search_text@,
            ) && match_score(q, r[j].verse.search_text@) == Some(r[j].distance as int),
{
    let n = views.len() as int;
    let ks = choose|ks: Seq<(int, int)>|
        is_topk(ks, view_scores(q, views), 0, n, k) && corresponds(r, ks, views);
    assert forall|j: int| 0 <= j < r.len() implies crate::score::is_subsequence(
        q,
        (#[trigger] r[j]).verse.search_text@,
    ) && match_score(q, r[j].verse.search_text@) == Some(r[j].distance as int) by {
        assert(in_pool(view_scores(q, views), 0, n, ks[j]));
        assert(view_scores(q, views)[ks[j].1] == match_score(q, views[ks[j].1].search_text@));
        assert(*r[j].verse == views[ks[j].1]);
        crate::score::lemma_match_iff_subsequence(q, r[j].verse.search_text@);
    }
}

/// The empty query matches every verse with score 0, so a search with it
/// returns the first `min(k, n)` verses in corpus order, all scoring 0.
pub proof fn lemma_empty_query<'a>(r: Seq<Match<'a>>, views: Seq<Verse<'a>>, k: int)
    requires
        search_matches(r, Seq::<char>::empty(), views, k),
        k >= 0,
    ensures
        r.len() == int_min(k, views.len() as int),
        forall|j: int| 0 <= j < r.len() ==> (#[trigger] r[j]).distance == 0 && *r[j].verse
            == views[j],
{
    let q = Seq::<char>::empty();
    let scores = view_scores(q, views);
    let n = views.len() as int;
    let ks = choose|ks: Seq<(int, int)>|
        is_topk(ks, scores, 0, n, k) && corresponds(r, ks, views);
    assert(forall|i: int| 0 <= i < n ==> (#[trigger] scores[i]) == Some(0int)) by {
        assert(forall|i: int|
            0 <= i < n ==> (#[trigger] scores[i]) == match_score(q, views[i].search_text@));
    }
    lemma_count_all_matching(scores, n);
    assert(ks.len() == int_min(k, n));
    empty_query_prefix(ks, scores, n, k, ks.len() as int);
    assert forall|j: int| 0 <= j < r.len() implies (#[trigger] r[j]).distance == 0 && *r[j].verse
        == views[j] by {
        assert(ks[j] == (0int, j));
    }
}

} // verus!
