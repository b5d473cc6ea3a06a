//! Similarity ranking: ordering the cached entries by their score against
//! the query, descending, with ties kept in cache order, truncated to the
//! requested number of results.
//!
//! Scores arrive as order keys: any integer encoding whose order agrees
//! with the similarity scores. An entry whose stored embedding could not be
//! deserialized arrives as `None` and is fatal for the whole ranking call.

use vstd::prelude::*;

use crate::errors::SemanticSearchError;
use crate::rows::{EmbeddingRow, EmbeddingRowModel, Suggestions, SuggestionsModel};

verus! {

broadcast use vstd::seq_lib::group_to_multiset_ensures;

/// Where `x` goes in the descending run `s`: after every element scoring at
/// least `x.0`, so that equal scores keep their earlier order.
pub open spec fn insert_pos(s: Seq<(i64, int)>, x: (i64, int)) -> int
    decreases s.len(),
{
    if s.len() == 0 {
        0int
    } else if s[0].0 >= x.0 {
        1 + insert_pos(s.drop_first(), x)
    } else {
        0int
    }
}

/// `x` inserted into the descending run `s`, stably.
pub open spec fn insert_desc(s: Seq<(i64, int)>, x: (i64, int)) -> Seq<(i64, int)> {
    s.insert(insert_pos(s, x), x)
}

/// The stable descending sort of score/index pairs.
pub open spec fn sort_desc(s: Seq<(i64, int)>) -> Seq<(i64, int)>
    decreases s.len(),
{
    if s.len() == 0 {
        Seq::empty()
    } else {
        insert_desc(sort_desc(s.drop_last()), s.last())
    }
}

/// Whether the pairs of `s` are in descending score order.
pub open spec fn sorted_desc(s: Seq<(i64, int)>) -> bool {
    forall|a: int, b: int| 0 <= a < b < s.len() ==> (#[trigger] s[a]).0 >= (#[trigger] s[b]).0
}

/// The score/index pairs of a score sequence, in cache order.
pub open spec fn pairs_of(scores: Seq<i64>) -> Seq<(i64, int)> {
    scores.map(|i: int, s: i64| (s, i))
}

/// The cache positions in rank order: sorted descending by score, ties in
/// cache order.
pub open spec fn rank_order(scores: Seq<i64>) -> Seq<int> {
    sort_desc(pairs_of(scores)).map_values(|t: (i64, int)| t.1)
}

proof fn lemma_insert_pos_bounds(s: Seq<(i64, int)>, x: (i64, int))
    ensures
        0 <= insert_pos(s, x) <= s.len(),
        forall|j: int| 0 <= j < insert_pos(s, x) ==> (#[trigger] s[j]).0 >= x.0,
        insert_pos(s, x) < s.len() ==> s[insert_pos(s, x)].0 < x.0,
    decreases s.len(),
{
    if s.len() > 0 && s[0].0 >= x.0 {
        lemma_insert_pos_bounds(s.drop_first(), x);
        let p = insert_pos(s, x);
        assert forall|j: int| 0 <= j < p implies (#[trigger] s[j]).0 >= x.0 by {
            if j > 0 {
                assert(s.drop_first()[j - 1] == s[j]);
            }
        }
        if p < s.len() {
            assert(s.drop_first()[p - 1] == s[p]);
        }
    }
}

proof fn lemma_insert_desc_sorted(s: Seq<(i64, int)>, x: (i64, int))
    requires
        sorted_desc(s),
    ensures
        sorted_desc(insert_desc(s, x)),
        insert_desc(s, x).len() == s.len() + 1,
        insert_desc(s, x).to_multiset() == s.to_multiset().insert(x),
{
    lemma_insert_pos_bounds(s, x);
    let p = insert_pos(s, x);
    let t = insert_desc(s, x);
    assert forall|a: int, b: int| 0 <= a < b < t.len() implies (#[trigger] t[a]).0 >= (
    #[trigger] t[b]).0 by {
        if a < p && b < p {
        } else if a == p && b > p {
            assert(t[b] == s[b - 1]);
            assert(s[p].0 < x.0);
            assert(s[p].0 >= s[b - 1].0);
        } else if a < p && b == p {
            assert(t[a] == s[a]);
        } else if a < p && b > p {
            assert(t[a] == s[a]);
            assert(t[b] == s[b - 1]);
        } else if a > p && b > p {
            assert(t[a] == s[a - 1]);
            assert(t[b] == s[b - 1]);
        }
    }
}

/// The sorted pairs are exactly the original pairs, rearranged.
proof fn lemma_sort_desc_props(s: Seq<(i64, int)>)
    ensures
        sorted_desc(sort_desc(s)),
        sort_desc(s).len() == s.len(),
        sort_desc(s).to_multiset() == s.to_multiset(),
    decreases s.len(),
{
    if s.len() > 0 {
        lemma_sort_desc_props(s.drop_last());
        lemma_insert_desc_sorted(sort_desc(s.drop_last()), s.last());
        assert(s =~= s.drop_last().push(s.last()));
        assert(s.drop_last().push(s.last()).to_multiset() == s.drop_last().to_multiset().insert(
            s.last(),
        ));
    }
}

/// Every sorted pair is one of the originals.
proof fn lemma_sort_desc_membership(s: Seq<(i64, int)>, j: int)
    requires
        0 <= j < sort_desc(s).len(),
    ensures
        s.contains(sort_desc(s)[j]),
{
    lemma_sort_desc_props(s);
    let e = sort_desc(s)[j];
    assert(sort_desc(s).contains(e));
    assert(sort_desc(s).to_multiset().count(e) > 0);
}

/// Ranking stability: the rank order visits every cache position exactly
/// once, and a higher-scoring entry always ranks before a lower-scoring
/// one.
pub proof fn lemma_ranking_stability(scores: Seq<i64>)
    ensures
        rank_order(scores).len() == scores.len(),
        forall|a: int|
            0 <= a < scores.len() ==> 0 <= #[trigger] rank_order(scores)[a] < scores.len(),
        forall|a: int, b: int|
            0 <= a < b < scores.len() ==> scores[#[trigger] rank_order(scores)[a]] >= scores[
                #[trigger] rank_order(scores)[b]
            ],
        rank_order(scores).to_multiset() == Seq::new(scores.len(), |i: int| i).to_multiset(),
{
    let pairs = pairs_of(scores);
    let sorted = sort_desc(pairs);
    lemma_sort_desc_props(pairs);
    assert forall|a: int| 0 <= a < scores.len() implies 0 <= #[trigger] rank_order(scores)[a]
        < scores.len() && scores[rank_order(scores)[a]] == sorted[a].0 by {
        lemma_sort_desc_membership(pairs, a);
        let e = sorted[a];
        let i = choose|i: int| 0 <= i < pairs.len() && pairs[i] == e;
        assert(pairs[i] == (scores[i], i));
        assert(rank_order(scores)[a] == e.1);
    }
    assert forall|a: int, b: int| 0 <= a < b < scores.len() implies scores[
        #[trigger] rank_order(scores)[a]
    ] >= scores[#[trigger] rank_order(scores)[b]] by {
        assert(sorted[a].0 >= sorted[b].0);
    }
    lemma_rank_order_permutation(scores);
}

proof fn lemma_rank_order_permutation(scores: Seq<i64>)
    ensures
        rank_order(scores).to_multiset() == Seq::new(scores.len(), |i: int| i).to_multiset(),
{
    let pairs = pairs_of(scores);
    let sorted = sort_desc(pairs);
    lemma_sort_desc_props(pairs);
    lemma_map_snd_multiset(sorted, pairs);
    let f = |t: (i64, int)| t.1;
    assert(rank_order(scores) =~= sorted.map_values(f));
    assert(pairs.map_values(f) =~= Seq::new(scores.len(), |i: int| i));
}

/// Whether every entry's score is present.
pub open spec fn all_some(scores: Seq<Option<i64>>) -> bool {
    forall|i: int| 0 <= i < scores.len() ==> (#[trigger] scores[i]) is Some
}

/// The scores, once all are present.
pub open spec fn somes(scores: Seq<Option<i64>>) -> Seq<i64> {
    scores.map_values(|o: Option<i64>| o->Some_0)
}

/// The position of the first entry whose score is missing.
pub open spec fn first_none(scores: Seq<Option<i64>>) -> int
    decreases scores.len(),
{
    if scores.len() == 0 {
        0int
    } else if scores[0] is None {
        0int
    } else {
        1 + first_none(scores.drop_first())
    }
}

proof fn lemma_first_none_at(scores: Seq<Option<i64>>, i: int)
    requires
        0 <= i < scores.len(),
        scores[i] is None,
        forall|j: int| 0 <= j < i ==> (#[trigger] scores[j]) is Some,
    ensures
        first_none(scores) == i,
    decreases i,
{
    if i > 0 {
        lemma_first_none_at(scores.drop_first(), i - 1);
    }
}

/// The message of a ranking failure: names the cache entry whose stored
/// embedding could not be deserialized.
pub open spec fn rank_error_message(r: EmbeddingRowModel) -> Seq<char> {
    "Failed to deserialize embedding for file: "@ + r.name + " and section: "@ + r.header
        + " with embedding: "@ + r.embedding
}

/// The suggestion presented for a cache entry.
pub open spec fn suggestion_of(r: EmbeddingRowModel) -> SuggestionsModel {
    SuggestionsModel { name: r.name, header: r.header }
}

/// The view of executable score/position pairs.
pub open spec fn exec_pairs_view(v: Seq<(i64, usize)>) -> Seq<(i64, int)> {
    v.map_values(|t: (i64, usize)| (t.0, t.1 as int))
}

fn find_insert_pos(sorted: &Vec<(i64, usize)>, score: i64) -> (p: usize)
    ensures
        forall|idx: int| #[trigger] insert_pos(exec_pairs_view(sorted@), (score, idx)) == p,
        p <= sorted@.len(),
{
    let ghost s = exec_pairs_view(sorted@);
    proof {
        assert(s.skip(0) =~= s);
    }
    let mut j: usize = 0;
    while j < sorted.len() && sorted[j].0 >= score
        invariant
            j <= sorted@.len(),
            s == exec_pairs_view(sorted@),
            forall|idx: int| #[trigger] insert_pos(s, (score, idx)) == j + insert_pos(
                s.skip(j as int),
                (score, idx),
            ),
        decreases sorted@.len() - j,
    {
        proof {
            assert forall|idx: int| #[trigger] insert_pos(s, (score, idx)) == j + 1 + insert_pos(
                s.skip(j + 1),
                (score, idx),
            ) by {
                assert(s.skip(j as int).len() > 0);
                assert(s.skip(j as int)[0] == s[j as int]);
                assert(s.skip(j as int).drop_first() =~= s.skip(j + 1));
            }
        }
        j = j + 1;
    }
    proof {
        assert forall|idx: int| #[trigger] insert_pos(s, (score, idx)) == j as int by {
            if j < sorted@.len() {
                assert(s.skip(j as int)[0] == s[j as int]);
                assert(insert_pos(s.skip(j as int), (score, idx)) == 0);
            } else {
                assert(s.skip(j as int) =~= Seq::<(i64, int)>::empty());
            }
        }
    }
    j
}

/// Ranks the cached entries against their scores, descending; ties keep
/// cache order; the result is cut to the `k` best.
///
/// A missing score means the entry's stored embedding could not be
/// deserialized: the whole call fails, naming the first offending entry in
/// cache order. With every score present the call succeeds.
pub fn rank_suggestions(rows: &Vec<EmbeddingRow>, scores: &Vec<Option<i64>>, k: usize) -> (res:
    Result<Vec<Suggestions>, SemanticSearchError>)
    requires
        rows@.len() == scores@.len(),
    ensures
        res is Ok <==> all_some(scores@),
        res matches Ok(out) ==> ({
            let ord = rank_order(somes(scores@));
            &&& out@.len() == (if k <= rows@.len() {
                k as int
            } else {
                rows@.len() as int
            })
            &&& forall|j: int|
                0 <= j < out@.len() ==> (#[trigger] out@[j])@ == suggestion_of(rows@[ord[j]]@)
        }),
        res matches Err(e) ==> !all_some(scores@) && e@ == rank_error_message(
            rows@[first_none(scores@)]@,
        ),
{
    let n = rows.len();
    let mut i: usize = 0;
    while i < n
        invariant
            i <= n,
            n == rows@.len() == scores@.len(),
            forall|j: int| 0 <= j < i ==> (#[trigger] scores@[j]) is Some,
        decreases n - i,
    {
        if scores[i].is_none() {
            proof {
                lemma_first_none_at(scores@, i as int);
            }
            let r = &rows[i];
            let mut msg = String::from_str("Failed to deserialize embedding for file: ");
            msg.append(r.name.as_str());
            msg.append(" and section: ");
            msg.append(r.header.as_str());
            msg.append(" with embedding: ");
            msg.append(r.embedding.as_str());
            return Err(SemanticSearchError::new(msg));
        }
        i = i + 1;
    }
    let ghost sc = somes(scores@);
    let mut pairs: Vec<(i64, usize)> = Vec::new();
    proof {
        assert(exec_pairs_view(pairs@) =~= pairs_of(sc).subrange(0, 0));
    }
    let mut i: usize = 0;
    while i < n
        invariant
            i <= n,
            n == rows@.len() == scores@.len(),
            all_some(scores@),
            sc == somes(scores@),
            exec_pairs_view(pairs@) == pairs_of(sc).subrange(0, i as int),
            pairs@.len() == i,
            forall|j: int| 0 <= j < pairs@.len() ==> (#[trigger] pairs@[j]).1 < n,
        decreases n - i,
    {
        let s = match scores[i] {
            Some(s) => s,
            None => {
                proof {
                    assert(scores@[i as int] is Some);
                }
                unreached()
            },
        };
        pairs.push((s, i));
        proof {
            assert(exec_pairs_view(pairs@) =~= pairs_of(sc).subrange(0, i + 1));
        }
        i = i + 1;
    }
    proof {
        assert(pairs_of(sc).subrange(0, n as int) =~= pairs_of(sc));
    }
    let mut sorted: Vec<(i64, usize)> = Vec::new();
    proof {
        assert(exec_pairs_view(sorted@) =~= sort_desc(exec_pairs_view(pairs@).subrange(0, 0)));
    }
    let mut i: usize = 0;
    while i < n
        invariant
            i <= n,
            n == rows@.len(),
            pairs@.len() == n,
            forall|j: int| 0 <= j < pairs@.len() ==> (#[trigger] pairs@[j]).1 < n,
            exec_pairs_view(sorted@) == sort_desc(exec_pairs_view(pairs@).subrange(0, i as int)),
            sorted@.len() == i,
            forall|j: int| 0 <= j < sorted@.len() ==> (#[trigger] sorted@[j]).1 < n,
        decreases n - i,
    {
        let x = pairs[i];
        let p = find_insert_pos(&sorted, x.0);
        let ghost pre_elems = sorted@;
        let ghost pre = exec_pairs_view(sorted@);
        sorted.insert(p, x);
        proof {
            assert(exec_pairs_view(sorted@) =~= pre.insert(p as int, (x.0, x.1 as int)));
            let whole = exec_pairs_view(pairs@).subrange(0, i + 1);
            assert(whole.drop_last() =~= exec_pairs_view(pairs@).subrange(0, i as int));
            assert(whole.last() == (x.0, x.1 as int));
            assert(exec_pairs_view(sorted@) == sort_desc(whole));
            assert forall|j: int| 0 <= j < sorted@.len() implies (#[trigger] sorted@[j]).1 < n by {
                let v = exec_pairs_view(sorted@);
                assert(v[j] == (sorted@[j].0, sorted@[j].1 as int));
                if j < p {
                    assert(v[j] == pre[j]);
                    assert(pre[j] == (pre_elems[j].0, pre_elems[j].1 as int));
                } else if j > p {
                    assert(v[j] == pre[j - 1]);
                    assert(pre[j - 1] == (pre_elems[j - 1].0, pre_elems[j - 1].1 as int));
                }
            }
        }
        i = i + 1;
    }
    proof {
        assert(exec_pairs_view(pairs@).subrange(0, n as int) =~= exec_pairs_view(pairs@));
        assert(exec_pairs_view(pairs@) =~= pairs_of(sc));
    }
    let mut out: Vec<Suggestions> = Vec::new();
    let ghost ord = rank_order(sc);
    proof {
        assert(ord =~= exec_pairs_view(sorted@).map_values(|t: (i64, int)| t.1));
    }
    let mut j: usize = 0;
    while j < sorted.len() && j < k
        invariant
            j <= sorted@.len(),
            j <= k,
            n == rows@.len(),
            sorted@.len() == n,
            forall|q: int| 0 <= q < sorted@.len() ==> (#[trigger] sorted@[q]).1 < n,
            ord == rank_order(sc),
            forall|q: int| 0 <= q < sorted@.len() ==> ord[q] == (#[trigger] sorted@[q]).1 as int,
            out@.len() == j,
            forall|q: int|
                0 <= q < out@.len() ==> (#[trigger] out@[q])@ == suggestion_of(rows@[ord[q]]@),
        decreases sorted@.len() - j,
    {
        let idx = sorted[j].1;
        let r = &rows[idx];
        out.push(Suggestions { name: r.name.clone(), header: r.header.clone() });
        j = j + 1;
    }
    Ok(out)
}

/// When two pair sequences hold the same pairs, their second components
/// form the same multiset; applied with the identity mapping on the
/// original pairs, whose second components are exactly `0..n`.
proof fn lemma_map_snd_multiset(a: Seq<(i64, int)>, b: Seq<(i64, int)>)
    requires
        a.to_multiset() == b.to_multiset(),
    ensures
        a.map_values(|t: (i64, int)| t.1).to_multiset() == b.map_values(
            |t: (i64, int)| t.1,
        ).to_multiset(),
    decreases a.len(),
{
    broadcast use vstd::seq_lib::group_seq_properties;

    if a.len() == 0 {
        assert(b.to_multiset().len() == 0);
        assert(b =~= Seq::<(i64, int)>::empty());
        assert(a.map_values(|t: (i64, int)| t.1) =~= Seq::<int>::empty());
        assert(b.map_values(|t: (i64, int)| t.1) =~= Seq::<int>::empty());
    } else {
        let x = a.last();
        assert(a.to_multiset().count(x) > 0);
        assert(b.to_multiset().count(x) > 0);
        assert(b.contains(x));
        let i = choose|i: int| 0 <= i < b.len() && b[i] == x;
        let b2 = b.remove(i);
        assert(a.drop_last().to_multiset() == b2.to_multiset()) by {
            assert(a =~= a.drop_last().push(x));
            assert(a.drop_last().push(x).to_multiset() == a.drop_last().to_multiset().insert(x));
            assert(b2.to_multiset() == b.to_multiset().remove(x));
        }
        lemma_map_snd_multiset(a.drop_last(), b2);
        let f = |t: (i64, int)| t.1;
        assert(a.map_values(f) =~= a.drop_last().map_values(f).push(x.1));
        assert(b.map_values(f).remove(i) =~= b2.map_values(f));
        assert(b.map_values(f).to_multiset().remove(x.1) == b2.map_values(f).to_multiset());
        assert(a.map_values(f).to_multiset() == a.drop_last().map_values(f).to_multiset().insert(
            x.1,
        ));
        assert(b.map_values(f)[i] == x.1);
        assert(b.map_values(f).to_multiset() == b.map_values(f).remove(i).to_multiset().insert(
            x.1,
        ));
    }
}

} // verus!
