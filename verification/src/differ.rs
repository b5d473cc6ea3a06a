//! Change detection: partitioning freshly extracted units into those that
//! must be re-embedded and those whose cached vector can be reused.
//!
//! The only staleness signal is the document's modification time: a unit is
//! reusable exactly when the most recent cache entry for its document
//! carries the same modification time; any mismatch re-embeds every unit of
//! that document.

use vstd::prelude::*;

use crate::rows::{
    embedding_rows_view, input_rows_view, EmbeddingRow, EmbeddingRowModel, InputRow, InputRowModel,
};

verus! {

/// The cache entry governing `name`: when a cache holds several entries for
/// one document, the one inserted last wins.
pub open spec fn lookup_prev(prev: Seq<EmbeddingRowModel>, name: Seq<char>) -> Option<
    EmbeddingRowModel,
>
    decreases prev.len(),
{
    if prev.len() == 0 {
        None
    } else if prev.last().name == name {
        Some(prev.last())
    } else {
        lookup_prev(prev.drop_last(), name)
    }
}

/// Whether unit `r` can reuse a cached vector: its document has a cache
/// entry and that entry's modification time equals the unit's.
pub open spec fn reusable(r: InputRowModel, prev: Seq<EmbeddingRowModel>) -> bool {
    match lookup_prev(prev, r.name) {
        Some(e) => e.mtime == r.mtime,
        None => false,
    }
}

/// The entry carried forward for a reusable unit: identity and current
/// section label from the unit, embedding from the cache.
pub open spec fn carried(r: InputRowModel, prev: Seq<EmbeddingRowModel>) -> EmbeddingRowModel
    recommends
        lookup_prev(prev, r.name) is Some,
{
    EmbeddingRowModel {
        name: r.name,
        mtime: r.mtime,
        header: r.section,
        embedding: lookup_prev(prev, r.name)->Some_0.embedding,
    }
}

/// The units of `input` that need a fresh embedding, in input order.
pub open spec fn stale_of(input: Seq<InputRowModel>, prev: Seq<EmbeddingRowModel>) -> Seq<
    InputRowModel,
>
    decreases input.len(),
{
    if input.len() == 0 {
        Seq::empty()
    } else {
        let rest = stale_of(input.drop_last(), prev);
        if reusable(input.last(), prev) {
            rest
        } else {
            rest.push(input.last())
        }
    }
}

/// The entries carried forward for the reusable units of `input`, in input
/// order.
pub open spec fn reused_of(input: Seq<InputRowModel>, prev: Seq<EmbeddingRowModel>) -> Seq<
    EmbeddingRowModel,
>
    decreases input.len(),
{
    if input.len() == 0 {
        Seq::empty()
    } else {
        let rest = reused_of(input.drop_last(), prev);
        if reusable(input.last(), prev) {
            rest.push(carried(input.last(), prev))
        } else {
            rest
        }
    }
}

/// Diff correctness: a unit whose document's cached modification time
/// matches is carried to the reusable entries; a unit with any mismatch is
/// stale; and nothing stale is reusable.
pub proof fn lemma_diff_correct(
    input: Seq<InputRowModel>,
    prev: Seq<EmbeddingRowModel>,
    i: int,
)
    requires
        0 <= i < input.len(),
    ensures
        reusable(input[i], prev) ==> reused_of(input, prev).contains(carried(input[i], prev)),
        !reusable(input[i], prev) ==> stale_of(input, prev).contains(input[i]),
    decreases input.len(),
{
    if i == input.len() - 1 {
        if reusable(input[i], prev) {
            assert(reused_of(input, prev).last() == carried(input[i], prev));
        } else {
            assert(stale_of(input, prev).last() == input[i]);
        }
    } else {
        lemma_diff_correct(input.drop_last(), prev, i);
        assert(input.drop_last()[i] == input[i]);
        if reusable(input[i], prev) {
            let e = carried(input[i], prev);
            let j = choose|j: int|
                0 <= j < reused_of(input.drop_last(), prev).len() && reused_of(
                    input.drop_last(),
                    prev,
                )[j] == e;
            assert(reused_of(input, prev)[j] == e);
        } else {
            let j = choose|j: int|
                0 <= j < stale_of(input.drop_last(), prev).len() && stale_of(
                    input.drop_last(),
                    prev,
                )[j] == input[i];
            assert(stale_of(input, prev)[j] == input[i]);
        }
    }
}

/// Every stale unit really is one with a modification-time mismatch.
pub proof fn lemma_stale_only_mismatched(input: Seq<InputRowModel>, prev: Seq<EmbeddingRowModel>)
    ensures
        forall|j: int|
            0 <= j < stale_of(input, prev).len() ==> !reusable(
                #[trigger] stale_of(input, prev)[j],
                prev,
            ),
    decreases input.len(),
{
    if input.len() > 0 {
        lemma_stale_only_mismatched(input.drop_last(), prev);
        let rest = stale_of(input.drop_last(), prev);
        let whole = stale_of(input, prev);
        assert forall|j: int| 0 <= j < whole.len() implies !reusable(whole[j], prev) by {
            if j < rest.len() {
                assert(whole[j] == rest[j]);
            } else {
                assert(whole[j] == input.last());
            }
        }
    }
}

fn lookup_prev_exec(prev: &Vec<EmbeddingRow>, name: &String) -> (r: Option<usize>)
    ensures
        match r {
            Some(i) => i < prev@.len() && lookup_prev(embedding_rows_view(prev@), name@) == Some(
                prev@[i as int]@,
            ),
            None => lookup_prev(embedding_rows_view(prev@), name@) is None,
        },
{
    let ghost views = embedding_rows_view(prev@);
    proof {
        assert(views.take(prev@.len() as int) =~= views);
    }
    let mut j: usize = prev.len();
    while j > 0
        invariant
            j <= prev@.len(),
            views == embedding_rows_view(prev@),
            lookup_prev(views, name@) == lookup_prev(views.take(j as int), name@),
        decreases j,
    {
        proof {
            assert(views.take(j as int).last() == prev@[j - 1]@);
            assert(views.take(j as int).drop_last() =~= views.take(j - 1));
        }
        if prev[j - 1].name == *name {
            return Some(j - 1);
        }
        j = j - 1;
    }
    proof {
        assert(views.take(0) =~= Seq::<EmbeddingRowModel>::empty());
    }
    None
}

/// Partitions freshly extracted units against the previously persisted
/// cache.
///
/// With no previous cache every unit is stale, no entry is reusable, and
/// the modified count equals the total unit count. Against a cache, a unit
/// whose document's cached modification time equals its own moves to the
/// reusable entries, carrying the cached embedding under the unit's current
/// section label; every other unit is stale, and the modified count is the
/// number of stale units.
pub fn diff(input: Vec<InputRow>, prev: Option<Vec<EmbeddingRow>>) -> (res: (
    i64,
    Vec<InputRow>,
    Vec<EmbeddingRow>,
))
    requires
        input@.len() <= i64::MAX,
    ensures
        prev is None ==> res.0 == input@.len() && res.1 == input && res.2@.len() == 0,
        prev matches Some(p) ==> {
            &&& input_rows_view(res.1@) == stale_of(input_rows_view(input@), embedding_rows_view(
                p@,
            ))
            &&& embedding_rows_view(res.2@) == reused_of(
                input_rows_view(input@),
                embedding_rows_view(p@),
            )
            &&& res.0 == input_rows_view(res.1@).len()
        },
{
    match prev {
        None => {
            let n = input.len() as i64;
            (n, input, Vec::new())
        },
        Some(p) => {
            let ghost iviews = input_rows_view(input@);
            let ghost pviews = embedding_rows_view(p@);
            let mut stale: Vec<InputRow> = Vec::new();
            let mut reused: Vec<EmbeddingRow> = Vec::new();
            proof {
                assert(input_rows_view(stale@) =~= Seq::<InputRowModel>::empty());
                assert(embedding_rows_view(reused@) =~= Seq::<EmbeddingRowModel>::empty());
                assert(iviews.take(0) =~= Seq::<InputRowModel>::empty());
            }
            let mut i: usize = 0;
            while i < input.len()
                invariant
                    i <= input@.len(),
                    iviews == input_rows_view(input@),
                    pviews == embedding_rows_view(p@),
                    input_rows_view(stale@) == stale_of(iviews.take(i as int), pviews),
                    embedding_rows_view(reused@) == reused_of(iviews.take(i as int), pviews),
                    stale@.len() <= i,
                decreases input@.len() - i,
            {
                let r = &input[i];
                proof {
                    assert(iviews.take(i + 1).last() == r@);
                    assert(iviews.take(i + 1).drop_last() =~= iviews.take(i as int));
                }
                let hit = lookup_prev_exec(&p, &r.name);
                let mut is_reusable = false;
                let mut embedding = String::new();
                match hit {
                    Some(idx) => {
                        if p[idx].mtime == r.mtime {
                            is_reusable = true;
                            embedding = p[idx].embedding.clone();
                        }
                    },
                    None => {},
                }
                if is_reusable {
                    let e = EmbeddingRow {
                        name: r.name.clone(),
                        mtime: r.mtime.clone(),
                        header: r.section.clone(),
                        embedding,
                    };
                    reused.push(e);
                    proof {
                        assert(embedding_rows_view(reused@) =~= reused_of(
                            iviews.take(i as int),
                            pviews,
                        ).push(carried(r@, pviews)));
                    }
                } else {
                    stale.push(r.clone());
                    proof {
                        assert(input_rows_view(stale@) =~= stale_of(
                            iviews.take(i as int),
                            pviews,
                        ).push(r@));
                    }
                }
                i = i + 1;
            }
            proof {
                assert(iviews.take(input@.len() as int) =~= iviews);
            }
            let n = stale.len() as i64;
            (n, stale, reused)
        },
    }
}

} // verus!
