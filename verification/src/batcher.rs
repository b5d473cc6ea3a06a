//! Batched embedding: splitting the stale units into a fixed number of
//! batches, checking each provider response for alignment, zipping the
//! returned vectors back onto their units, and folding the reusable entries
//! into the first write of the cycle.

use vstd::prelude::*;

use crate::errors::SemanticSearchError;
use crate::rows::{
    embedding_rows_view, input_rows_view, EmbeddingRow, EmbeddingRowModel, InputRow, InputRowModel,
};
use crate::strutil::{dec_digits, usize_to_string};

verus! {

/// `n / k`, rounded up.
pub open spec fn ceil_div(n: int, k: int) -> int
    recommends
        k >= 1,
{
    n / k + if n % k == 0 {
        0int
    } else {
        1int
    }
}

/// The `(start, length)` batches covering `start..total` with `k` batches
/// left: each batch takes `bs` units (or what remains, if less), and the
/// last batch takes everything that remains.
pub open spec fn batch_plan_from(total: int, start: int, k: int, bs: int) -> Seq<(int, int)>
    decreases k,
        when k >= 1
{
    if start >= total {
        Seq::empty()
    } else if k <= 1 {
        seq![(start, total - start)]
    } else {
        let len = if bs <= total - start {
            bs
        } else {
            total - start
        };
        seq![(start, len)] + batch_plan_from(total, start + len, k - 1, bs)
    }
}

/// The batches an embedding cycle over `n` stale units runs with a
/// configured batch count of `k`: batch size `ceil(n / k)`, the final batch
/// taking whatever remains.
pub open spec fn batch_plan_spec(n: int, k: int) -> Seq<(int, int)>
    recommends
        k >= 1,
{
    batch_plan_from(n, 0, k, ceil_div(n, k))
}

/// The view of an executable plan.
pub open spec fn plan_view(p: Seq<(usize, usize)>) -> Seq<(int, int)> {
    p.map_values(|t: (usize, usize)| (t.0 as int, t.1 as int))
}

/// The bodies of the batch of `s` described by one plan entry, batch by
/// batch, in plan order.
pub open spec fn concat_batches(s: Seq<InputRowModel>, plan: Seq<(int, int)>) -> Seq<
    InputRowModel,
>
    decreases plan.len(),
{
    if plan.len() == 0 {
        Seq::empty()
    } else {
        s.subrange(plan[0].0, plan[0].0 + plan[0].1) + concat_batches(s, plan.drop_first())
    }
}

proof fn lemma_batches_cover_from(s: Seq<InputRowModel>, start: int, k: int, bs: int)
    requires
        1 <= k,
        0 <= start <= s.len(),
        bs >= 0,
    ensures
        concat_batches(s, batch_plan_from(s.len() as int, start, k, bs)) == s.skip(start),
    decreases k,
{
    let total = s.len() as int;
    if start >= total {
        assert(s.skip(start) =~= Seq::<InputRowModel>::empty());
    } else if k <= 1 {
        let plan = batch_plan_from(total, start, k, bs);
        assert(plan[0] == (start, total - start));
        assert(plan.drop_first() =~= Seq::<(int, int)>::empty());
        assert(concat_batches(s, plan.drop_first()) =~= Seq::<InputRowModel>::empty());
        assert(s.subrange(start, total) + Seq::<InputRowModel>::empty() =~= s.skip(start));
    } else {
        let len = if bs <= total - start {
            bs
        } else {
            total - start
        };
        lemma_batches_cover_from(s, start + len, k - 1, bs);
        let plan = batch_plan_from(total, start, k, bs);
        assert(plan[0] == (start, len));
        assert(plan.drop_first() =~= batch_plan_from(total, start + len, k - 1, bs));
        assert(s.subrange(start, start + len) + s.skip(start + len) =~= s.skip(start));
    }
}

/// Batch coverage and order: concatenating the batches of the plan, in
/// batch order, reproduces the stale-unit sequence exactly.
pub proof fn lemma_batches_cover(s: Seq<InputRowModel>, k: int)
    requires
        k >= 1,
    ensures
        concat_batches(s, batch_plan_spec(s.len() as int, k)) == s,
{
    lemma_batches_cover_from(s, 0, k, ceil_div(s.len() as int, k));
    assert(s.skip(0) =~= s);
}

/// The computed batch plan, as executable values.
pub fn plan_batches(n: usize, k: u32) -> (plan: Vec<(usize, usize)>)
    requires
        k >= 1,
    ensures
        plan_view(plan@) == batch_plan_spec(n as int, k as int),
{
    let q = n / (k as usize);
    let r = n % (k as usize);
    let bs: usize = if r == 0 {
        q
    } else {
        proof {
            assert(n as int / (k as int) < n as int) by (nonlinear_arith)
                requires
                    1 <= k as int,
                    n as int % (k as int) != 0,
            ;
        }
        q + 1
    };
    let mut plan: Vec<(usize, usize)> = Vec::new();
    let mut start: usize = 0;
    let mut left: u32 = k;
    proof {
        assert(plan_view(plan@) =~= Seq::<(int, int)>::empty());
    }
    while start < n && left > 1
        invariant
            1 <= left <= k,
            start <= n,
            bs == ceil_div(n as int, k as int),
            plan_view(plan@) + batch_plan_from(n as int, start as int, left as int, bs as int)
                == batch_plan_spec(n as int, k as int),
        decreases left,
    {
        let len = if bs <= n - start {
            bs
        } else {
            n - start
        };
        let ghost before = plan_view(plan@);
        plan.push((start, len));
        proof {
            assert(plan_view(plan@) =~= before + seq![(start as int, len as int)]);
            assert(before + (seq![(start as int, len as int)] + batch_plan_from(
                n as int,
                start + len,
                left - 1,
                bs as int,
            )) =~= plan_view(plan@) + batch_plan_from(n as int, start + len, left - 1, bs as int));
        }
        start = start + len;
        left = left - 1;
    }
    if start < n {
        let ghost before = plan_view(plan@);
        plan.push((start, n - start));
        proof {
            assert(batch_plan_from(n as int, start as int, left as int, bs as int) =~= seq![
                (start as int, n - start as int),
            ]);
            assert(plan_view(plan@) =~= before + seq![(start as int, n - start as int)]);
        }
    } else {
        proof {
            assert(batch_plan_from(n as int, start as int, left as int, bs as int) =~= Seq::<
                (int, int),
            >::empty());
        }
    }
    proof {
        assert(plan_view(plan@) + Seq::<(int, int)>::empty() =~= plan_view(plan@));
    }
    plan
}

/// The cache entries built by zipping one batch of units with the vectors
/// the provider returned for it, pairwise in order.
pub open spec fn zip_rows(records: Seq<InputRowModel>, embs: Seq<Seq<char>>) -> Seq<
    EmbeddingRowModel,
>
    recommends
        records.len() == embs.len(),
    decreases records.len(),
{
    if records.len() == 0 {
        Seq::empty()
    } else {
        zip_rows(records.drop_last(), embs.drop_last()).push(
            EmbeddingRowModel {
                name: records.last().name,
                mtime: records.last().mtime,
                header: records.last().section,
                embedding: embs.last(),
            },
        )
    }
}

/// Concatenating outputs preserves alignment: zipping each batch with its
/// response and concatenating the results equals zipping the whole unit
/// sequence with the concatenated responses.
pub proof fn lemma_outputs_aligned(
    a: Seq<InputRowModel>,
    b: Seq<InputRowModel>,
    c: Seq<Seq<char>>,
    d: Seq<Seq<char>>,
)
    requires
        a.len() == c.len(),
        b.len() == d.len(),
    ensures
        zip_rows(a + b, c + d) == zip_rows(a, c) + zip_rows(b, d),
    decreases b.len(),
{
    if b.len() == 0 {
        assert(a + b =~= a);
        assert(c + d =~= c);
        assert(zip_rows(a, c) + zip_rows(b, d) =~= zip_rows(a, c));
    } else {
        lemma_outputs_aligned(a, b.drop_last(), c, d.drop_last());
        assert((a + b).drop_last() =~= a + b.drop_last());
        assert((c + d).drop_last() =~= c + d.drop_last());
        assert((a + b).last() == b.last());
        assert((c + d).last() == d.last());
        let e = EmbeddingRowModel {
            name: b.last().name,
            mtime: b.last().mtime,
            header: b.last().section,
            embedding: d.last(),
        };
        assert(zip_rows(a + b, c + d) == (zip_rows(a, c) + zip_rows(
            b.drop_last(),
            d.drop_last(),
        )).push(e));
        assert((zip_rows(a, c) + zip_rows(b.drop_last(), d.drop_last())).push(e) =~= zip_rows(
            a,
            c,
        ) + zip_rows(b.drop_last(), d.drop_last()).push(e));
    }
}

/// The message of an alignment error: the batch asked for one embedding per
/// unit and the provider returned a different number.
pub open spec fn align_error_message(requested: int, got: int) -> Seq<char> {
    "Requested for "@ + dec_digits(requested as nat) + " embeddings but got "@ + dec_digits(
        got as nat,
    )
}

/// The bodies of a sequence of units, in order.
pub open spec fn bodies_of(records: Seq<InputRowModel>) -> Seq<Seq<char>> {
    records.map_values(|r: InputRowModel| r.body)
}

/// The views of a vector of strings.
pub open spec fn strings_view(v: Seq<String>) -> Seq<Seq<char>> {
    v.map_values(|s: String| s@)
}

/// One embedding cycle: the stale units, the entries carried over from the
/// previous cache, and the batch plan. The provider is called once per
/// batch, strictly in plan order; the reusable entries ride along with the
/// first write, which is also the only one written with a header row.
pub struct EmbeddingCycle {
    /// The stale units, in extraction order.
    pub records: Vec<InputRow>,
    /// Entries carried forward from the previous cache; drained into the
    /// first batch's rows.
    pub reusable: Vec<EmbeddingRow>,
    /// The `(start, length)` batches over `records`.
    pub plan: Vec<(usize, usize)>,
    /// The index of the next batch to run.
    pub next: usize,
}

impl EmbeddingCycle {
    /// The plan entries partition `records` in order and `next` is within
    /// bounds.
    pub open spec fn wf(self) -> bool {
        &&& self.next <= self.plan@.len()
        &&& forall|i: int|
            0 <= i < self.plan@.len() ==> (#[trigger] self.plan@[i]).0 + self.plan@[i].1
                <= self.records@.len()
    }

    /// Starts a cycle over the stale units.
    pub fn new(records: Vec<InputRow>, reusable: Vec<EmbeddingRow>, num_batches: u32) -> (c: Self)
        requires
            num_batches >= 1,
        ensures
            c.wf(),
            c.records == records,
            c.reusable == reusable,
            c.next == 0,
            plan_view(c.plan@) == batch_plan_spec(records@.len() as int, num_batches as int),
    {
        let plan = plan_batches(records.len(), num_batches);
        proof {
            lemma_plan_within(records@.len() as int, num_batches as int);
            assert(forall|i: int|
                0 <= i < plan@.len() ==> plan_view(plan@)[i] == ((#[trigger] plan@[i]).0 as int, plan@[i].1 as int));
        }
        EmbeddingCycle { records, reusable, plan, next: 0 }
    }

    /// Whether a batch is still pending.
    pub fn has_pending(&self) -> (r: bool)
        ensures
            r == (self.next < self.plan@.len()),
    {
        self.next < self.plan.len()
    }

    /// The bodies of the next batch's units, to be sent to the provider.
    pub fn next_request(&self) -> (r: Option<Vec<String>>)
        requires
            self.wf(),
        ensures
            r is Some <==> self.next < self.plan@.len(),
            r matches Some(bodies) ==> strings_view(bodies@) == bodies_of(
                input_rows_view(self.records@).subrange(
                    self.plan@[self.next as int].0 as int,
                    self.plan@[self.next as int].0 + self.plan@[self.next as int].1,
                ),
            ),
    {
        if self.next >= self.plan.len() {
            return None;
        }
        let (start, len) = self.plan[self.next];
        let mut bodies: Vec<String> = Vec::new();
        let ghost batch = input_rows_view(self.records@).subrange(
            start as int,
            start + len,
        );
        proof {
            assert(strings_view(bodies@) =~= bodies_of(batch.subrange(0, 0)));
        }
        let mut i: usize = 0;
        while i < len
            invariant
                i <= len,
                start + len <= self.records.len(),
                batch == input_rows_view(self.records@).subrange(start as int, start + len),
                strings_view(bodies@) == bodies_of(batch.subrange(0, i as int)),
            decreases len - i,
        {
            bodies.push(self.records[start + i].body.clone());
            proof {
                assert(batch[i as int] == input_rows_view(self.records@)[start + i]);
                assert(batch[i as int].body == self.records@[start + i]@.body);
                assert(strings_view(bodies@) =~= bodies_of(batch.subrange(0, i as int)).push(
                    batch[i as int].body,
                ));
                assert(bodies_of(batch.subrange(0, i + 1)) =~= bodies_of(
                    batch.subrange(0, i as int),
                ).push(batch[i as int].body));
            }
            i = i + 1;
        }
        proof {
            assert(batch.subrange(0, len as int) =~= batch);
        }
        Some(bodies)
    }

    /// Consumes the provider's response for the pending batch.
    ///
    /// When the response holds exactly one serialized vector per unit, the
    /// new cache rows for the batch are returned, the reusable entries are
    /// appended to the first batch's rows, and the flag says whether this
    /// write is the cycle's first (the only one written with a header row).
    /// Any other response length is an alignment error naming the requested
    /// and received counts, and the cycle does not advance.
    pub fn apply_response(&mut self, embeddings: Vec<String>) -> (res: Result<
        (Vec<EmbeddingRow>, bool),
        SemanticSearchError,
    >)
        requires
            old(self).wf(),
            old(self).next < old(self).plan@.len(),
        ensures
            final(self).wf(),
            final(self).records == old(self).records,
            final(self).plan == old(self).plan,
            res matches Ok(out) ==> {
                &&& embeddings@.len() == old(self).plan@[old(self).next as int].1
                &&& final(self).next == old(self).next + 1
                &&& final(self).reusable@.len() == 0
                &&& out.1 == (old(self).next == 0)
                &&& embedding_rows_view(out.0@) == zip_rows(
                    input_rows_view(old(self).records@).subrange(
                        old(self).plan@[old(self).next as int].0 as int,
                        old(self).plan@[old(self).next as int].0 + old(self).plan@[old(
                            self,
                        ).next as int].1,
                    ),
                    strings_view(embeddings@),
                ) + embedding_rows_view(old(self).reusable@)
            },
            res matches Err(e) ==> {
                &&& embeddings@.len() != old(self).plan@[old(self).next as int].1
                &&& e@ == align_error_message(
                    old(self).plan@[old(self).next as int].1 as int,
                    embeddings@.len() as int,
                )
                &&& *final(self) == *old(self)
            },
    {
        let (start, len) = self.plan[self.next];
        if embeddings.len() != len {
            let mut msg = String::from_str("Requested for ");
            msg.append(usize_to_string(len).as_str());
            msg.append(" embeddings but got ");
            msg.append(usize_to_string(embeddings.len()).as_str());
            return Err(SemanticSearchError::new(msg));
        }
        let ghost batch = input_rows_view(self.records@).subrange(start as int, start + len);
        let ghost embs = strings_view(embeddings@);
        let mut out: Vec<EmbeddingRow> = Vec::new();
        proof {
            assert(embedding_rows_view(out@) =~= Seq::<EmbeddingRowModel>::empty());
            assert(batch.subrange(0, 0) =~= Seq::<InputRowModel>::empty());
            assert(embs.subrange(0, 0) =~= Seq::<Seq<char>>::empty());
        }
        let mut i: usize = 0;
        while i < len
            invariant
                i <= len,
                start + len <= self.records.len(),
                len == embeddings@.len(),
                batch == input_rows_view(self.records@).subrange(start as int, start + len),
                embs == strings_view(embeddings@),
                embedding_rows_view(out@) == zip_rows(
                    batch.subrange(0, i as int),
                    embs.subrange(0, i as int),
                ),
            decreases len - i,
        {
            let r = &self.records[start + i];
            let row = EmbeddingRow {
                name: r.name.clone(),
                mtime: r.mtime.clone(),
                header: r.section.clone(),
                embedding: embeddings[i].clone(),
            };
            out.push(row);
            proof {
                assert(batch.subrange(0, i + 1).drop_last() =~= batch.subrange(0, i as int));
                assert(embs.subrange(0, i + 1).drop_last() =~= embs.subrange(0, i as int));
                assert(batch.subrange(0, i + 1).last() == r@);
                assert(embs.subrange(0, i + 1).last() == embeddings@[i as int]@);
                assert(embedding_rows_view(out@) =~= zip_rows(
                    batch.subrange(0, i as int),
                    embs.subrange(0, i as int),
                ).push(
                    EmbeddingRowModel {
                        name: r@.name,
                        mtime: r@.mtime,
                        header: r@.section,
                        embedding: embeddings@[i as int]@,
                    },
                ));
            }
            i = i + 1;
        }
        proof {
            assert(batch.subrange(0, len as int) =~= batch);
            assert(embs.subrange(0, len as int) =~= embs);
        }
        let first = self.next == 0;
        let ghost reusable_before = embedding_rows_view(self.reusable@);
        let mut carried: Vec<EmbeddingRow> = Vec::new();
        core::mem::swap(&mut carried, &mut self.reusable);
        let ghost out_before = embedding_rows_view(out@);
        out.append(&mut carried);
        proof {
            assert(embedding_rows_view(out@) =~= out_before + reusable_before);
            assert(embedding_rows_view(self.reusable@) =~= Seq::<EmbeddingRowModel>::empty());
        }
        proof {
            assert(self.next < self.plan.len());
        }
        self.next = self.next + 1;
        Ok((out, first))
    }

    /// The write for a cycle with no stale units: per the cache contract
    /// the reusable entries are still persisted, in one write with a header
    /// row. Returns nothing when batches exist (they carry the entries) or
    /// when there is nothing to write.
    pub fn final_flush(&mut self) -> (r: Option<(Vec<EmbeddingRow>, bool)>)
        ensures
            final(self).records == old(self).records,
            final(self).plan == old(self).plan,
            final(self).next == old(self).next,
            r is Some <==> (old(self).plan@.len() == 0 && old(self).reusable@.len() > 0),
            r matches Some(out) ==> {
                &&& out.0 == old(self).reusable
                &&& out.1 == true
                &&& final(self).reusable@.len() == 0
            },
            r is None ==> *final(self) == *old(self),
    {
        if self.plan.len() == 0 && self.reusable.len() > 0 {
            let mut out: Vec<EmbeddingRow> = Vec::new();
            core::mem::swap(&mut out, &mut self.reusable);
            Some((out, true))
        } else {
            None
        }
    }
}

/// Every batch of the plan lies within bounds.
proof fn lemma_plan_within(n: int, k: int)
    requires
        k >= 1,
        n >= 0,
    ensures
        forall|i: int|
            0 <= i < batch_plan_spec(n, k).len() ==> 0 <= (#[trigger] batch_plan_spec(n, k)[i]).0
                && batch_plan_spec(n, k)[i].0 + batch_plan_spec(n, k)[i].1 <= n,
{
    lemma_plan_within_from(n, 0, k, ceil_div(n, k));
}

proof fn lemma_plan_within_from(total: int, start: int, k: int, bs: int)
    requires
        k >= 1,
        0 <= start <= total,
        bs >= 0,
    ensures
        forall|i: int|
            0 <= i < batch_plan_from(total, start, k, bs).len() ==> 0 <= (
            #[trigger] batch_plan_from(total, start, k, bs)[i]).0 && batch_plan_from(
                total,
                start,
                k,
                bs,
            )[i].0 + batch_plan_from(total, start, k, bs)[i].1 <= total,
    decreases k,
{
    if start >= total {
    } else if k <= 1 {
    } else {
        let len = if bs <= total - start {
            bs
        } else {
            total - start
        };
        lemma_plan_within_from(total, start + len, k - 1, bs);
        let whole = batch_plan_from(total, start, k, bs);
        let rest = batch_plan_from(total, start + len, k - 1, bs);
        assert forall|i: int|
            0 <= i < whole.len() implies 0 <= (#[trigger] whole[i]).0 && whole[i].0 + whole[i].1
            <= total by {
            if i > 0 {
                assert(whole[i] == rest[i - 1]);
            }
        }
    }
}

} // verus!
