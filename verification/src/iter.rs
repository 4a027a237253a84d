//! Iteration over the rows of the archetypes that a query matches.

use vstd::prelude::*;
use crate::archetype::{ArchetypeID, ArchetypeView};
use crate::bundle::{bundle_fetchable, bundle_fetched, fetch_items, item_views, Access, Item};
use crate::filter::lemma_matching_ids;
use crate::graph::ArchetypeManager;
use crate::query::Query;

verus! {

/// Row `r` of archetype `a`.
pub open spec fn row_of(a: ArchetypeID, r: int) -> (ArchetypeID, int) {
    (a, r)
}

/// The rows `from..to` of archetype `a`, in order.
pub open spec fn chunk_rows(a: ArchetypeID, from: int, to: int) -> Seq<(ArchetypeID, int)> {
    Seq::new((to - from) as nat, |j: int| (a, from + j))
}

/// All rows of the archetypes `ids[k..]` of `t`, archetype by archetype.
pub open spec fn rows_from(ids: Seq<ArchetypeID>, t: Seq<ArchetypeView>, k: int) -> Seq<
    (ArchetypeID, int),
>
    decreases ids.len() - k,
{
    if k < 0 || k >= ids.len() {
        Seq::empty()
    } else {
        chunk_rows(ids[k], 0, t[ids[k] as int].entities.len() as int) + rows_from(ids, t, k + 1)
    }
}

/// Every row of every archetype listed from position `k` on is among the
/// rows from `k`, and nothing else is.
pub proof fn lemma_rows_from(ids: Seq<ArchetypeID>, t: Seq<ArchetypeView>, k: int)
    requires
        0 <= k <= ids.len(),
    ensures
        forall|j: int, r: int|
            k <= j < ids.len() && 0 <= r < t[ids[j] as int].entities.len() ==> rows_from(
                ids,
                t,
                k,
            ).contains(#[trigger] row_of(ids[j], r)),
        forall|p: int|
            0 <= p < rows_from(ids, t, k).len() ==> {
                let row = #[trigger] rows_from(ids, t, k)[p];
                &&& 0 <= row.1 < t[row.0 as int].entities.len()
                &&& exists|j: int| k <= j < ids.len() && ids[j] == row.0
            },
    decreases ids.len() - k,
{
    if k < ids.len() {
        lemma_rows_from(ids, t, k + 1);
        let head = chunk_rows(ids[k], 0, t[ids[k] as int].entities.len() as int);
        let tail = rows_from(ids, t, k + 1);
        let all = rows_from(ids, t, k);
        assert(all == head + tail);
        assert forall|j: int, r: int|
            k <= j < ids.len() && 0 <= r < t[ids[j] as int].entities.len() implies all.contains(
            #[trigger] row_of(ids[j], r),
        ) by {
            if j == k {
                assert(all[r] == (ids[j], r));
            } else {
                assert(tail.contains(row_of(ids[j], r)));
                let p = choose|p: int| 0 <= p < tail.len() && tail[p] == (ids[j], r);
                assert(all[head.len() + p] == (ids[j], r));
            }
        }
        assert forall|p: int| 0 <= p < all.len() implies {
            let row = #[trigger] all[p];
            &&& 0 <= row.1 < t[row.0 as int].entities.len()
            &&& exists|j: int| k <= j < ids.len() && ids[j] == row.0
        } by {
            if p < head.len() {
                assert(all[p] == head[p]);
                assert(ids[k] == all[p].0);
            } else {
                assert(all[p] == tail[p - head.len()]);
                let row = tail[p - head.len()];
                let j = choose|j: int| k + 1 <= j < ids.len() && ids[j] == row.0;
                assert(k <= j < ids.len() && ids[j] == row.0);
            }
        }
    }
}

/// Where no archetype is listed twice, no row occurs twice among the
/// rows from position `k` on.
pub proof fn lemma_rows_distinct(ids: Seq<ArchetypeID>, t: Seq<ArchetypeView>, k: int)
    requires
        0 <= k <= ids.len(),
        ids.no_duplicates(),
    ensures
        rows_from(ids, t, k).no_duplicates(),
    decreases ids.len() - k,
{
    if k < ids.len() {
        lemma_rows_distinct(ids, t, k + 1);
        lemma_rows_from(ids, t, k + 1);
        let head = chunk_rows(ids[k], 0, t[ids[k] as int].entities.len() as int);
        let tail = rows_from(ids, t, k + 1);
        let all = rows_from(ids, t, k);
        assert(all == head + tail);
        assert forall|p: int, q: int| 0 <= p < all.len() && 0 <= q < all.len() && p != q implies all[p]
            != all[q] by {
            if p >= head.len() {
                let row = tail[p - head.len()];
                let j = choose|j: int| k + 1 <= j < ids.len() && ids[j] == row.0;
                assert(ids[j] != ids[k]);
            }
            if q >= head.len() {
                let row = tail[q - head.len()];
                let j = choose|j: int| k + 1 <= j < ids.len() && ids[j] == row.0;
                assert(ids[j] != ids[k]);
            }
        }
    }
}

/// The number of rows from position `k` on is the sum of the lengths of
/// the archetypes listed from there.
pub proof fn lemma_rows_from_step(ids: Seq<ArchetypeID>, t: Seq<ArchetypeView>, k: int)
    requires
        0 <= k < ids.len(),
    ensures
        rows_from(ids, t, k).len() == t[ids[k] as int].entities.len() + rows_from(ids, t, k + 1).len(),
{
}

/// A cursor over the rows of one archetype.
pub struct ComponentChunkIter {
    archetype_id: ArchetypeID,
    index: usize,
    len: usize,
}

impl ComponentChunkIter {
    /// A cursor at the first of the `len` rows of archetype `archetype_id`.
    pub fn new(archetype_id: ArchetypeID, len: usize) -> (r: Self)
        ensures
            r.rows() == chunk_rows(archetype_id, 0, len as int),
    {
        Self { archetype_id, index: 0, len }
    }

    /// The rows that the cursor has yet to yield.
    pub closed spec fn rows(&self) -> Seq<(ArchetypeID, int)> {
        if self.index <= self.len {
            chunk_rows(self.archetype_id, self.index as int, self.len as int)
        } else {
            Seq::empty()
        }
    }

    /// The number of rows left, as lower and upper bound.
    pub fn size_hint(&self) -> (r: (usize, Option<usize>))
        ensures
            r.0 == self.rows().len(),
            r.1 == Some(r.0),
    {
        let left: usize = if self.index <= self.len {
            self.len - self.index
        } else {
            0
        };
        (left, Some(left))
    }

    /// The next row, if any is left.
    pub fn next(&mut self) -> (r: Option<(ArchetypeID, usize)>)
        ensures
            match r {
                Some(row) => old(self).rows().len() > 0 && old(self).rows()[0] == (row.0, row.1 as int)
                    && final(self).rows() == old(self).rows().skip(1),
                None => old(self).rows().len() == 0 && final(self).rows().len() == 0,
            },
    {
        if self.index >= self.len {
            return None;
        }
        let row = (self.archetype_id, self.index);
        self.index = self.index + 1;
        assert(self.rows() =~= old(self).rows().skip(1));
        Some(row)
    }
}

/// Iterates over the rows of all archetypes that a query matches and
/// fetches from each row what the bundle of the query asks for.
pub struct ComponentBundleIter<'w, 'q> {
    parameter_ids: &'q Vec<Access>,
    archetype_manager: &'w ArchetypeManager,
    archetype_ids: &'q Vec<ArchetypeID>,
    /// The position in `archetype_ids` of the next archetype.
    position: usize,
    chunk_iter: Option<ComponentChunkIter>,
}

impl<'w, 'q> ComponentBundleIter<'w, 'q> {
    /// The archetypes that the rows are read from.
    pub closed spec fn archetypes(&self) -> Seq<ArchetypeView> {
        self.archetype_manager.archetypes()
    }

    /// The bundle that is fetched from each row.
    pub closed spec fn bundle(&self) -> Seq<Access> {
        self.parameter_ids@
    }

    /// The rows that the iterator has yet to yield.
    pub closed spec fn remaining(&self) -> Seq<(ArchetypeID, int)> {
        (match self.chunk_iter {
            Some(chunk) => chunk.rows(),
            None => Seq::empty(),
        }) + rows_from(self.archetype_ids@, self.archetypes(), self.position as int)
    }

    /// The representation invariant.
    pub closed spec fn wf(&self) -> bool {
        &&& self.archetype_manager.wf()
        &&& self.position <= self.archetype_ids.len()
        &&& forall|k: int|
            0 <= k < self.archetype_ids.len() ==> {
                &&& (#[trigger] self.archetype_ids[k]) < self.archetypes().len()
                &&& self.archetypes()[self.archetype_ids[k] as int].inv()
                &&& bundle_fetchable(self.parameter_ids@, self.archetypes()[self.archetype_ids[k] as int])
            }
        &&& self.chunk_iter matches Some(chunk) ==> {
            &&& chunk.archetype_id < self.archetypes().len()
            &&& chunk.len == self.archetypes()[chunk.archetype_id as int].entities.len()
            &&& self.archetypes()[chunk.archetype_id as int].inv()
            &&& bundle_fetchable(self.parameter_ids@, self.archetypes()[chunk.archetype_id as int])
        }
    }

    /// An iterator over the rows of the archetypes `archetype_ids`.
    pub fn new(
        archetype_manager: &'w ArchetypeManager,
        parameter_ids: &'q Vec<Access>,
        archetype_ids: &'q Vec<ArchetypeID>,
    ) -> (r: Self)
        requires
            archetype_manager.wf(),
            forall|k: int|
                0 <= k < archetype_ids.len() ==> {
                    &&& (#[trigger] archetype_ids[k]) < archetype_manager.archetypes().len()
                    &&& archetype_manager.archetypes()[archetype_ids[k] as int].inv()
                    &&& bundle_fetchable(
                        parameter_ids@,
                        archetype_manager.archetypes()[archetype_ids[k] as int],
                    )
                },
        ensures
            r.wf(),
            r.archetypes() == archetype_manager.archetypes(),
            r.bundle() == parameter_ids@,
            r.remaining() == rows_from(archetype_ids@, archetype_manager.archetypes(), 0),
    {
        let r = Self { archetype_manager, parameter_ids, archetype_ids, position: 0, chunk_iter: None };
        assert(r.remaining() =~= rows_from(archetype_ids@, archetype_manager.archetypes(), 0));
        r
    }

    /// The cursor over the next archetype, if any is left.
    fn next_chunk(&mut self) -> (r: Option<ComponentChunkIter>)
        requires
            old(self).wf(),
            old(self).chunk_iter.is_none(),
        ensures
            final(self).archetype_manager == old(self).archetype_manager,
            final(self).parameter_ids == old(self).parameter_ids,
            final(self).archetype_ids == old(self).archetype_ids,
            final(self).chunk_iter.is_none(),
            final(self).wf(),
            match r {
                Some(chunk) => {
                    &&& old(self).position < old(self).archetype_ids.len()
                    &&& final(self).position == old(self).position + 1
                    &&& chunk.archetype_id == old(self).archetype_ids[old(self).position as int]
                    &&& chunk.index == 0
                    &&& chunk.len == old(self).archetypes()[chunk.archetype_id as int].entities.len()
                },
                None => final(self).position == old(self).position && old(self).position
                    == old(self).archetype_ids.len(),
            },
    {
        if self.position >= self.archetype_ids.len() {
            return None;
        }
        let archetype_id = self.archetype_ids[self.position];
        self.position = self.position + 1;
        let archetype = self.archetype_manager.get(archetype_id);
        Some(ComponentChunkIter { archetype_id, index: 0, len: archetype.len() })
    }

    /// The number of rows left, as lower and upper bound; without an
    /// upper bound, and with the largest lower bound there is, where the
    /// number does not fit.
    pub fn size_hint(&self) -> (r: (usize, Option<usize>))
        requires
            self.wf(),
        ensures
            match r.1 {
                Some(n) => n == r.0 && n == self.remaining().len(),
                None => r.0 == usize::MAX && self.remaining().len() > usize::MAX,
            },
    {
        let mut total: usize = match &self.chunk_iter {
            Some(chunk) => chunk.size_hint().0,
            None => 0,
        };
        let mut k: usize = self.position;
        while k < self.archetype_ids.len()
            invariant
                self.wf(),
                self.position <= k <= self.archetype_ids.len(),
                total + rows_from(self.archetype_ids@, self.archetypes(), k as int).len()
                    == self.remaining().len(),
            decreases self.archetype_ids.len() - k,
        {
            proof {
                lemma_rows_from_step(self.archetype_ids@, self.archetypes(), k as int);
            }
            let rows = self.archetype_manager.get(self.archetype_ids[k]).len();
            match total.checked_add(rows) {
                Some(sum) => {
                    total = sum;
                },
                None => {
                    return (usize::MAX, None);
                },
            }
            k = k + 1;
        }
        (total, Some(total))
    }

    /// What the bundle fetches from the next row, if any is left.
    pub fn next(&mut self) -> (r: Option<Vec<Item<'w>>>)
        requires
            old(self).wf(),
        ensures
            final(self).wf(),
            final(self).archetypes() == old(self).archetypes(),
            final(self).bundle() == old(self).bundle(),
            match r {
                Some(items) => {
                    &&& old(self).remaining().len() > 0
                    &&& old(self).remaining()[0].0 < old(self).archetypes().len()
                    &&& item_views(items@) == bundle_fetched(
                        old(self).bundle(),
                        old(self).archetypes()[old(self).remaining()[0].0 as int],
                        old(self).remaining()[0].1,
                    )
                    &&& final(self).remaining() == old(self).remaining().skip(1)
                },
                None => old(self).remaining().len() == 0 && final(self).remaining().len() == 0,
            },
    {
        loop
            invariant
                self.wf(),
                self.archetype_manager == old(self).archetype_manager,
                self.parameter_ids == old(self).parameter_ids,
                self.archetype_ids == old(self).archetype_ids,
                self.remaining() == old(self).remaining(),
            decreases
                    self.archetype_ids.len() - self.position,
                    (if self.chunk_iter.is_some() {
                        1int
                    } else {
                        0int
                    }),
        {
            if self.chunk_iter.is_none() {
                let ghost before = self.remaining();
                match self.next_chunk() {
                    Some(chunk_iter) => {
                        self.chunk_iter = Some(chunk_iter);
                        proof {
                            assert(self.remaining() =~= before);
                        }
                    },
                    None => {
                        assert(self.remaining() =~= Seq::<(ArchetypeID, int)>::empty());
                        return None;
                    },
                }
            }
            let chunk = self.chunk_iter.take().unwrap();
            let ghost rest = rows_from(self.archetype_ids@, self.archetypes(), self.position as int);
            let ghost chunk_before = chunk.rows();
            if chunk.index < chunk.len {
                let archetype = self.archetype_manager.get(chunk.archetype_id);
                let items = fetch_items(self.parameter_ids, archetype, chunk.index);
                let advanced = ComponentChunkIter {
                    archetype_id: chunk.archetype_id,
                    index: chunk.index + 1,
                    len: chunk.len,
                };
                proof {
                    assert(old(self).remaining() == chunk_before + rest);
                    assert(chunk_before[0] == (chunk.archetype_id, chunk.index as int));
                    assert(old(self).remaining()[0] == chunk_before[0]);
                    assert(advanced.rows() =~= chunk_before.skip(1));
                    assert(advanced.rows() + rest =~= old(self).remaining().skip(1));
                }
                self.chunk_iter = Some(advanced);
                return Some(items);
            } else {
                proof {
                    assert(chunk_before =~= Seq::<(ArchetypeID, int)>::empty());
                    assert(self.remaining() =~= old(self).remaining());
                }
            }
        }
    }
}

impl Query {
    /// An iterator over the rows of the archetypes that the query matches.
    pub fn iter<'w, 'q>(&'q self, archetype_manager: &'w ArchetypeManager) -> (r: ComponentBundleIter<
        'w,
        'q,
    >)
        requires
            self.wf(),
            archetype_manager.wf(),
            self.built_on(archetype_manager.archetypes()),
            forall|i: int|
                0 <= i < archetype_manager.archetypes().len() ==> (
                #[trigger] archetype_manager.archetypes()[i]).inv(),
        ensures
            r.wf(),
            r.archetypes() == archetype_manager.archetypes(),
            r.bundle() == self.bundle(),
            r.remaining() == rows_from(self.matching(), archetype_manager.archetypes(), 0),
    {
        let count = archetype_manager.len();
        proof {
            let t = archetype_manager.archetypes();
            lemma_matching_ids(self.filters(), t, self.tested() as int);
            assert forall|k: int| 0 <= k < self.matching().len() implies {
                &&& (#[trigger] self.matching()[k]) < t.len()
                &&& t[self.matching()[k] as int].inv()
                &&& bundle_fetchable(self.bundle(), t[self.matching()[k] as int])
            } by {
                self.lemma_fetchable(t[self.matching()[k] as int]);
            }
        }
        ComponentBundleIter::new(archetype_manager, self.comp_param_ids(), self.archetype_ids())
    }
}

} // verus!
