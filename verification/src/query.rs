//! Queries: a bundle of access specifiers with its filter, the cached list
//! of the archetypes that match, and the iteration over their rows.

use vstd::prelude::*;
use crate::archetype::{among, Archetype, ArchetypeID, ArchetypeView};
use crate::bundle::{
    build_filter, bundle_fetchable, bundle_filter, count, lemma_bundle_filter, Access,
};
use crate::component::ComponentID;
use crate::filter::{
    lemma_matching_ids, lemma_matching_ids_same_sets, matching_ids, Filter, FilterBuilder,
    FilterView,
};
use crate::graph::{is_run, ArchetypeManager};
use crate::graph_spec::sets_kept;
use crate::system::System;

verus! {

/// Builds a query from a bundle and further filters.
pub struct QueryBuilder {
    bundle: Vec<Access>,
    resources: Vec<usize>,
    filter_builder: FilterBuilder,
}

impl QueryBuilder {
    /// A builder for the bundle `bundle`, without further filters.
    pub fn new(bundle: Vec<Access>) -> (r: Self)
        ensures
            r.bundle() == bundle@,
            r.resources() == Seq::<usize>::empty(),
            r.filters() == (FilterView { and: Seq::empty(), not: Seq::empty(), track: Seq::empty() }),
    {
        let filter_builder = FilterBuilder::with_capacity(count(&bundle));
        QueryBuilder { bundle, resources: Vec::new(), filter_builder }
    }

    /// The bundle.
    pub closed spec fn bundle(&self) -> Seq<Access> {
        self.bundle@
    }

    /// The ids of the resources that the query reads.
    pub closed spec fn resources(&self) -> Seq<usize> {
        self.resources@
    }

    /// The filters added beside the bundle.
    pub closed spec fn filters(&self) -> FilterView {
        self.filter_builder@
    }

    /// Adds what each specifier of `filter` asks of an archetype.
    pub fn filter(self, filter: &Vec<Access>) -> (r: Self)
        ensures
            r.bundle() == self.bundle(),
            r.resources() == self.resources(),
            r.filters() == bundle_filter(filter@, self.filters()),
    {
        let filter_builder = build_filter(filter, self.filter_builder);
        QueryBuilder { bundle: self.bundle, resources: self.resources, filter_builder }
    }

    /// Names the resources that the query reads.
    pub fn with_resources(self, resources: Vec<usize>) -> (r: Self)
        ensures
            r.bundle() == self.bundle(),
            r.resources() == resources@,
            r.filters() == self.filters(),
    {
        QueryBuilder { bundle: self.bundle, resources, filter_builder: self.filter_builder }
    }

    /// The query, with the list of the archetypes of `archetype_manager`
    /// that match; tracking is enabled on their columns to be tracked.
    pub fn build(self, archetype_manager: &mut ArchetypeManager) -> (r: Query)
        requires
            old(archetype_manager).wf(),
        ensures
            final(archetype_manager).wf(),
            final(archetype_manager).new_archetypes() == old(archetype_manager).new_archetypes(),
            final(archetype_manager).archetypes().len() == old(archetype_manager).archetypes().len(),
            forall|i: int|
                0 <= i < old(archetype_manager).archetypes().len()
                    ==> #[trigger] final(archetype_manager).archetypes()[i]
                    == r.filters().matched(old(archetype_manager).archetypes()[i]),
            r.wf(),
            r.bundle() == self.bundle(),
            r.resources() == self.resources(),
            r.filters() == bundle_filter(self.bundle(), self.filters()),
            r.in_sync(final(archetype_manager).archetypes()),
    {
        Query::new(self.bundle, self.resources, archetype_manager, self.filter_builder)
    }
}

/// A bundle with its filter and the cached list of matching archetypes.
pub struct Query {
    comp_param_ids: Vec<Access>,
    res_param_ids: Vec<usize>,
    archetype_ids: Vec<ArchetypeID>,
    filter: Filter,
    /// The number of archetypes that were tested against the filter.
    synced: usize,
}

/// Syncs the columns of `archetype` that `filter` wants tracked.
fn sync_archetype(filter: &Filter, archetype: &mut Archetype, tick: u32)
    requires
        old(archetype).wf(),
        filter@.matches(old(archetype)@.set),
    ensures
        final(archetype).wf(),
        final(archetype).column_order() == old(archetype).column_order(),
        final(archetype)@ == filter@.synced(old(archetype)@, tick),
{
    let ghost a0 = archetype@;
    let track = filter.track();
    proof {
        assert(archetype@.columns =~= Map::new(
            |c: ComponentID| a0.columns.contains_key(c),
            |c: ComponentID|
                if among(track@, 0, c) {
                    a0.columns[c].track(0).sync(tick)
                } else {
                    a0.columns[c]
                },
        ));
    }
    let mut k: usize = 0;
    while k < track.len()
        invariant
            k <= track.len(),
            archetype.wf(),
            archetype.column_order() == old(archetype).column_order(),
            a0 == old(archetype)@,
            archetype@ == (ArchetypeView {
                columns: Map::new(
                    |c: ComponentID| a0.columns.contains_key(c),
                    |c: ComponentID|
                        if among(track@, k as int, c) {
                            a0.columns[c].track(0).sync(tick)
                        } else {
                            a0.columns[c]
                        },
                ),
                ..a0
            }),
        decreases track.len() - k,
    {
        let comp_id = track[k];
        if archetype.has_storage(comp_id) {
            let storage = archetype.get_mut_storage(comp_id);
            storage.enable_tracking();
            storage.on_query_sync(tick);
        }
        proof {
            assert forall|d: ComponentID| among(track@, k + 1, d) == (d == comp_id || among(
                track@,
                k as int,
                d,
            )) by {
                if among(track@, k + 1, d) {
                    let j = choose|j: int| 0 <= j < k + 1 && j < track@.len() && #[trigger] track@[j] == d;
                    if j < k {
                        assert(among(track@, k as int, d));
                    }
                }
                if among(track@, k as int, d) {
                    let j = choose|j: int| 0 <= j < k && j < track@.len() && #[trigger] track@[j] == d;
                    assert(track@[j] == d);
                }
                if d == comp_id {
                    assert(track@[k as int] == d);
                }
            }
            assert(archetype@.columns =~= Map::new(
                |c: ComponentID| a0.columns.contains_key(c),
                |c: ComponentID|
                    if among(track@, k + 1, c) {
                        a0.columns[c].track(0).sync(tick)
                    } else {
                        a0.columns[c]
                    },
            ));
        }
        k = k + 1;
    }
    assert(archetype@.columns =~= filter@.synced(a0, tick).columns);
}

impl Query {
    /// The bundle.
    pub closed spec fn bundle(&self) -> Seq<Access> {
        self.comp_param_ids@
    }

    /// The ids of the resources that the query reads.
    pub closed spec fn resources(&self) -> Seq<usize> {
        self.res_param_ids@
    }

    /// The filter.
    pub closed spec fn filters(&self) -> FilterView {
        self.filter@
    }

    /// The cached list of matching archetypes.
    pub closed spec fn matching(&self) -> Seq<ArchetypeID> {
        self.archetype_ids@
    }

    /// The number of archetypes that were tested against the filter.
    pub closed spec fn tested(&self) -> nat {
        self.synced as nat
    }

    /// The representation invariant: the filter is compiled, and requires
    /// what the bundle fetches.
    pub closed spec fn wf(&self) -> bool {
        &&& self.filter.wf()
        &&& forall|a: ArchetypeView|
            a.inv() && self.filter@.matches(a.set) ==> #[trigger] bundle_fetchable(
                self.comp_param_ids@,
                a,
            )
    }

    /// The query was built on a table of which `t` is a later state: the
    /// cached list holds exactly the matching archetypes among those that
    /// were tested.
    pub open spec fn built_on(&self, t: Seq<ArchetypeView>) -> bool {
        &&& self.tested() <= t.len()
        &&& self.matching() == matching_ids(self.filters(), t, self.tested() as int)
    }

    /// The cached list holds exactly the archetypes of `t` that match.
    pub open spec fn in_sync(&self, t: Seq<ArchetypeView>) -> bool {
        &&& self.tested() == t.len()
        &&& self.matching() == matching_ids(self.filters(), t, t.len() as int)
    }

    /// The number of archetypes tested is a machine number.
    pub proof fn lemma_tested_bound(&self)
        ensures
            self.tested() <= usize::MAX,
    {
    }

    /// A query stays built on a table while the table only grows and no
    /// archetype changes its set.
    pub proof fn lemma_built_on_later(&self, t: Seq<ArchetypeView>, t2: Seq<ArchetypeView>)
        requires
            self.built_on(t),
            sets_kept(t, t2),
        ensures
            self.built_on(t2),
    {
        lemma_matching_ids_same_sets(self.filters(), t, t2, self.tested() as int);
    }

    /// What the fetches of a matching archetype need.
    pub proof fn lemma_fetchable(&self, a: ArchetypeView)
        requires
            self.wf(),
            a.inv(),
            self.filters().matches(a.set),
        ensures
            bundle_fetchable(self.bundle(), a),
    {
    }

    /// A query for the bundle `bundle` with the further filters of
    /// `filter_builder`, with the list of the archetypes that match.
    pub fn new(
        bundle: Vec<Access>,
        resources: Vec<usize>,
        archetype_manager: &mut ArchetypeManager,
        filter_builder: FilterBuilder,
    ) -> (r: Self)
        requires
            old(archetype_manager).wf(),
        ensures
            final(archetype_manager).wf(),
            final(archetype_manager).new_archetypes() == old(archetype_manager).new_archetypes(),
            final(archetype_manager).archetypes().len() == old(archetype_manager).archetypes().len(),
            forall|i: int|
                0 <= i < old(archetype_manager).archetypes().len()
                    ==> #[trigger] final(archetype_manager).archetypes()[i]
                    == r.filters().matched(old(archetype_manager).archetypes()[i]),
            r.wf(),
            r.bundle() == bundle@,
            r.resources() == resources@,
            r.filters() == bundle_filter(bundle@, filter_builder@),
            r.in_sync(final(archetype_manager).archetypes()),
    {
        let ghost t0 = archetype_manager.archetypes();
        let filter = build_filter(&bundle, filter_builder).build();
        let archetype_ids = filter.matching_archetypes(archetype_manager);
        let synced = archetype_manager.len();
        let r = Self { comp_param_ids: bundle, res_param_ids: resources, archetype_ids, filter, synced };
        proof {
            let t1 = archetype_manager.archetypes();
            assert forall|i: int| 0 <= i < t0.len() implies (#[trigger] t1[i]).set == t0[i].set by {
                assert(t1[i] == r.filters().matched(t0[i]));
            }
            lemma_matching_ids_same_sets(r.filters(), t0, t1, t0.len() as int);
            assert forall|a: ArchetypeView|
                a.inv() && r.filter@.matches(a.set) implies #[trigger] bundle_fetchable(
                r.comp_param_ids@,
                a,
            ) by {
                lemma_bundle_filter(r.comp_param_ids@, filter_builder@, a);
            }
        }
        r
    }

    /// The specifiers of the bundle.
    /// A system for this query that has not run yet.
    pub fn into_system(self) -> (r: System)
        ensures
            r.query_view() == self,
            r.last_run() == 0,
    {
        System::new(self)
    }

    /// The bundle.
    pub fn comp_param_ids(&self) -> (r: &Vec<Access>)
        ensures
            r@ == self.bundle(),
    {
        &self.comp_param_ids
    }

    /// The ids of the resources that the query reads.
    pub fn res_param_ids(&self) -> (r: &Vec<usize>)
        ensures
            r@ == self.resources(),
    {
        &self.res_param_ids
    }

    /// The ids of the matching archetypes, ascending.
    pub fn archetype_ids(&self) -> (r: &Vec<ArchetypeID>)
        ensures
            r@ == self.matching(),
    {
        &self.archetype_ids
    }

    /// The filter.
    pub fn get_filter(&self) -> (r: &Filter)
        ensures
            r@ == self.filters(),
    {
        &self.filter
    }

    /// Tests archetype `id` against the filter and adds it to the cached
    /// list where it matches.
    fn examine(&mut self, archetype_manager: &mut ArchetypeManager, id: ArchetypeID)
        requires
            old(self).filter.wf(),
            old(archetype_manager).wf(),
            id < old(archetype_manager).archetypes().len(),
        ensures
            final(archetype_manager).wf(),
            final(archetype_manager).new_archetypes() == old(archetype_manager).new_archetypes(),
            final(archetype_manager).archetypes() == old(archetype_manager).archetypes().update(
                id as int,
                old(self).filters().matched(old(archetype_manager).archetypes()[id as int]),
            ),
            final(self).filter == old(self).filter,
            final(self).comp_param_ids == old(self).comp_param_ids,
            final(self).res_param_ids == old(self).res_param_ids,
            final(self).synced == old(self).synced,
            final(self).archetype_ids@ == (if old(self).filters().matches(
                old(archetype_manager).archetypes()[id as int].set,
            ) {
                old(self).archetype_ids@.push(id)
            } else {
                old(self).archetype_ids@
            }),
    {
        let archetype = archetype_manager.get_mut(id);
        if self.filter.matches_archetype(archetype) {
            self.archetype_ids.push(id);
        }
    }

    /// Tests the archetypes that the query has not yet seen and adds those
    /// that match to the cached list: first any that left the queue of new
    /// archetypes before the query saw them, then the queue.
    fn update_archetype_ids(&mut self, archetype_manager: &mut ArchetypeManager)
        requires
            old(self).wf(),
            old(archetype_manager).wf(),
            old(self).built_on(old(archetype_manager).archetypes()),
        ensures
            final(self).wf(),
            final(self).bundle() == old(self).bundle(),
            final(self).resources() == old(self).resources(),
            final(self).filters() == old(self).filters(),
            final(archetype_manager).wf(),
            final(archetype_manager).new_archetypes() == old(archetype_manager).new_archetypes(),
            final(archetype_manager).archetypes().len() == old(archetype_manager).archetypes().len(),
            forall|i: int|
                0 <= i < old(archetype_manager).archetypes().len()
                    ==> #[trigger] final(archetype_manager).archetypes()[i]
                    == (if i < old(self).tested() {
                    old(archetype_manager).archetypes()[i]
                } else {
                    old(self).filters().matched(old(archetype_manager).archetypes()[i])
                }),
            final(self).in_sync(final(archetype_manager).archetypes()),
    {
        let ghost t0 = archetype_manager.archetypes();
        let ghost f = self.filters();
        let ghost start = self.synced;
        proof {
            archetype_manager.lemma_new_archetypes();
        }
        let n = archetype_manager.len();
        let queued = archetype_manager.new_archetypes_queue().len();
        let base = n - queued;
        let mut id = self.synced;
        while id < base
            invariant
                start <= id,
                id <= n,
                base <= n,
                self.synced == start,
                self.filters() == f,
                self.wf(),
                self.bundle() == old(self).bundle(),
                self.resources() == old(self).resources(),
                n == t0.len(),
                archetype_manager.wf(),
                archetype_manager.new_archetypes() == old(archetype_manager).new_archetypes(),
                archetype_manager.archetypes().len() == n,
                forall|i: int|
                    0 <= i < n ==> #[trigger] archetype_manager.archetypes()[i] == (if start <= i < id {
                        f.matched(t0[i])
                    } else {
                        t0[i]
                    }),
                self.archetype_ids@ == matching_ids(f, t0, id as int),
            decreases base - id,
        {
            self.examine(archetype_manager, id);
            id = id + 1;
        }
        let mut k = id - base;
        while k < queued
            invariant
                start <= id,
                id == base + k,
                k <= queued,
                base + queued == n,
                self.synced == start,
                self.filters() == f,
                self.wf(),
                self.bundle() == old(self).bundle(),
                self.resources() == old(self).resources(),
                n == t0.len(),
                archetype_manager.wf(),
                archetype_manager.new_archetypes() == old(archetype_manager).new_archetypes(),
                archetype_manager.new_archetypes().len() == queued,
                is_run(archetype_manager.new_archetypes(), n as int),
                archetype_manager.archetypes().len() == n,
                forall|i: int|
                    0 <= i < n ==> #[trigger] archetype_manager.archetypes()[i] == (if start <= i < id {
                        f.matched(t0[i])
                    } else {
                        t0[i]
                    }),
                self.archetype_ids@ == matching_ids(f, t0, id as int),
            decreases queued - k,
        {
            let next = archetype_manager.new_archetypes_queue()[k];
            assert(next == id);
            self.examine(archetype_manager, next);
            k = k + 1;
            id = id + 1;
        }
        self.synced = n;
        proof {
            let t1 = archetype_manager.archetypes();
            assert forall|i: int| 0 <= i < t0.len() implies (#[trigger] t1[i]).set == t0[i].set by {
                if start <= i {
                    assert(t1[i] == f.matched(t0[i]));
                }
            }
            lemma_matching_ids_same_sets(f, t0, t1, t0.len() as int);
        }
    }

    /// Records on the tracked columns of every matching archetype that the
    /// query was synced at `tick`.
    fn update_storage_trackers(&mut self, archetype_manager: &mut ArchetypeManager, tick: u32)
        requires
            old(self).wf(),
            old(archetype_manager).wf(),
            old(self).in_sync(old(archetype_manager).archetypes()),
        ensures
            final(self).wf(),
            final(self).bundle() == old(self).bundle(),
            final(self).resources() == old(self).resources(),
            final(self).filters() == old(self).filters(),
            final(archetype_manager).wf(),
            final(archetype_manager).new_archetypes() == old(archetype_manager).new_archetypes(),
            final(archetype_manager).archetypes().len() == old(archetype_manager).archetypes().len(),
            forall|i: int|
                0 <= i < old(archetype_manager).archetypes().len()
                    ==> #[trigger] final(archetype_manager).archetypes()[i]
                    == old(self).filters().synced(
                    old(archetype_manager).archetypes()[i],
                    tick,
                ),
            final(self).in_sync(final(archetype_manager).archetypes()),
    {
        let ghost t0 = archetype_manager.archetypes();
        let ghost f = self.filters();
        let ghost ids = self.archetype_ids@;
        let count = archetype_manager.len();
        proof {
            lemma_matching_ids(f, t0, count as int);
        }
        let mut k: usize = 0;
        while k < self.archetype_ids.len()
            invariant
                k <= ids.len(),
                ids == self.archetype_ids@,
                ids == matching_ids(f, t0, t0.len() as int),
                self.filters() == f,
                self.filter.wf(),
                self.wf(),
                self.bundle() == old(self).bundle(),
                self.resources() == old(self).resources(),
                self.synced == old(self).synced,
                forall|j: int|
                    0 <= j < ids.len() ==> (#[trigger] ids[j]) < t0.len() && f.matches(
                        t0[ids[j] as int].set,
                    ),
                forall|i: int, j: int| 0 <= i < j < ids.len() ==> ids[i] < ids[j],
                archetype_manager.wf(),
                archetype_manager.new_archetypes() == old(archetype_manager).new_archetypes(),
                archetype_manager.archetypes().len() == t0.len(),
                forall|i: int|
                    0 <= i < t0.len() ==> #[trigger] archetype_manager.archetypes()[i] == (if exists|j: int|
                        0 <= j < k && ids[j] == i {
                        f.synced(t0[i], tick)
                    } else {
                        t0[i]
                    }),
            decreases ids.len() - k,
        {
            let id = self.archetype_ids[k];
            let ghost before = archetype_manager.archetypes();
            proof {
                assert(!(exists|j: int| 0 <= j < k && ids[j] == id as int)) by {
                    if exists|j: int| 0 <= j < k && ids[j] == id as int {
                        let j = choose|j: int| 0 <= j < k && ids[j] == id as int;
                        assert(ids[j] < ids[k as int]);
                    }
                }
                assert(before[id as int] == t0[id as int]);
            }
            let archetype = archetype_manager.get_mut(id);
            sync_archetype(&self.filter, archetype, tick);
            proof {
                let after = archetype_manager.archetypes();
                assert forall|i: int| 0 <= i < t0.len() implies #[trigger] after[i] == (if exists|j: int|
                    0 <= j < k + 1 && ids[j] == i {
                    f.synced(t0[i], tick)
                } else {
                    t0[i]
                }) by {
                    if i == id {
                        assert(ids[k as int] == i);
                    } else {
                        assert(after[i] == before[i]);
                        if exists|j: int| 0 <= j < k + 1 && ids[j] == i {
                            let j = choose|j: int| 0 <= j < k + 1 && ids[j] == i;
                            assert(j < k);
                        }
                    }
                }
            }
            k = k + 1;
        }
        proof {
            let after = archetype_manager.archetypes();
            assert forall|i: int| 0 <= i < t0.len() implies #[trigger] after[i] == f.synced(t0[i], tick) by {
                if f.matches(t0[i].set) {
                    assert(ids.contains(i as usize));
                    let j = choose|j: int| 0 <= j < ids.len() && ids[j] == i as usize;
                    assert(0 <= j < k && ids[j] == i);
                } else {
                    if exists|j: int| 0 <= j < k && ids[j] == i {
                        let j = choose|j: int| 0 <= j < k && ids[j] == i;
                        assert(f.matches(t0[ids[j] as int].set));
                    }
                }
            }
            assert forall|i: int| 0 <= i < t0.len() implies (#[trigger] after[i]).set == t0[i].set by {
                assert(after[i] == f.synced(t0[i], tick));
            }
            lemma_matching_ids_same_sets(f, t0, after, t0.len() as int);
        }
    }

    /// Brings the query up to date with `archetype_manager`: archetypes
    /// created since the last sync are tested against the filter, and the
    /// tracked columns of every matching archetype count as read at `tick`.
    pub fn sync(&mut self, archetype_manager: &mut ArchetypeManager, tick: u32)
        requires
            old(self).wf(),
            old(archetype_manager).wf(),
            old(self).built_on(old(archetype_manager).archetypes()),
        ensures
            final(self).wf(),
            final(self).bundle() == old(self).bundle(),
            final(self).resources() == old(self).resources(),
            final(self).filters() == old(self).filters(),
            final(archetype_manager).wf(),
            final(archetype_manager).new_archetypes() == old(archetype_manager).new_archetypes(),
            final(archetype_manager).archetypes().len() == old(archetype_manager).archetypes().len(),
            forall|i: int|
                0 <= i < old(archetype_manager).archetypes().len()
                    ==> #[trigger] final(archetype_manager).archetypes()[i]
                    == old(self).filters().synced(
                    old(archetype_manager).archetypes()[i],
                    tick,
                ),
            final(self).in_sync(final(archetype_manager).archetypes()),
    {
        let ghost t0 = archetype_manager.archetypes();
        let ghost f = self.filters();
        self.update_archetype_ids(archetype_manager);
        let ghost t1 = archetype_manager.archetypes();
        self.update_storage_trackers(archetype_manager, tick);
        proof {
            let t2 = archetype_manager.archetypes();
            assert forall|i: int| 0 <= i < t0.len() implies #[trigger] t2[i] == f.synced(t0[i], tick) by {
                assert(t2[i] == f.synced(t1[i], tick));
                if t1[i] != t0[i] {
                    assert(t1[i] == f.matched(t0[i]));
                    assert(f.synced(f.matched(t0[i]), tick).columns =~= f.synced(t0[i], tick).columns);
                }
            }
        }
    }
}

} // verus!
