//! Filters: which archetypes a query matches, and which of their columns
//! it wants tracked.

use vstd::prelude::*;
use crate::archetype::{among, Archetype, ArchetypeID, ArchetypeView};
use crate::bitset::BitSet;
use crate::component::ComponentID;
use crate::graph::ArchetypeManager;
use crate::graph_spec::{same_data, same_rows_of_column};

verus! {

/// The mathematical content of a filter: the components that an archetype
/// must have, those that it must not have, and those whose columns are to
/// be tracked.
pub struct FilterView {
    pub and: Seq<ComponentID>,
    pub not: Seq<ComponentID>,
    pub track: Seq<ComponentID>,
}

impl FilterView {
    /// Whether an archetype with the component set `set` matches: it has
    /// every required component and none of the excluded ones.
    pub open spec fn matches(self, set: Set<ComponentID>) -> bool {
        &&& forall|i: int| 0 <= i < self.and.len() ==> set.contains(#[trigger] self.and[i])
        &&& forall|i: int| 0 <= i < self.not.len() ==> !set.contains(#[trigger] self.not[i])
    }

    /// The archetype `a` with tracking enabled on the columns to be tracked.
    pub open spec fn enabled(self, a: ArchetypeView) -> ArchetypeView {
        ArchetypeView {
            id: a.id,
            set: a.set,
            edges: a.edges,
            columns: Map::new(
                |c: ComponentID| a.columns.contains_key(c),
                |c: ComponentID|
                    if among(self.track, self.track.len() as int, c) {
                        a.columns[c].track(0)
                    } else {
                        a.columns[c]
                    },
            ),
            entities: a.entities,
        }
    }

    /// The archetype `a` after a match: tracked where it matches, else as
    /// it was.
    pub open spec fn matched(self, a: ArchetypeView) -> ArchetypeView {
        if self.matches(a.set) {
            self.enabled(a)
        } else {
            a
        }
    }

    /// The archetype `a` after a sync at `tick`: where it matches, the
    /// columns to be tracked are tracked and count as read at `tick`.
    pub open spec fn synced(self, a: ArchetypeView, tick: u32) -> ArchetypeView {
        if self.matches(a.set) {
            ArchetypeView {
                id: a.id,
                set: a.set,
                edges: a.edges,
                columns: Map::new(
                    |c: ComponentID| a.columns.contains_key(c),
                    |c: ComponentID|
                        if among(self.track, self.track.len() as int, c) {
                            a.columns[c].track(0).sync(tick)
                        } else {
                            a.columns[c]
                        },
                ),
                entities: a.entities,
            }
        } else {
            a
        }
    }
}

/// The ids below `n` of the archetypes of `t` that match `f`, ascending.
pub open spec fn matching_ids(f: FilterView, t: Seq<ArchetypeView>, n: int) -> Seq<ArchetypeID>
    decreases n,
{
    if n <= 0 {
        Seq::empty()
    } else if f.matches(t[n - 1].set) {
        matching_ids(f, t, n - 1).push((n - 1) as usize)
    } else {
        matching_ids(f, t, n - 1)
    }
}

/// The matching ids are those below `n` whose archetype matches, each once
/// and in ascending order.
pub proof fn lemma_matching_ids(f: FilterView, t: Seq<ArchetypeView>, n: int)
    requires
        0 <= n <= t.len(),
        n <= usize::MAX,
    ensures
        forall|k: int|
            0 <= k < matching_ids(f, t, n).len() ==> (#[trigger] matching_ids(f, t, n)[k]) < n
                && f.matches(t[matching_ids(f, t, n)[k] as int].set),
        forall|i: int|
            0 <= i < n && f.matches(#[trigger] t[i].set) ==> matching_ids(f, t, n).contains(i as usize),
        forall|j: int, k: int|
            0 <= j < k < matching_ids(f, t, n).len() ==> matching_ids(f, t, n)[j] < matching_ids(
                f,
                t,
                n,
            )[k],
    decreases n,
{
    if n > 0 {
        lemma_matching_ids(f, t, n - 1);
        let rest = matching_ids(f, t, n - 1);
        let all = matching_ids(f, t, n);
        if f.matches(t[n - 1].set) {
            assert(all[rest.len() as int] == (n - 1) as usize);
            assert forall|i: int| 0 <= i < n && f.matches(#[trigger] t[i].set) implies all.contains(
                i as usize,
            ) by {
                if i < n - 1 {
                    let k = choose|k: int| 0 <= k < rest.len() && rest[k] == i as usize;
                    assert(all[k] == i as usize);
                } else {
                    assert(all[rest.len() as int] == i as usize);
                }
            }
        }
    }
}

/// The matching ids depend on the component sets alone.
pub proof fn lemma_matching_ids_same_sets(
    f: FilterView,
    t: Seq<ArchetypeView>,
    t2: Seq<ArchetypeView>,
    n: int,
)
    requires
        0 <= n <= t.len(),
        n <= t2.len(),
        forall|i: int| 0 <= i < n ==> (#[trigger] t2[i]).set == t[i].set,
    ensures
        matching_ids(f, t2, n) == matching_ids(f, t, n),
    decreases n,
{
    if n > 0 {
        lemma_matching_ids_same_sets(f, t, t2, n - 1);
        assert(t2[n - 1].set == t[n - 1].set);
    }
}

/// Collects the component ids of a filter.
pub struct FilterBuilder {
    and: Vec<ComponentID>,
    not: Vec<ComponentID>,
    track: Vec<ComponentID>,
}

impl View for FilterBuilder {
    type V = FilterView;

    closed spec fn view(&self) -> FilterView {
        FilterView { and: self.and@, not: self.not@, track: self.track@ }
    }
}

impl FilterBuilder {
    /// A builder without ids.
    pub fn new() -> (r: Self)
        ensures
            r@ == (FilterView { and: Seq::empty(), not: Seq::empty(), track: Seq::empty() }),
    {
        Self { and: Vec::new(), not: Vec::new(), track: Vec::new() }
    }

    /// A builder without ids, with room for `capacity` of each kind.
    pub fn with_capacity(capacity: usize) -> (r: Self)
        ensures
            r@ == (FilterView { and: Seq::empty(), not: Seq::empty(), track: Seq::empty() }),
    {
        Self {
            and: Vec::with_capacity(capacity),
            not: Vec::with_capacity(capacity),
            track: Vec::with_capacity(capacity),
        }
    }

    /// Requires `component`.
    pub fn and(self, component: ComponentID) -> (r: Self)
        ensures
            r@ == (FilterView { and: self@.and.push(component), ..self@ }),
    {
        let mut this = self;
        this.and.push(component);
        this
    }

    /// Excludes `component`.
    pub fn not(self, component: ComponentID) -> (r: Self)
        ensures
            r@ == (FilterView { not: self@.not.push(component), ..self@ }),
    {
        let mut this = self;
        this.not.push(component);
        this
    }

    /// Asks for the column of `component` to be tracked.
    pub fn track(self, component: ComponentID) -> (r: Self)
        ensures
            r@ == (FilterView { track: self@.track.push(component), ..self@ }),
    {
        let mut this = self;
        this.track.push(component);
        this
    }

    /// The filter of the ids collected.
    pub fn build(self) -> (r: Filter)
        ensures
            r.wf(),
            r@ == self@,
    {
        let and_bitset = set_of_ids(&self.and);
        let not_bitset = set_of_ids(&self.not);
        Filter { and: self.and, not: self.not, track: self.track, and_bitset, not_bitset }
    }
}

/// The bit set of the ids in `ids`.
fn set_of_ids(ids: &Vec<ComponentID>) -> (r: BitSet)
    ensures
        forall|c: ComponentID| r@.contains(c) <==> among(ids@, ids@.len() as int, c),
{
    let mut r = BitSet::new();
    let mut i: usize = 0;
    while i < ids.len()
        invariant
            i <= ids.len(),
            forall|c: ComponentID| r@.contains(c) <==> among(ids@, i as int, c),
        decreases ids.len() - i,
    {
        let ghost before = r@;
        r.set(ids[i]);
        proof {
            assert forall|c: ComponentID| r@.contains(c) <==> among(ids@, i + 1, c) by {
                if among(ids@, i + 1, c) {
                    let k = choose|k: int| 0 <= k < i + 1 && k < ids@.len() && #[trigger] ids@[k] == c;
                    if k < i {
                        assert(among(ids@, i as int, c));
                    }
                }
                if before.contains(c) {
                    let k = choose|k: int| 0 <= k < i && k < ids@.len() && #[trigger] ids@[k] == c;
                    assert(ids@[k] == c);
                }
                if c == ids@[i as int] {
                    assert(ids@[i as int] == c);
                }
            }
        }
        i = i + 1;
    }
    r
}

/// A compiled filter: the ids, and bit sets of the required and of the
/// excluded ids for matching.
pub struct Filter {
    and: Vec<ComponentID>,
    not: Vec<ComponentID>,
    track: Vec<ComponentID>,
    and_bitset: BitSet,
    not_bitset: BitSet,
}

impl View for Filter {
    type V = FilterView;

    closed spec fn view(&self) -> FilterView {
        FilterView { and: self.and@, not: self.not@, track: self.track@ }
    }
}

impl Filter {
    /// The representation invariant: the bit sets hold the ids.
    pub closed spec fn wf(&self) -> bool {
        &&& forall|c: ComponentID|
            self.and_bitset@.contains(c) <==> among(self.and@, self.and@.len() as int, c)
        &&& forall|c: ComponentID|
            self.not_bitset@.contains(c) <==> among(self.not@, self.not@.len() as int, c)
    }

    /// The required ids.
    pub fn and(&self) -> (r: &Vec<ComponentID>)
        ensures
            r@ == self@.and,
    {
        &self.and
    }

    /// The excluded ids.
    pub fn not(&self) -> (r: &Vec<ComponentID>)
        ensures
            r@ == self@.not,
    {
        &self.not
    }

    /// The ids whose columns are to be tracked.
    pub fn track(&self) -> (r: &Vec<ComponentID>)
        ensures
            r@ == self@.track,
    {
        &self.track
    }

    /// Whether an archetype with the component set `set` matches.
    pub fn matches(&self, set: &BitSet) -> (r: bool)
        requires
            self.wf(),
        ensures
            r == self@.matches(set@),
    {
        let has_all = set.contains(&self.and_bitset);
        let has_none = set.contains_none(&self.not_bitset);
        proof {
            let and_set = self.and_bitset@;
            let not_set = self.not_bitset@;
            if has_all {
                assert forall|i: int| 0 <= i < self.and@.len() implies set@.contains(
                    #[trigger] self.and@[i],
                ) by {
                    assert(among(self.and@, self.and@.len() as int, self.and@[i]));
                    assert(and_set.contains(self.and@[i]));
                }
            } else {
                assert(exists|c: ComponentID| and_set.contains(c) && !set@.contains(c));
                let c = choose|c: ComponentID| and_set.contains(c) && !set@.contains(c);
                assert(among(self.and@, self.and@.len() as int, c));
                let k = choose|k: int|
                    0 <= k < self.and@.len() && k < self.and@.len() && #[trigger] self.and@[k] == c;
                assert(!set@.contains(self.and@[k]));
            }
            if has_none {
                assert forall|i: int| 0 <= i < self.not@.len() implies !set@.contains(
                    #[trigger] self.not@[i],
                ) by {
                    assert(among(self.not@, self.not@.len() as int, self.not@[i]));
                    assert(not_set.contains(self.not@[i]));
                }
            } else {
                assert(exists|c: ComponentID| set@.contains(c) && not_set.contains(c));
                let c = choose|c: ComponentID| set@.contains(c) && not_set.contains(c);
                assert(among(self.not@, self.not@.len() as int, c));
                let k = choose|k: int|
                    0 <= k < self.not@.len() && k < self.not@.len() && #[trigger] self.not@[k] == c;
                assert(set@.contains(self.not@[k]));
            }
            let v = self@;
            assert(v.and == self.and@ && v.not == self.not@);
            assert(has_all == (forall|i: int| 0 <= i < v.and.len() ==> set@.contains(#[trigger] v.and[i])));
            assert(has_none == (forall|i: int| 0 <= i < v.not.len() ==> !set@.contains(#[trigger] v.not[i])));
        }
        has_all && has_none
    }

    /// Enables tracking on those columns of `archetype` that the filter
    /// wants tracked.
    pub fn enable_tracking(&self, archetype: &mut Archetype)
        requires
            old(archetype).wf(),
        ensures
            final(archetype).wf(),
            final(archetype).column_order() == old(archetype).column_order(),
            final(archetype)@ == self@.enabled(old(archetype)@),
    {
        let ghost a0 = archetype@;
        let ghost track = self.track@;
        proof {
            assert(archetype@.columns =~= Map::new(
                |c: ComponentID| a0.columns.contains_key(c),
                |c: ComponentID|
                    if among(track, 0, c) {
                        a0.columns[c].track(0)
                    } else {
                        a0.columns[c]
                    },
            ));
        }
        let mut k: usize = 0;
        while k < self.track.len()
            invariant
                k <= self.track.len(),
                track == self.track@,
                archetype.wf(),
                archetype.column_order() == old(archetype).column_order(),
                a0 == old(archetype)@,
                archetype@ == (ArchetypeView {
                    columns: Map::new(
                        |c: ComponentID| a0.columns.contains_key(c),
                        |c: ComponentID|
                            if among(track, k as int, c) {
                                a0.columns[c].track(0)
                            } else {
                                a0.columns[c]
                            },
                    ),
                    ..a0
                }),
            decreases self.track.len() - k,
        {
            let comp_id = self.track[k];
            if archetype.has_storage(comp_id) {
                let storage = archetype.get_mut_storage(comp_id);
                storage.enable_tracking();
            }
            proof {
                assert forall|d: ComponentID| among(track, k + 1, d) == (d == comp_id || among(
                    track,
                    k as int,
                    d,
                )) by {
                    if among(track, k + 1, d) {
                        let j = choose|j: int| 0 <= j < k + 1 && j < track.len() && #[trigger] track[j] == d;
                        if j < k {
                            assert(among(track, k as int, d));
                        }
                    }
                    if among(track, k as int, d) {
                        let j = choose|j: int| 0 <= j < k && j < track.len() && #[trigger] track[j] == d;
                        assert(track[j] == d);
                    }
                    if d == comp_id {
                        assert(track[k as int] == d);
                    }
                }
                assert(archetype@.columns =~= Map::new(
                    |c: ComponentID| a0.columns.contains_key(c),
                    |c: ComponentID|
                        if among(track, k + 1, c) {
                            a0.columns[c].track(0)
                        } else {
                            a0.columns[c]
                        },
                ));
            }
            k = k + 1;
        }
    }

    /// Whether `archetype` matches; where it does, tracking is enabled on
    /// the columns that the filter wants tracked.
    pub fn matches_archetype(&self, archetype: &mut Archetype) -> (r: bool)
        requires
            self.wf(),
            old(archetype).wf(),
        ensures
            final(archetype).wf(),
            final(archetype).column_order() == old(archetype).column_order(),
            r == self@.matches(old(archetype)@.set),
            final(archetype)@ == self@.matched(old(archetype)@),
    {
        let matches = self.matches(archetype.component_set());
        if matches {
            self.enable_tracking(archetype);
        }
        matches
    }

    /// The ids of all archetypes that match, ascending; tracking is enabled
    /// on their columns that the filter wants tracked.
    pub fn matching_archetypes(&self, archetype_manager: &mut ArchetypeManager) -> (matching: Vec<
        ArchetypeID,
    >)
        requires
            self.wf(),
            old(archetype_manager).wf(),
        ensures
            final(archetype_manager).wf(),
            final(archetype_manager).new_archetypes() == old(archetype_manager).new_archetypes(),
            final(archetype_manager).archetypes().len() == old(archetype_manager).archetypes().len(),
            forall|i: int|
                0 <= i < old(archetype_manager).archetypes().len()
                    ==> #[trigger] final(archetype_manager).archetypes()[i]
                    == self@.matched(old(archetype_manager).archetypes()[i]),
            matching@ == matching_ids(
                self@,
                old(archetype_manager).archetypes(),
                old(archetype_manager).archetypes().len() as int,
            ),
    {
        let mut matching: Vec<ArchetypeID> = Vec::new();
        let ghost t0 = archetype_manager.archetypes();
        let n = archetype_manager.len();
        let mut id: usize = 0;
        while id < n
            invariant
                id <= n,
                n == t0.len(),
                self.wf(),
                t0 == old(archetype_manager).archetypes(),
                archetype_manager.wf(),
                archetype_manager.new_archetypes() == old(archetype_manager).new_archetypes(),
                archetype_manager.archetypes().len() == n,
                forall|i: int|
                    0 <= i < id ==> #[trigger] archetype_manager.archetypes()[i] == self@.matched(t0[i]),
                forall|i: int| id <= i < n ==> #[trigger] archetype_manager.archetypes()[i] == t0[i],
                matching@ == matching_ids(self@, t0, id as int),
            decreases n - id,
        {
            let archetype = archetype_manager.get_mut(id);
            if self.matches_archetype(archetype) {
                matching.push(id);
            }
            id = id + 1;
        }
        matching
    }
}

/// A table in which each archetype was matched, synced or left as it was
/// differs from the table before in trackers alone.
pub proof fn lemma_filter_keeps_data(
    f: FilterView,
    t: Seq<ArchetypeView>,
    t2: Seq<ArchetypeView>,
    tick: u32,
)
    requires
        forall|i: int| 0 <= i < t.len() ==> (#[trigger] t[i]).inv(),
        t2.len() == t.len(),
        forall|i: int|
            0 <= i < t.len() ==> #[trigger] t2[i] == t[i] || t2[i] == f.matched(t[i]) || t2[i]
                == f.synced(t[i], tick),
    ensures
        same_data(t, t2),
{
    assert forall|i: int| 0 <= i < t.len() implies {
        &&& (#[trigger] t2[i]).id == t[i].id
        &&& t2[i].set == t[i].set
        &&& t2[i].edges == t[i].edges
        &&& t2[i].entities == t[i].entities
        &&& t2[i].columns.dom() == t[i].columns.dom()
        &&& forall|c: ComponentID|
            #![trigger t2[i].columns[c]]
            t[i].columns.contains_key(c) ==> same_rows_of_column(t[i].columns[c], t2[i].columns[c])
    } by {
        let a = t[i];
        assert(a.inv());
        assert(t2[i].columns.dom() =~= a.columns.dom());
        assert forall|c: ComponentID|
            #![trigger t2[i].columns[c]]
            a.columns.contains_key(c) implies same_rows_of_column(
            a.columns[c],
            t2[i].columns[c],
        ) by {
            let _ = a.columns[c];
        }
    }
}

/// What a tracked read hands out: the value, and whether it was written
/// since the last sync of the queries that read it.
pub enum TrackedItem<T> {
    Modified(T),
    Unmodified(T),
}

impl<T> TrackedItem<T> {
    /// The value.
    pub fn unwrap(self) -> (r: T)
        ensures
            r == (match self {
                TrackedItem::Modified(t) => t,
                TrackedItem::Unmodified(t) => t,
            }),
    {
        match self {
            Self::Modified(t) => t,
            Self::Unmodified(t) => t,
        }
    }

    /// Whether the value was written since the last sync.
    pub fn is_modified(&self) -> (r: bool)
        ensures
            r == (*self is Modified),
    {
        match self {
            Self::Modified(_) => true,
            Self::Unmodified(_) => false,
        }
    }

    /// Whether the value was not written since the last sync.
    pub fn is_unmodified(&self) -> (r: bool)
        ensures
            r == (*self is Unmodified),
    {
        match self {
            Self::Modified(_) => false,
            Self::Unmodified(_) => true,
        }
    }
}

/// Marks a component that an archetype must have without its data being
/// read.
pub struct And<T> {
    pub inner: T,
}

/// Marks a component that an archetype must not have.
pub struct Not<T> {
    pub inner: T,
}

impl And<ComponentID> {
    /// Adds the component to the required ids of `filter`.
    pub fn build_filter(&self, filter: FilterBuilder) -> (r: FilterBuilder)
        ensures
            r@ == (FilterView { and: filter@.and.push(self.inner), ..filter@ }),
    {
        filter.and(self.inner)
    }
}

impl Not<ComponentID> {
    /// Adds the component to the excluded ids of `filter`.
    pub fn build_filter(&self, filter: FilterBuilder) -> (r: FilterBuilder)
        ensures
            r@ == (FilterView { not: filter@.not.push(self.inner), ..filter@ }),
    {
        filter.not(self.inner)
    }
}

} // verus!
