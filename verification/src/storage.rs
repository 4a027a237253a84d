//! A type-erased column: the values of one component type for the rows of
//! one archetype, kept as one contiguous byte buffer of fixed-size elements.

use vstd::prelude::*;
use vstd::slice::slice_subrange;
use crate::component::{ComponentID, ComponentMetaData};
use crate::tracking::{swap_removed, ChangeTracking, TrackerView, TrackingInfo};

verus! {

/// The mathematical content of a column.
pub struct ColumnView {
    pub id: ComponentID,
    pub meta: ComponentMetaData,
    /// The bytes of each row's value.
    pub rows: Seq<Seq<u8>>,
    /// The tracker, once tracking is enabled.
    pub tracker: Option<TrackerView>,
}

impl ColumnView {
    /// Every row has the element size of the column, and the tracker, if
    /// there is one, has an entry per row.
    pub open spec fn wf(self) -> bool {
        &&& forall|i: int| 0 <= i < self.rows.len() ==> (#[trigger] self.rows[i]).len() == self.meta.size
        &&& self.tracker matches Some(t) ==> t.ticks.len() == self.rows.len()
    }

    /// An empty column without tracker.
    pub open spec fn empty(id: ComponentID, meta: ComponentMetaData) -> Self {
        ColumnView { id, meta, rows: Seq::empty(), tracker: None }
    }

    /// A row holding `value`, written at `tick`, is appended.
    pub open spec fn push_row(self, value: Seq<u8>, tick: u32) -> Self {
        ColumnView {
            id: self.id,
            meta: self.meta,
            rows: self.rows.push(value),
            tracker: match self.tracker {
                Some(t) => Some(t.push(tick)),
                None => None,
            },
        }
    }

    /// Row `row` is swap-removed.
    pub open spec fn swap_remove(self, row: int) -> Self {
        ColumnView {
            id: self.id,
            meta: self.meta,
            rows: swap_removed(self.rows, row),
            tracker: match self.tracker {
                Some(t) => Some(t.swap_remove(row)),
                None => None,
            },
        }
    }

    /// Tracking is enabled, if it was not, with every row written at `tick`.
    pub open spec fn track(self, tick: u32) -> Self {
        ColumnView {
            id: self.id,
            meta: self.meta,
            rows: self.rows,
            tracker: match self.tracker {
                Some(t) => Some(t),
                None => Some(TrackerView::fresh(self.rows.len(), tick)),
            },
        }
    }

    /// Tracking is enabled if need be, and row `row` is written at `tick`.
    pub open spec fn flag_modified(self, row: int, tick: u32) -> Self {
        ColumnView {
            id: self.id,
            meta: self.meta,
            rows: self.rows,
            tracker: Some(self.track(tick).tracker.unwrap().flag_modified(row, tick)),
        }
    }

    /// Row `row` holds `bytes`; the tracker is as it was.
    pub open spec fn write_row(self, row: int, bytes: Seq<u8>) -> Self {
        ColumnView { id: self.id, meta: self.meta, rows: self.rows.update(row, bytes), tracker: self.tracker }
    }

    /// The queries reading the column are synced at `tick`.
    pub open spec fn sync(self, tick: u32) -> Self {
        ColumnView {
            id: self.id,
            meta: self.meta,
            rows: self.rows,
            tracker: match self.tracker {
                Some(t) => Some(t.sync(tick)),
                None => None,
            },
        }
    }
}

/// The bytes of element `i` in a buffer of elements of `size` bytes.
pub open spec fn element(bytes: Seq<u8>, size: int, i: int) -> Seq<u8> {
    bytes.subrange(i * size, i * size + size)
}

proof fn lemma_element_range(i: int, len: int, size: int)
    requires
        0 <= i < len,
        0 <= size,
    ensures
        0 <= i * size,
        i * size + size <= len * size,
{
    assert(0 <= i * size && i * size + size <= len * size) by (nonlinear_arith)
        requires
            0 <= i < len,
            0 <= size,
    ;
}

/// Stores the values of one component type in a contiguous byte buffer, each
/// value taking `meta.size` bytes, with an optional change tracker beside it.
pub struct ComponentStorage {
    id: ComponentID,
    meta: ComponentMetaData,
    components: Vec<u8>,
    len: usize,
    tracker: Option<ChangeTracking>,
}

impl View for ComponentStorage {
    type V = ColumnView;

    closed spec fn view(&self) -> ColumnView {
        ColumnView {
            id: self.id,
            meta: self.meta,
            rows: Seq::new(
                self.len as nat,
                |i: int| element(self.components@, self.meta.size as int, i),
            ),
            tracker: match self.tracker {
                Some(t) => Some(t@),
                None => None,
            },
        }
    }
}

impl ComponentStorage {
    /// The representation invariant: the buffer holds exactly `len` elements.
    pub closed spec fn wf(&self) -> bool {
        &&& self.components.len() == self.len * self.meta.size
        &&& self.tracker matches Some(t) ==> t@.ticks.len() == self.len
    }

    /// A well-formed column has a well-formed view.
    pub proof fn lemma_view_wf(&self)
        requires
            self.wf(),
        ensures
            self@.wf(),
    {
        assert forall|i: int| 0 <= i < self@.rows.len() implies (#[trigger] self@.rows[i]).len()
            == self@.meta.size by {
            lemma_element_range(i, self.len as int, self.meta.size as int);
        }
    }

    /// An empty column for component `id` with the layout `metadata`.
    pub fn from_metadata(id: ComponentID, metadata: &ComponentMetaData) -> (r: Self)
        ensures
            r.wf(),
            r@ == ColumnView::empty(id, *metadata),
    {
        let r = Self { id, meta: *metadata, components: Vec::new(), len: 0, tracker: None };
        assert(r@.rows =~= Seq::<Seq<u8>>::empty());
        r
    }

    /// An empty column for the same component as `other`.
    pub fn from_other(other: &Self) -> (r: Self)
        ensures
            r.wf(),
            r@ == ColumnView::empty(other@.id, other@.meta),
    {
        Self::from_metadata(other.id, &other.meta)
    }

    /// The id of the component type of the column.
    pub fn id(&self) -> (r: ComponentID)
        ensures
            r == self@.id,
    {
        self.id
    }

    /// The layout of the values of the column.
    pub fn metadata(&self) -> (r: &ComponentMetaData)
        ensures
            *r == self@.meta,
    {
        &self.meta
    }

    /// The number of rows.
    pub fn len(&self) -> (r: usize)
        ensures
            r == self@.rows.len(),
    {
        self.len
    }

    /// Whether the column has a tracker.
    pub fn is_tracked(&self) -> (r: bool)
        ensures
            r == self@.tracker.is_some(),
    {
        self.tracker.is_some()
    }

    /// Enables tracking, if it is not yet, with every row counted as
    /// written at tick 0.
    pub fn enable_tracking(&mut self)
        requires
            old(self).wf(),
        ensures
            final(self).wf(),
            final(self)@ == old(self)@.track(0),
    {
        self.enable_tracking_at(0);
    }

    /// Enables tracking, if it is not yet, with every row counted as
    /// written at `tick`.
    pub fn enable_tracking_at(&mut self, tick: u32)
        requires
            old(self).wf(),
        ensures
            final(self).wf(),
            final(self)@ == old(self)@.track(tick),
    {
        if self.tracker.is_none() {
            self.tracker = Some(ChangeTracking::with_len_at(self.len, tick));
        }
        assert(self@.rows =~= old(self)@.rows);
    }

    /// The tracker of a tracked column.
    pub fn get_tracker(&self) -> (r: &ChangeTracking)
        requires
            self@.tracker.is_some(),
        ensures
            r@ == self@.tracker.unwrap(),
    {
        self.tracker.as_ref().unwrap()
    }

    /// Mutable access to the tracker of a tracked column. What the caller
    /// leaves there becomes the tracker; it must be left with one entry per
    /// row.
    pub fn get_mut_tracker(&mut self) -> (r: &mut ChangeTracking)
        requires
            old(self).wf(),
            old(self)@.tracker.is_some(),
        ensures
            r@ == old(self)@.tracker.unwrap(),
            final(self)@ == (ColumnView { tracker: Some(final(r)@), ..old(self)@ }),
            final(r)@.ticks.len() == old(self)@.rows.len() ==> final(self).wf(),
    {
        self.tracker.as_mut().unwrap()
    }

    /// The bytes of all rows, row by row.
    pub fn as_slice(&self) -> (r: &[u8])
        requires
            self.wf(),
        ensures
            r@.len() == self@.rows.len() * self@.meta.size,
            forall|i: int|
                0 <= i < self@.rows.len() ==> #[trigger] self@.rows[i] == element(
                    r@,
                    self@.meta.size as int,
                    i,
                ),
    {
        self.components.as_slice()
    }

    /// Enables tracking if need be and records a write to `row` at `tick`.
    pub fn flag_modified(&mut self, row: usize, tick: u32)
        requires
            old(self).wf(),
            row < old(self)@.rows.len(),
        ensures
            final(self).wf(),
            final(self)@ == old(self)@.flag_modified(row as int, tick),
    {
        self.enable_tracking_at(tick);
        let ghost mid = self@;
        match &mut self.tracker {
            Some(t) => {
                t.flag_modified(row, tick);
            },
            None => {},
        }
        assert(self@.rows =~= mid.rows);
    }

    /// Records on the tracker, if there is one, a sync at `tick`.
    pub fn on_query_sync(&mut self, tick: u32)
        requires
            old(self).wf(),
        ensures
            final(self).wf(),
            final(self)@ == old(self)@.sync(tick),
    {
        match &mut self.tracker {
            Some(t) => {
                t.on_query_sync(tick);
            },
            None => {},
        }
        assert(self@.rows =~= old(self)@.rows);
    }

    /// Whether a read of `row` reports it as modified. A column without
    /// tracker reports every row as modified.
    pub fn is_modified(&self, row: usize) -> (r: bool)
        requires
            self.wf(),
            row < self@.rows.len(),
        ensures
            r == match self@.tracker {
                Some(t) => t.is_modified(row as int),
                None => true,
            },
    {
        match &self.tracker {
            Some(t) => t.is_modified(row),
            None => true,
        }
    }

    /// Appends the `meta.size` bytes of `src` that start at `off` as a new row.
    fn push_from(&mut self, src: &Vec<u8>, off: usize, tick: u32)
        requires
            old(self).wf(),
            off + old(self)@.meta.size <= src.len(),
            old(self)@.rows.len() < usize::MAX,
        ensures
            final(self).wf(),
            final(self)@ == old(self)@.push_row(
                src@.subrange(off as int, off + old(self)@.meta.size),
                tick,
            ),
    {
        let size = self.meta.size;
        let mut j: usize = 0;
        while j < size
            invariant
                j <= size,
                size == self.meta.size,
                off + size <= src.len(),
                self.id == old(self).id,
                self.meta == old(self).meta,
                self.len == old(self).len,
                self.tracker == old(self).tracker,
                self.components@ == old(self).components@ + src@.subrange(off as int, off + j),
            decreases size - j,
        {
            self.components.push(src[off + j]);
            assert(self.components@ =~= old(self).components@ + src@.subrange(
                off as int,
                off + j + 1,
            ));
            j = j + 1;
        }
        self.len = self.len + 1;
        match &mut self.tracker {
            Some(t) => {
                t.push(TrackingInfo::new(tick));
            },
            None => {},
        }
        proof {
            let n = old(self).len as int;
            let s = size as int;
            let value = src@.subrange(off as int, off + size);
            assert((n + 1) * s == n * s + s) by (nonlinear_arith);
            assert forall|i: int| 0 <= i < n + 1 implies #[trigger] self@.rows[i] == old(
                self,
            )@.rows.push(value)[i] by {
                lemma_element_range(i, n + 1, s);
                if i < n {
                    lemma_element_range(i, n, s);
                    assert(element(self.components@, s, i) =~= element(old(self).components@, s, i));
                } else {
                    assert(element(self.components@, s, i) =~= value);
                }
            }
            assert(self@.rows =~= old(self)@.rows.push(value));
        }
    }

    /// Appends `component` as a new row, written at `tick`.
    pub fn push(&mut self, component: &Vec<u8>, tick: u32)
        requires
            old(self).wf(),
            component.len() == old(self)@.meta.size,
            old(self)@.rows.len() < usize::MAX,
        ensures
            final(self).wf(),
            final(self)@ == old(self)@.push_row(component@, tick),
    {
        self.push_from(component, 0, tick);
        assert(component@.subrange(0, component.len() as int) =~= component@);
    }

    /// The bytes of row `index`.
    pub fn get(&self, index: usize) -> (r: &[u8])
        requires
            self.wf(),
            index < self@.rows.len(),
        ensures
            r@ == self@.rows[index as int],
    {
        proof {
            lemma_element_range(index as int, self.len as int, self.meta.size as int);
        }
        let off = index * self.meta.size;
        slice_subrange(self.components.as_slice(), off, off + self.meta.size)
    }

    /// Overwrites the element at `index` with the bytes of `component`. The
    /// tracker is left as it is: a write is recorded by `flag_modified`.
    pub fn set(&mut self, index: usize, component: &Vec<u8>)
        requires
            old(self).wf(),
            index < old(self)@.rows.len(),
            component.len() == old(self)@.meta.size,
        ensures
            final(self).wf(),
            final(self)@ == old(self)@.write_row(index as int, component@),
    {
        let size = self.meta.size;
        proof {
            lemma_element_range(index as int, self.len as int, size as int);
        }
        let to = index * size;
        let mut j: usize = 0;
        while j < size
            invariant
                j <= size,
                size == self.meta.size,
                size == component.len(),
                to == index * size,
                to + size <= self.components.len(),
                self.id == old(self).id,
                self.meta == old(self).meta,
                self.len == old(self).len,
                self.tracker == old(self).tracker,
                self.components.len() == old(self).components.len(),
                forall|p: int|
                    0 <= p < self.components.len() && !(to <= p < to + j) ==> self.components[p]
                        == old(self).components[p],
                forall|p: int| to <= p < to + j ==> self.components[p] == component[p - to],
            decreases size - j,
        {
            let b = component[j];
            self.components[to + j] = b;
            j = j + 1;
        }
        proof {
            let s = size as int;
            let before = old(self)@.rows;
            assert forall|i: int| 0 <= i < self.len implies #[trigger] self@.rows[i] == before.update(
                index as int,
                component@,
            )[i] by {
                lemma_element_range(i, self.len as int, s);
                if i == index {
                    assert(element(self.components@, s, i) =~= component@);
                } else {
                    if i < index {
                        lemma_element_range(i, index as int, s);
                    } else {
                        lemma_element_range(index as int, i, s);
                    }
                    assert(element(self.components@, s, i) =~= element(old(self).components@, s, i));
                }
            }
            assert(self@.rows =~= before.update(index as int, component@));
        }
    }

    /// Swap-removes row `index`: the last row takes its place.
    pub fn delete(&mut self, index: usize)
        requires
            old(self).wf(),
            index < old(self)@.rows.len(),
        ensures
            final(self).wf(),
            final(self)@ == old(self)@.swap_remove(index as int),
    {
        let size = self.meta.size;
        let last = self.len - 1;
        proof {
            lemma_element_range(index as int, self.len as int, size as int);
            lemma_element_range(last as int, self.len as int, size as int);
            if index < last {
                lemma_element_range(index as int, last as int, size as int);
            }
        }
        let to = index * size;
        let from = last * size;
        let mut j: usize = 0;
        while j < size
            invariant
                j <= size,
                size == self.meta.size,
                to + size <= from + size <= self.components.len(),
                to == index * size,
                from == last * size,
                index <= last,
                self.id == old(self).id,
                self.meta == old(self).meta,
                self.len == old(self).len,
                self.tracker == old(self).tracker,
                self.components.len() == old(self).components.len(),
                forall|p: int|
                    0 <= p < self.components.len() && !(to <= p < to + j) ==> self.components[p]
                        == old(self).components[p],
                forall|p: int|
                    to <= p < to + j ==> self.components[p] == old(self).components[p - to + from],
            decreases size - j,
        {
            proof {
                if index < last {
                    lemma_element_range(index as int, last as int, size as int);
                }
            }
            let b = self.components[from + j];
            self.components[to + j] = b;
            j = j + 1;
        }
        self.components.truncate(from);
        self.len = last;
        match &mut self.tracker {
            Some(t) => {
                t.delete(index);
            },
            None => {},
        }
        proof {
            let s = size as int;
            let before = old(self)@.rows;
            assert forall|i: int| 0 <= i < last implies #[trigger] self@.rows[i] == swap_removed(
                before,
                index as int,
            )[i] by {
                lemma_element_range(i, last as int, s);
                lemma_element_range(i, old(self).len as int, s);
                if i == index {
                    assert(element(self.components@, s, i) =~= element(
                        old(self).components@,
                        s,
                        last as int,
                    ));
                } else {
                    if i < index {
                        lemma_element_range(i, index as int, s);
                    } else {
                        lemma_element_range(index as int, i, s);
                    }
                    assert(element(self.components@, s, i) =~= element(old(self).components@, s, i));
                }
            }
            assert(self@.rows =~= swap_removed(before, index as int));
        }
    }

    /// Moves row `src_index` to the end of `dst`, a column of the same
    /// element size, and swap-removes it here. The moved row counts as
    /// written at `tick`.
    pub fn transfer(&mut self, src_index: usize, dst: &mut Self, tick: u32)
        requires
            old(self).wf(),
            old(dst).wf(),
            old(self)@.meta.size == old(dst)@.meta.size,
            src_index < old(self)@.rows.len(),
            old(dst)@.rows.len() < usize::MAX,
        ensures
            final(self).wf(),
            final(dst).wf(),
            final(self)@ == old(self)@.swap_remove(src_index as int),
            final(dst)@ == old(dst)@.push_row(old(self)@.rows[src_index as int], tick),
    {
        proof {
            lemma_element_range(src_index as int, self.len as int, self.meta.size as int);
        }
        let off = src_index * self.meta.size;
        dst.push_from(&self.components, off, tick);
        self.delete(src_index);
    }
}

} // verus!
