//! Change tracking for one component column: for each row the tick at which
//! it was last written, and for the column the ticks of the last read and
//! the last write.

use vstd::prelude::*;

verus! {

/// What is left of `s` when the element at `i` is replaced by the last one
/// and the last position is dropped.
pub open spec fn swap_removed<T>(s: Seq<T>, i: int) -> Seq<T> {
    s.update(i, s.last()).drop_last()
}

/// The tick at which a row was last written.
#[derive(Clone, Copy, Debug, PartialEq, Eq, Structural)]
pub struct TrackingInfo {
    pub modified: u32,
}

impl TrackingInfo {
    /// The entry of a row written at `modified`.
    pub fn new(modified: u32) -> (r: Self)
        ensures
            r.modified == modified,
    {
        Self { modified }
    }
}

impl Default for TrackingInfo {
    fn default() -> (r: Self)
        ensures
            r.modified == 0,
    {
        Self { modified: 0 }
    }
}

/// The mathematical content of a tracker.
pub struct TrackerView {
    /// For each row, the tick of its last write.
    pub ticks: Seq<u32>,
    pub last_read: u32,
    pub last_write: u32,
}

impl TrackerView {
    /// A tracker for `len` rows, all written at `tick`.
    pub open spec fn fresh(len: nat, tick: u32) -> Self {
        TrackerView { ticks: Seq::new(len, |i: int| tick), last_read: 0, last_write: tick }
    }

    /// A row written at `tick` is appended.
    pub open spec fn push(self, tick: u32) -> Self {
        TrackerView { ticks: self.ticks.push(tick), last_read: self.last_read, last_write: tick }
    }

    /// Row `row` is swap-removed.
    pub open spec fn swap_remove(self, row: int) -> Self {
        TrackerView {
            ticks: swap_removed(self.ticks, row),
            last_read: self.last_read,
            last_write: self.last_write,
        }
    }

    /// Row `row` is written at `tick`.
    pub open spec fn flag_modified(self, row: int, tick: u32) -> Self {
        TrackerView {
            ticks: self.ticks.update(row, tick),
            last_read: self.last_read,
            last_write: tick,
        }
    }

    /// The queries that read this column are synced at `tick`.
    pub open spec fn sync(self, tick: u32) -> Self {
        TrackerView { ticks: self.ticks, last_read: tick, last_write: self.last_write }
    }

    /// Whether a read of `row` reports it as modified: it was written at or
    /// after the last sync.
    pub open spec fn is_modified(self, row: int) -> bool {
        self.ticks[row] >= self.last_read
    }
}

/// A row created at `t0`, in a column last synced no later than `t0`, reads
/// as modified, also after a sync at `t0` itself; after the sync at a later
/// tick `t1` it reads as unmodified, and stays so through every sync that
/// follows at `t2 >= t1`.
pub proof fn law_created_row_modified_until_synced(v: TrackerView, t0: u32, t1: u32, t2: u32)
    requires
        v.last_read <= t0,
        t0 < t1 <= t2,
    ensures
        v.push(t0).is_modified(v.ticks.len() as int),
        v.push(t0).sync(t0).is_modified(v.ticks.len() as int),
        !v.push(t0).sync(t1).is_modified(v.ticks.len() as int),
        !v.push(t0).sync(t1).sync(t2).is_modified(v.ticks.len() as int),
{
}

/// A row flagged at `t`, in a column last synced no later than `t`, reads as
/// modified, also after a sync at `t` itself; a sync at a tick strictly after
/// `t` makes it read as unmodified.
pub proof fn law_flagged_row_modified_until_later_sync(v: TrackerView, row: int, t: u32, later: u32)
    requires
        0 <= row < v.ticks.len(),
        v.last_read <= t,
        t < later,
    ensures
        v.flag_modified(row, t).is_modified(row),
        v.flag_modified(row, t).sync(t).is_modified(row),
        !v.flag_modified(row, t).sync(later).is_modified(row),
{
}

/// The change tracker of one column.
pub struct ChangeTracking {
    /// One entry per row of the column.
    info: Vec<TrackingInfo>,
    /// The tick of the last sync of the queries that read the column.
    last_read: u32,
    /// The tick of the last write to any row.
    last_write: u32,
}

impl View for ChangeTracking {
    type V = TrackerView;

    closed spec fn view(&self) -> TrackerView {
        TrackerView {
            ticks: Seq::new(self.info.len() as nat, |i: int| self.info[i].modified),
            last_read: self.last_read,
            last_write: self.last_write,
        }
    }
}

impl ChangeTracking {
    /// A tracker without rows.
    pub fn new() -> (r: Self)
        ensures
            r@ == TrackerView::fresh(0, 0),
    {
        let r = Self { info: Vec::new(), last_read: 0, last_write: 0 };
        assert(r@.ticks =~= TrackerView::fresh(0, 0).ticks);
        r
    }

    /// A tracker for `len` rows, all counted as written at tick 0.
    pub fn with_len(len: usize) -> (r: Self)
        ensures
            r@ == TrackerView::fresh(len as nat, 0),
    {
        Self::with_len_at(len, 0)
    }

    /// A tracker for `len` rows, all counted as written at `tick`.
    pub fn with_len_at(len: usize, tick: u32) -> (r: Self)
        ensures
            r@ == TrackerView::fresh(len as nat, tick),
    {
        let mut info: Vec<TrackingInfo> = Vec::new();
        let mut i: usize = 0;
        while i < len
            invariant
                i <= len,
                info.len() == i,
                forall|j: int| 0 <= j < i ==> info[j].modified == tick,
            decreases len - i,
        {
            info.push(TrackingInfo::new(tick));
            i = i + 1;
        }
        let r = Self { info, last_read: 0, last_write: tick };
        assert(r@.ticks =~= TrackerView::fresh(len as nat, tick).ticks);
        r
    }

    /// The number of rows.
    pub fn len(&self) -> (n: usize)
        ensures
            n == self@.ticks.len(),
    {
        self.info.len()
    }

    /// The tick of the last sync.
    pub fn last_read(&self) -> (t: u32)
        ensures
            t == self@.last_read,
    {
        self.last_read
    }

    /// The tick of the last write.
    pub fn last_write(&self) -> (t: u32)
        ensures
            t == self@.last_write,
    {
        self.last_write
    }

    /// Appends a row written at `info.modified`.
    pub fn push(&mut self, info: TrackingInfo)
        ensures
            final(self)@ == old(self)@.push(info.modified),
    {
        self.info.push(info);
        self.last_write = info.modified;
        assert(self@.ticks =~= old(self)@.push(info.modified).ticks);
    }

    /// The entry of row `index`.
    pub fn get(&self, index: usize) -> (r: &TrackingInfo)
        requires
            index < self@.ticks.len(),
        ensures
            r.modified == self@.ticks[index as int],
    {
        &self.info[index]
    }

    /// Mutable access to the entry of row `index`. What the caller leaves
    /// there becomes the entry.
    pub fn get_mut(&mut self, index: usize) -> (r: &mut TrackingInfo)
        requires
            index < old(self)@.ticks.len(),
        ensures
            r.modified == old(self)@.ticks[index as int],
            final(self)@ == (TrackerView {
                ticks: old(self)@.ticks.update(index as int, final(r).modified),
                ..old(self)@
            }),
    {
        let r = &mut self.info[index];
        proof {
            let after = old(self).info@.update(index as int, *final(r));
            assert(Seq::new(after.len(), |i: int| after[i].modified) =~= old(self)@.ticks.update(
                index as int,
                final(r).modified,
            ));
        }
        r
    }

    /// Swap-removes the entry of row `index`.
    pub fn delete(&mut self, index: usize)
        requires
            index < old(self)@.ticks.len(),
        ensures
            final(self)@ == old(self)@.swap_remove(index as int),
    {
        self.info.swap_remove(index);
        assert(self@.ticks =~= old(self)@.swap_remove(index as int).ticks);
    }

    /// Records a write to row `row` at `tick`.
    pub fn flag_modified(&mut self, row: usize, tick: u32)
        requires
            row < old(self)@.ticks.len(),
        ensures
            final(self)@ == old(self)@.flag_modified(row as int, tick),
    {
        self.info[row] = TrackingInfo::new(tick);
        self.last_write = tick;
        assert(self@.ticks =~= old(self)@.flag_modified(row as int, tick).ticks);
    }

    /// Records that the queries reading the column were synced at `tick`.
    pub fn on_query_sync(&mut self, tick: u32)
        ensures
            final(self)@ == old(self)@.sync(tick),
    {
        self.last_read = tick;
        assert(self@.ticks =~= old(self)@.sync(tick).ticks);
    }

    /// Whether a read of row `row` reports it as modified.
    pub fn is_modified(&self, row: usize) -> (r: bool)
        requires
            row < self@.ticks.len(),
        ensures
            r == self@.is_modified(row as int),
    {
        self.info[row].modified >= self.last_read
    }
}

} // verus!
