//! The table and the directory after an entity has moved from one
//! archetype to another, as functions of the table and the directory
//! before.

use vstd::prelude::*;
use crate::archetype::{among, ArchetypeID, ArchetypeView};
use crate::component::{ComponentID, ComponentMetaData};
use crate::entity::{Entity, EntityRecord};
use crate::graph_spec::{
    arrived_with, directory_after_move, fresh_archetype, graph_inv, left_without, with_edge,
};
use crate::tracking::swap_removed;

verus! {

/// Whether an archetype of `t` has the set `target`.
pub open spec fn has_set(t: Seq<ArchetypeView>, target: Set<ComponentID>) -> bool {
    exists|i: int| 0 <= i < t.len() && (#[trigger] t[i]).set == target
}

/// The set of `set` with `c` added if it was absent, removed if it was
/// present.
pub open spec fn toggled(set: Set<ComponentID>, c: ComponentID) -> Set<ComponentID> {
    if set.contains(c) {
        set.remove(c)
    } else {
        set.insert(c)
    }
}

/// The neighbour of `src` along `c`, the archetype of the set `target`:
/// where `src` has an edge on `c`, the archetype that the edge leads to;
/// else the archetype that has the set; else, where none has, the position
/// behind the table, where the neighbour will be created.
pub open spec fn neighbour(
    t: Seq<ArchetypeView>,
    src: int,
    c: ComponentID,
    target: Set<ComponentID>,
) -> ArchetypeID {
    if t[src].edges.contains_key(c) {
        t[src].edges[c]
    } else if has_set(t, target) {
        (choose|i: int| 0 <= i < t.len() && (#[trigger] t[i]).set == target) as usize
    } else {
        t.len() as usize
    }
}

/// The table after the search for the neighbour of `src` along `c`: where
/// `src` has an edge on `c` nothing changes; else the neighbour is created
/// if need be, without rows, and the edge and the edge back are recorded.
pub open spec fn linked(
    t: Seq<ArchetypeView>,
    metas: Seq<ComponentMetaData>,
    src: int,
    c: ComponentID,
    target: Set<ComponentID>,
) -> Seq<ArchetypeView> {
    if t[src].edges.contains_key(c) {
        t
    } else if has_set(t, target) {
        with_edge(t, src, neighbour(t, src, c, target) as int, c)
    } else {
        with_edge(t.push(fresh_archetype(t.len() as usize, target, metas)), src, t.len() as int, c)
    }
}

/// The queue of new archetypes after the search for the neighbour of `src`
/// along `c`: a neighbour that was created stands at its end.
pub open spec fn queue_linked(
    t: Seq<ArchetypeView>,
    queue: Seq<ArchetypeID>,
    src: int,
    c: ComponentID,
    target: Set<ComponentID>,
) -> Seq<ArchetypeID> {
    if t[src].edges.contains_key(c) || has_set(t, target) {
        queue
    } else {
        queue.push(t.len() as usize)
    }
}

/// The archetype `s` after the entity of row `row` has left: the row is
/// swap-removed from the entity list and from every column.
pub open spec fn row_left(s: ArchetypeView, row: int) -> ArchetypeView {
    ArchetypeView {
        id: s.id,
        set: s.set,
        edges: s.edges,
        columns: Map::new(
            |c: ComponentID| s.columns.contains_key(c),
            |c: ComponentID| s.columns[c].swap_remove(row),
        ),
        entities: swap_removed(s.entities, row),
    }
}

/// The archetype `d` after entity `e` has arrived from row `row` of `s`:
/// `e` is appended to the entity list, and to every column its value, as
/// written at `tick`: the value that it had in `s`, and `value` in the
/// column that `s` lacks.
pub open spec fn row_arrived(
    d: ArchetypeView,
    s: ArchetypeView,
    row: int,
    e: Entity,
    value: Seq<u8>,
    tick: u32,
) -> ArchetypeView {
    ArchetypeView {
        id: d.id,
        set: d.set,
        edges: d.edges,
        columns: Map::new(
            |c: ComponentID| d.columns.contains_key(c),
            |c: ComponentID|
                d.columns[c].push_row(
                    if s.columns.contains_key(c) {
                        s.columns[c].rows[row]
                    } else {
                        value
                    },
                    tick,
                ),
        ),
        entities: d.entities.push(e),
    }
}

/// The table `t` after the live entity `e` has moved to the archetype
/// `dst`, with `value` for the component that it gains, if it gains one.
pub open spec fn moved(
    t: Seq<ArchetypeView>,
    dir: Map<Entity, EntityRecord>,
    e: Entity,
    dst: ArchetypeID,
    value: Seq<u8>,
    tick: u32,
) -> Seq<ArchetypeView> {
    let src = dir[e].archetype_id as int;
    let row = dir[e].archetype_row as int;
    t.update(src, row_left(t[src], row)).update(
        dst as int,
        row_arrived(t[dst as int], t[src], row, e, value, tick),
    )
}

/// The table after the live entity `e` has gained or lost the component
/// `c`: the neighbour of its archetype along `c` is found or created, and
/// the entity moves there, with `value` for `c` if it gains it.
pub open spec fn table_after_step(
    t: Seq<ArchetypeView>,
    metas: Seq<ComponentMetaData>,
    dir: Map<Entity, EntityRecord>,
    e: Entity,
    c: ComponentID,
    value: Seq<u8>,
    tick: u32,
) -> Seq<ArchetypeView> {
    let src = dir[e].archetype_id as int;
    let target = toggled(t[src].set, c);
    moved(linked(t, metas, src, c, target), dir, e, neighbour(t, src, c, target), value, tick)
}

/// The directory after the live entity `e` has gained or lost the
/// component `c`: `e` stands in the last row of the neighbour, and the
/// entity that stood last in the archetype of `e` stands in its row.
pub open spec fn directory_after_step(
    t: Seq<ArchetypeView>,
    metas: Seq<ComponentMetaData>,
    dir: Map<Entity, EntityRecord>,
    e: Entity,
    c: ComponentID,
) -> Map<Entity, EntityRecord> {
    let src = dir[e].archetype_id as int;
    let target = toggled(t[src].set, c);
    directory_after_move(linked(t, metas, src, c, target), dir, e, neighbour(t, src, c, target))
}

/// The queue of new archetypes after the live entity `e` has gained or
/// lost the component `c`.
pub open spec fn queue_after_step(
    t: Seq<ArchetypeView>,
    queue: Seq<ArchetypeID>,
    dir: Map<Entity, EntityRecord>,
    e: Entity,
    c: ComponentID,
) -> Seq<ArchetypeID> {
    let src = dir[e].archetype_id as int;
    queue_linked(t, queue, src, c, toggled(t[src].set, c))
}

/// The table after the live entity `e` was deleted: its row has left its
/// archetype.
pub open spec fn table_after_delete(
    t: Seq<ArchetypeView>,
    dir: Map<Entity, EntityRecord>,
    e: Entity,
) -> Seq<ArchetypeView> {
    let src = dir[e].archetype_id as int;
    t.update(src, row_left(t[src], dir[e].archetype_row as int))
}

/// The directory after the live entity `e` was deleted: the entity that
/// stood last in the archetype of `e` stands in its row.
pub open spec fn directory_after_delete(
    t: Seq<ArchetypeView>,
    dir: Map<Entity, EntityRecord>,
    e: Entity,
) -> Map<Entity, EntityRecord> {
    let last = t[dir[e].archetype_id as int].entities.last();
    dir.insert(
        last,
        EntityRecord { archetype_id: dir[last].archetype_id, archetype_row: dir[e].archetype_row },
    ).remove(e)
}

/// The table after the entity `e` was created: it stands last in the
/// root.
pub open spec fn table_after_create(t: Seq<ArchetypeView>, e: Entity) -> Seq<ArchetypeView> {
    t.update(
        0,
        ArchetypeView {
            id: t[0].id,
            set: t[0].set,
            edges: t[0].edges,
            columns: t[0].columns,
            entities: t[0].entities.push(e),
        },
    )
}

/// The directory after the entity `e` was created.
pub open spec fn directory_after_create(
    t: Seq<ArchetypeView>,
    dir: Map<Entity, EntityRecord>,
    e: Entity,
) -> Map<Entity, EntityRecord> {
    dir.insert(e, EntityRecord { archetype_id: 0, archetype_row: t[0].entities.len() as usize })
}

/// In a table without two archetypes of one set, the archetype that has
/// the set `target` is the neighbour of an archetype without an edge on
/// `c`.
pub proof fn lemma_neighbour_by_set(
    t: Seq<ArchetypeView>,
    metas: Seq<ComponentMetaData>,
    src: int,
    c: ComponentID,
    target: Set<ComponentID>,
    dst: ArchetypeID,
)
    requires
        graph_inv(t, metas),
        !t[src].edges.contains_key(c),
        dst < t.len(),
        t[dst as int].set == target,
    ensures
        has_set(t, target),
        neighbour(t, src, c, target) == dst,
{
    let i = choose|i: int| 0 <= i < t.len() && (#[trigger] t[i]).set == target;
    assert(t[i].set == t[dst as int].set);
}

/// A row that leaves with every column of its archetype leaves the
/// archetype as `row_left` says, and arrives, with a value for the one
/// column that the archetype lacks, as `row_arrived` says.
pub proof fn lemma_moved_with(
    t: Seq<ArchetypeView>,
    dir: Map<Entity, EntityRecord>,
    e: Entity,
    dst: ArchetypeID,
    c: ComponentID,
    value: Seq<u8>,
    ids: Seq<ComponentID>,
    tick: u32,
    t2: Seq<ArchetypeView>,
)
    requires
        dir.contains_key(e),
        0 <= dir[e].archetype_id < t.len(),
        dst < t.len(),
        dst != dir[e].archetype_id,
        t[dst as int].columns.dom() == t[dir[e].archetype_id as int].columns.dom().insert(c),
        !t[dir[e].archetype_id as int].columns.contains_key(c),
        forall|d: ComponentID|
            t[dir[e].archetype_id as int].columns.contains_key(d) <==> among(ids, ids.len() as int, d),
        t2.len() == t.len(),
        forall|i: int| 0 <= i < t.len() && i != dir[e].archetype_id && i != dst ==> t2[i] == t[i],
        t2[dir[e].archetype_id as int] == t[dir[e].archetype_id as int].take_row(
            ids,
            dir[e].archetype_row as int,
        ),
        t2[dst as int] == arrived_with(
            t[dst as int],
            t[dir[e].archetype_id as int],
            ids,
            dir[e].archetype_row as int,
            e,
            c,
            value,
            tick,
        ),
    ensures
        t2 == moved(t, dir, e, dst, value, tick),
{
    let src = dir[e].archetype_id as int;
    let row = dir[e].archetype_row as int;
    let s = t[src];
    let d = t[dst as int];
    assert(t2[src].columns =~= row_left(s, row).columns);
    assert(d.columns.dom().contains(c));
    assert forall|x: ComponentID| d.columns.contains_key(x) && x != c implies s.columns.contains_key(
        x,
    ) by {
        assert(d.columns.dom().contains(x));
    }
    assert(t2[dst as int].columns =~= row_arrived(d, s, row, e, value, tick).columns);
    assert(t2 =~= moved(t, dir, e, dst, value, tick));
}

/// A row that leaves without the column of `c`, its value there dropped,
/// leaves the archetype as `row_left` says, and arrives in an archetype
/// with every other column as `row_arrived` says.
pub proof fn lemma_moved_without(
    t: Seq<ArchetypeView>,
    dir: Map<Entity, EntityRecord>,
    e: Entity,
    dst: ArchetypeID,
    c: ComponentID,
    ids: Seq<ComponentID>,
    tick: u32,
    t2: Seq<ArchetypeView>,
)
    requires
        dir.contains_key(e),
        0 <= dir[e].archetype_id < t.len(),
        dst < t.len(),
        dst != dir[e].archetype_id,
        t[dst as int].columns.dom() == t[dir[e].archetype_id as int].columns.dom().remove(c),
        t[dir[e].archetype_id as int].columns.contains_key(c),
        forall|d: ComponentID| t[dst as int].columns.contains_key(d) <==> among(ids, ids.len() as int, d),
        t2.len() == t.len(),
        forall|i: int| 0 <= i < t.len() && i != dir[e].archetype_id && i != dst ==> t2[i] == t[i],
        t2[dir[e].archetype_id as int] == left_without(
            t[dir[e].archetype_id as int],
            ids,
            dir[e].archetype_row as int,
            c,
        ),
        t2[dst as int] == t[dst as int].give_row(
            t[dir[e].archetype_id as int],
            ids,
            dir[e].archetype_row as int,
            e,
            tick,
        ),
    ensures
        t2 == moved(t, dir, e, dst, Seq::empty(), tick),
{
    let src = dir[e].archetype_id as int;
    let row = dir[e].archetype_row as int;
    let s = t[src];
    let d = t[dst as int];
    assert forall|x: ComponentID| s.columns.contains_key(x) && x != c implies among(
        ids,
        ids.len() as int,
        x,
    ) by {
        assert(d.columns.dom().contains(x));
    }
    assert(t2[src].columns =~= row_left(s, row).columns);
    assert forall|x: ComponentID| d.columns.contains_key(x) implies s.columns.contains_key(x) by {
        assert(d.columns.dom().contains(x));
    }
    assert(t2[dst as int].columns =~= row_arrived(d, s, row, e, Seq::empty(), tick).columns);
    assert(t2 =~= moved(t, dir, e, dst, Seq::empty(), tick));
}

} // verus!
