//! Laws of the world that relate several operations or hold of every
//! state, each proved from the contracts of the operations.

use vstd::prelude::*;
use crate::archetype::ArchetypeID;
use crate::component::ComponentID;
use crate::entity::Entity;
use crate::filter::lemma_matching_ids;
use crate::graph_spec::differ_by;
use crate::iter::{lemma_rows_distinct, lemma_rows_from, row_of, rows_from};
use crate::query::Query;
use crate::world::World;

verus! {

/// The record of a live entity names the archetype and the row where the
/// entity stands.
pub proof fn law_live_entity_stands_at_its_record(w: World, e: Entity)
    requires
        w.wf(),
        w.alive(e),
    ensures
        w.directory()[e].archetype_id < w.archetypes().len(),
        w.directory()[e].archetype_row < w.archetypes()[w.directory()[e].archetype_id as int].entities.len(),
        w.archetypes()[w.directory()[e].archetype_id as int].entities[w.directory()[e].archetype_row as int]
            == e,
{
    w.lemma_wf();
}

/// An archetype has a column for exactly the components of its set; each
/// column has one row per entity of the archetype, and so has its tracker
/// where the column is tracked.
pub proof fn law_columns_as_long_as_entities(w: World, a: int, c: ComponentID)
    requires
        w.wf(),
        0 <= a < w.archetypes().len(),
    ensures
        w.archetypes()[a].columns.contains_key(c) == w.archetypes()[a].set.contains(c),
        w.archetypes()[a].columns.contains_key(c) ==> w.archetypes()[a].columns[c].rows.len()
            == w.archetypes()[a].entities.len(),
        w.archetypes()[a].columns.contains_key(c) ==> (w.archetypes()[a].columns[c].tracker matches Some(
            t,
        ) ==> t.ticks.len() == w.archetypes()[a].entities.len()),
{
    w.lemma_wf();
    let v = w.archetypes()[a];
    assert(v.columns.dom().contains(c) == v.set.contains(c));
    if v.columns.contains_key(c) {
        let _ = v.columns[c];
    }
}

/// An edge on `c` joins two archetypes whose sets differ by `c` alone.
pub proof fn law_edge_differs_by_one_component(w: World, a: int, c: ComponentID)
    requires
        w.wf(),
        0 <= a < w.archetypes().len(),
        w.archetypes()[a].edges.contains_key(c),
    ensures
        w.archetypes()[a].edges[c] < w.archetypes().len(),
        differ_by(w.archetypes()[a].set, w.archetypes()[w.archetypes()[a].edges[c] as int].set, c),
{
    w.lemma_wf();
}

/// No two archetypes have the same component set; the root archetype has
/// the empty set.
pub proof fn law_no_duplicate_archetypes(w: World, a: int, b: int)
    requires
        w.wf(),
        0 <= a < w.archetypes().len(),
        0 <= b < w.archetypes().len(),
        w.archetypes()[a].set == w.archetypes()[b].set,
    ensures
        a == b,
        w.archetypes().len() >= 1,
        w.archetypes()[0].set == Set::<ComponentID>::empty(),
{
    w.lemma_wf();
}

/// Adding a component to a live entity that lacks it, then removing it,
/// leaves the entity with the component set that it had, and every entity
/// with the values that it had.
pub proof fn law_add_then_remove_restores(
    w0: World,
    w1: World,
    w2: World,
    e: Entity,
    c: ComponentID,
    value: Seq<u8>,
)
    requires
        w0.wf(),
        w0.alive(e),
        w0.component(e, c).is_none(),
        World::added(w0, w1, e, c, value),
        World::removed(w1, w2, e, c),
    ensures
        w2.components(e) == w0.components(e),
        forall|x: Entity| w2.components(x) == w0.components(x),
        forall|x: Entity, d: ComponentID| w2.component(x, d) == w0.component(x, d),
        forall|x: Entity| w2.alive(x) == w0.alive(x),
{
    w0.lemma_wf();
    assert(w1.component(e, c) == Some(value));
    let s = w0.components(e).unwrap();
    assert(!s.contains(c));
    assert(s.insert(c).remove(c) =~= s);
    assert forall|x: Entity| w2.alive(x) == w0.alive(x) by {
        assert(w2.directory().dom().contains(x) == w0.directory().dom().contains(x));
    }
}

/// Deleting an entity a second time changes nothing.
pub proof fn law_delete_is_idempotent(w0: World, w1: World, w2: World, e: Entity)
    requires
        World::deleted(w0, w1, e),
        World::deleted(w1, w2, e),
    ensures
        w2.archetypes() == w1.archetypes(),
        w2.directory() == w1.directory(),
        w2.registry() == w1.registry(),
        !w1.alive(e),
        !w2.alive(e),
{
    assert(!w1.directory().dom().contains(e));
}

/// Registering a component type a second time changes nothing and gives
/// the same id.
pub proof fn law_register_is_idempotent(
    w0: World,
    w1: World,
    w2: World,
    type_tag: u64,
    size1: usize,
    align1: usize,
    id1: ComponentID,
    size2: usize,
    align2: usize,
    id2: ComponentID,
)
    requires
        World::registered(w0, w1, type_tag, size1, align1, id1),
        World::registered(w1, w2, type_tag, size2, align2, id2),
    ensures
        id2 == id1,
        w2.registry() == w1.registry(),
        w2.archetypes() == w1.archetypes(),
        w2.directory() == w1.directory(),
{
}

/// The handle of a deleted entity is never given to a new entity.
pub proof fn law_handle_is_never_reissued(
    w0: World,
    w1: World,
    w2: World,
    w3: World,
    e: Entity,
    created: Entity,
)
    requires
        w0.alive(e),
        World::deleted(w0, w1, e),
        forall|x: Entity| w1.spent(x) ==> w2.spent(x),
        World::created(w2, w3, Some(created)),
    ensures
        created != e,
{
}

/// A query in sync with the world iterates over exactly the rows of the
/// archetypes that its filter matches, and over each of them once.
pub proof fn law_query_yields_each_matching_row_once(w: World, q: Query)
    requires
        w.wf(),
        q.in_sync(w.archetypes()),
    ensures
        rows_from(q.matching(), w.archetypes(), 0).no_duplicates(),
        forall|a: ArchetypeID, r: int|
            #[trigger] rows_from(q.matching(), w.archetypes(), 0).contains(row_of(a, r)) <==> (a
                < w.archetypes().len() && q.filters().matches(w.archetypes()[a as int].set) && 0 <= r
                < w.archetypes()[a as int].entities.len()),
{
    let t = w.archetypes();
    let ids = q.matching();
    let rows = rows_from(ids, t, 0);
    q.lemma_tested_bound();
    lemma_matching_ids(q.filters(), t, t.len() as int);
    lemma_rows_from(ids, t, 0);
    assert forall|i: int, j: int| 0 <= i < ids.len() && 0 <= j < ids.len() && i != j implies ids[i]
        != ids[j] by {
        if i < j {
            assert(ids[i] < ids[j]);
        } else {
            assert(ids[j] < ids[i]);
        }
    }
    lemma_rows_distinct(ids, t, 0);
    assert forall|a: ArchetypeID, r: int| #[trigger]
        rows.contains(row_of(a, r)) <==> (a < t.len() && q.filters().matches(t[a as int].set) && 0 <= r
            < t[a as int].entities.len()) by {
        if rows.contains(row_of(a, r)) {
            let p = choose|p: int| 0 <= p < rows.len() && rows[p] == row_of(a, r);
            let row = rows[p];
            let j = choose|j: int| 0 <= j < ids.len() && ids[j] == row.0;
            assert(ids[j] < t.len());
        }
        if a < t.len() && q.filters().matches(t[a as int].set) && 0 <= r < t[a as int].entities.len() {
            assert(ids.contains(a));
            let j = choose|j: int| 0 <= j < ids.len() && ids[j] == a;
            assert(rows.contains(row_of(ids[j], r)));
        }
    }
}

} // verus!
