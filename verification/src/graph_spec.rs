//! What holds of the archetype table and of the entity directory beside it,
//! stated over their views, and why structural moves keep it.

use vstd::prelude::*;
use crate::archetype::{among, ArchetypeID, ArchetypeView};
use crate::component::{ComponentID, ComponentMetaData};
use crate::entity::{Entity, EntityRecord};
use crate::storage::ColumnView;
use crate::tracking::swap_removed;

verus! {

/// Every column of `a` has the metadata that the registry holds for it.
pub open spec fn columns_match(a: ArchetypeView, metas: Seq<ComponentMetaData>) -> bool {
    forall|c: ComponentID|
        #![trigger a.columns[c]]
        a.columns.contains_key(c) ==> c < metas.len() && a.columns[c].meta == metas[c as int]
}

/// `t` is `s` with `c` added if it was absent, removed if it was present.
pub open spec fn differ_by(s: Set<ComponentID>, t: Set<ComponentID>, c: ComponentID) -> bool {
    t == (if s.contains(c) {
        s.remove(c)
    } else {
        s.insert(c)
    })
}

/// The invariant of the archetype table.
///
/// - The root archetype exists, at id 0, and has the empty set.
/// - Every archetype stands at its id, has one column per component of its
///   set, each as long as its entity list, with the registry's metadata.
/// - No two archetypes have the same set.
/// - An edge on `c` leads to an archetype whose set differs by `c` alone.
pub open spec fn graph_inv(t: Seq<ArchetypeView>, metas: Seq<ComponentMetaData>) -> bool {
    &&& t.len() >= 1
    &&& t[0].set == Set::<ComponentID>::empty()
    &&& forall|i: int|
        0 <= i < t.len() ==> (#[trigger] t[i]).id == i && t[i].inv() && columns_match(t[i], metas)
    &&& forall|i: int, j: int|
        0 <= i < t.len() && 0 <= j < t.len() && (#[trigger] t[i]).set == (#[trigger] t[j]).set ==> i
            == j
    &&& forall|i: int, c: ComponentID|
        0 <= i < t.len() && #[trigger] t[i].edges.contains_key(c) ==> t[i].edges[c] < t.len()
            && differ_by(t[i].set, t[t[i].edges[c] as int].set, c)
}

/// The invariant that ties the directory to the table: the record of every
/// live entity names the archetype and row where the entity stands, and
/// every row holds a live entity whose record names that row.
pub open spec fn directory_inv(t: Seq<ArchetypeView>, dir: Map<Entity, EntityRecord>) -> bool {
    &&& forall|e: Entity|
        #![trigger dir[e]]
        dir.contains_key(e) ==> {
            &&& dir[e].archetype_id < t.len()
            &&& dir[e].archetype_row < t[dir[e].archetype_id as int].entities.len()
            &&& t[dir[e].archetype_id as int].entities[dir[e].archetype_row as int] == e
        }
    &&& forall|a: int, r: int|
        0 <= a < t.len() && 0 <= r < t[a].entities.len() ==> dir.contains_key(
            #[trigger] t[a].entities[r],
        ) && dir[t[a].entities[r]].archetype_id == a && dir[t[a].entities[r]].archetype_row == r
}

/// The bytes of component `c` of entity `e`, if `e` is alive and has `c`.
pub open spec fn value_of(
    t: Seq<ArchetypeView>,
    dir: Map<Entity, EntityRecord>,
    e: Entity,
    c: ComponentID,
) -> Option<Seq<u8>> {
    if dir.contains_key(e) && t[dir[e].archetype_id as int].columns.contains_key(c) {
        Some(t[dir[e].archetype_id as int].columns[c].rows[dir[e].archetype_row as int])
    } else {
        None
    }
}

/// The set of components of entity `e`, if `e` is alive.
pub open spec fn set_of(t: Seq<ArchetypeView>, dir: Map<Entity, EntityRecord>, e: Entity) -> Option<
    Set<ComponentID>,
> {
    if dir.contains_key(e) {
        Some(t[dir[e].archetype_id as int].set)
    } else {
        None
    }
}

/// `t2` has the archetypes of `t` with the same rows, and maybe more: only
/// edges may have been added, and what is new has no rows.
pub open spec fn same_rows(t: Seq<ArchetypeView>, t2: Seq<ArchetypeView>) -> bool {
    &&& t.len() <= t2.len()
    &&& forall|i: int|
        0 <= i < t.len() ==> (#[trigger] t2[i]).id == t[i].id && t2[i].set == t[i].set
            && t2[i].columns == t[i].columns && t2[i].entities == t[i].entities
    &&& forall|i: int| t.len() <= i < t2.len() ==> (#[trigger] t2[i]).entities.len() == 0
}

/// `t2` has every archetype of `t`, with the component set that it had.
pub open spec fn sets_kept(t: Seq<ArchetypeView>, t2: Seq<ArchetypeView>) -> bool {
    &&& t.len() <= t2.len()
    &&& forall|i: int| 0 <= i < t.len() ==> (#[trigger] t2[i]).set == t[i].set
}

/// `s2` is `s` after the entity of row `row` has left.
pub open spec fn moved_out(s: ArchetypeView, s2: ArchetypeView, row: int) -> bool {
    &&& s2.id == s.id
    &&& s2.set == s.set
    &&& s2.edges == s.edges
    &&& s2.entities == swap_removed(s.entities, row)
    &&& s2.columns.dom() == s.columns.dom()
    &&& forall|c: ComponentID|
        #![trigger s2.columns[c]]
        s.columns.contains_key(c) ==> s2.columns[c] == s.columns[c].swap_remove(row)
}

/// `d2` is `d` after entity `e` has arrived, each column one row longer.
pub open spec fn moved_in(d: ArchetypeView, d2: ArchetypeView, e: Entity, tick: u32) -> bool {
    &&& d2.id == d.id
    &&& d2.set == d.set
    &&& d2.edges == d.edges
    &&& d2.entities == d.entities.push(e)
    &&& d2.columns.dom() == d.columns.dom()
    &&& forall|c: ComponentID|
        #![trigger d2.columns[c]]
        d.columns.contains_key(c) ==> d2.columns[c] == d.columns[c].push_row(
            d2.columns[c].rows.last(),
            tick,
        ) && d2.columns[c].rows.last().len() == d.columns[c].meta.size
}

/// The directory after the entity at `(src, row)` has moved to the end of
/// `dst`: the entity that stood last in `src` now stands at `row`.
pub open spec fn directory_after_move(
    t: Seq<ArchetypeView>,
    dir: Map<Entity, EntityRecord>,
    e: Entity,
    dst: ArchetypeID,
) -> Map<Entity, EntityRecord> {
    let src = dir[e].archetype_id;
    let last = t[src as int].entities.last();
    dir.insert(
        last,
        EntityRecord { archetype_id: dir[last].archetype_id, archetype_row: dir[e].archetype_row },
    ).insert(
        e,
        EntityRecord { archetype_id: dst, archetype_row: t[dst as int].entities.len() as usize },
    )
}

/// A well-formed column stays so when a row of the right size is appended.
pub proof fn lemma_column_push_wf(col: ColumnView, v: Seq<u8>, tick: u32)
    requires
        col.wf(),
        v.len() == col.meta.size,
    ensures
        col.push_row(v, tick).wf(),
{
    let p = col.push_row(v, tick);
    assert forall|i: int| 0 <= i < p.rows.len() implies (#[trigger] p.rows[i]).len()
        == p.meta.size by {
        if i < col.rows.len() {
            assert(p.rows[i] == col.rows[i]);
        }
    }
}

/// A well-formed column stays so when a row is swap-removed.
pub proof fn lemma_column_swap_remove_wf(col: ColumnView, row: int)
    requires
        col.wf(),
        0 <= row < col.rows.len(),
    ensures
        col.swap_remove(row).wf(),
{
    let p = col.swap_remove(row);
    assert forall|i: int| 0 <= i < p.rows.len() implies (#[trigger] p.rows[i]).len()
        == p.meta.size by {
        if i == row {
            assert(p.rows[i] == col.rows.last());
        } else {
            assert(p.rows[i] == col.rows[i]);
        }
    }
}

/// Adding edges and empty archetypes keeps the directory right and every
/// component where it was.
pub proof fn lemma_same_rows(
    t: Seq<ArchetypeView>,
    t2: Seq<ArchetypeView>,
    dir: Map<Entity, EntityRecord>,
)
    requires
        same_rows(t, t2),
        directory_inv(t, dir),
    ensures
        directory_inv(t2, dir),
        forall|e: Entity, c: ComponentID| value_of(t2, dir, e, c) == value_of(t, dir, e, c),
        forall|e: Entity| set_of(t2, dir, e) == set_of(t, dir, e),
{
    assert forall|e: Entity| #![trigger dir[e]] dir.contains_key(e) implies {
        &&& dir[e].archetype_id < t2.len()
        &&& dir[e].archetype_row < t2[dir[e].archetype_id as int].entities.len()
        &&& t2[dir[e].archetype_id as int].entities[dir[e].archetype_row as int] == e
    } by {
        let _ = t2[dir[e].archetype_id as int];
    }
    assert forall|a: int, r: int| 0 <= a < t2.len() && 0 <= r < t2[a].entities.len() implies dir.contains_key(
        #[trigger] t2[a].entities[r],
    ) && dir[t2[a].entities[r]].archetype_id == a && dir[t2[a].entities[r]].archetype_row == r by {
        let _ = t2[a];
        if a < t.len() {
            assert(t2[a].entities[r] == t[a].entities[r]);
        }
    }
    assert forall|e: Entity, c: ComponentID| value_of(t2, dir, e, c) == value_of(t, dir, e, c) by {
        if dir.contains_key(e) {
            let _ = t2[dir[e].archetype_id as int];
        }
    }
    assert forall|e: Entity| set_of(t2, dir, e) == set_of(t, dir, e) by {
        if dir.contains_key(e) {
            let _ = t2[dir[e].archetype_id as int];
        }
    }
}

/// Moving a row from one archetype to the end of another keeps the table's
/// invariant.
pub proof fn lemma_move_keeps_graph(
    t: Seq<ArchetypeView>,
    metas: Seq<ComponentMetaData>,
    src: int,
    dst: int,
    row: int,
    e: Entity,
    tick: u32,
    t2: Seq<ArchetypeView>,
)
    requires
        graph_inv(t, metas),
        0 <= src < t.len(),
        0 <= dst < t.len(),
        src != dst,
        0 <= row < t[src].entities.len(),
        t2.len() == t.len(),
        forall|i: int| 0 <= i < t.len() && i != src && i != dst ==> t2[i] == t[i],
        moved_out(t[src], t2[src], row),
        moved_in(t[dst], t2[dst], e, tick),
    ensures
        graph_inv(t2, metas),
{
    assert forall|i: int| 0 <= i < t2.len() implies (#[trigger] t2[i]).id == i && t2[i].inv()
        && columns_match(t2[i], metas) by {
        let _ = t[i];
        if i == src {
            assert forall|c: ComponentID|
                #![trigger t2[i].columns[c]]
                t2[i].columns.contains_key(c) implies {
                &&& t2[i].columns[c].wf()
                &&& t2[i].columns[c].id == c
                &&& t2[i].columns[c].rows.len() == t2[i].entities.len()
                &&& c < metas.len()
                &&& t2[i].columns[c].meta == metas[c as int]
            } by {
                assert(t[i].columns.dom().contains(c));
                let _ = t[i].columns[c];
                lemma_column_swap_remove_wf(t[i].columns[c], row);
            }
        } else if i == dst {
            assert forall|c: ComponentID|
                #![trigger t2[i].columns[c]]
                t2[i].columns.contains_key(c) implies {
                &&& t2[i].columns[c].wf()
                &&& t2[i].columns[c].id == c
                &&& t2[i].columns[c].rows.len() == t2[i].entities.len()
                &&& c < metas.len()
                &&& t2[i].columns[c].meta == metas[c as int]
            } by {
                assert(t[i].columns.dom().contains(c));
                let _ = t[i].columns[c];
                lemma_column_push_wf(t[i].columns[c], t2[i].columns[c].rows.last(), tick);
            }
        }
    }
    assert forall|i: int, j: int|
        0 <= i < t2.len() && 0 <= j < t2.len() && (#[trigger] t2[i]).set == (#[trigger] t2[j]).set implies i
        == j by {
        assert(t2[i].set == t[i].set);
        assert(t2[j].set == t[j].set);
    }
    assert forall|i: int, c: ComponentID|
        0 <= i < t2.len() && #[trigger] t2[i].edges.contains_key(c) implies t2[i].edges[c] < t2.len()
        && differ_by(t2[i].set, t2[t2[i].edges[c] as int].set, c) by {
        assert(t2[i].edges == t[i].edges);
        assert(t[i].edges.contains_key(c));
        let j = t[i].edges[c] as int;
        assert(t2[i].set == t[i].set);
        assert(t2[j].set == t[j].set);
    }
}

/// Moving the row of `e` from its archetype to the end of `dst` keeps the
/// directory right, given that the directory follows as
/// `directory_after_move` says; every other entity keeps its components,
/// and `e` has what stands in the last row of `dst`.
pub proof fn lemma_move_keeps_directory(
    t: Seq<ArchetypeView>,
    dir: Map<Entity, EntityRecord>,
    e: Entity,
    dst: ArchetypeID,
    tick: u32,
    t2: Seq<ArchetypeView>,
)
    requires
        directory_inv(t, dir),
        dir.contains_key(e),
        dst < t.len(),
        dst != dir[e].archetype_id,
        t[dst as int].entities.len() < usize::MAX,
        forall|i: int| 0 <= i < t.len() ==> (#[trigger] t[i]).inv(),
        t2.len() == t.len(),
        forall|i: int| 0 <= i < t.len() && i != dir[e].archetype_id && i != dst ==> t2[i] == t[i],
        moved_out(t[dir[e].archetype_id as int], t2[dir[e].archetype_id as int], dir[e].archetype_row as int),
        moved_in(t[dst as int], t2[dst as int], e, tick),
    ensures
        directory_inv(t2, directory_after_move(t, dir, e, dst)),
        directory_after_move(t, dir, e, dst).dom() == dir.dom(),
        forall|x: Entity, c: ComponentID|
            x != e ==> value_of(t2, directory_after_move(t, dir, e, dst), x, c) == value_of(
                t,
                dir,
                x,
                c,
            ),
        forall|x: Entity|
            x != e ==> set_of(t2, directory_after_move(t, dir, e, dst), x) == set_of(
                t,
                dir,
                x,
            ),
        forall|c: ComponentID|
            value_of(t2, directory_after_move(t, dir, e, dst), e, c) == (if t[dst as int].columns.contains_key(
                c,
            ) {
                Some(t2[dst as int].columns[c].rows.last())
            } else {
                None
            }),
        set_of(t2, directory_after_move(t, dir, e, dst), e) == Some(t[dst as int].set),
{
    let src = dir[e].archetype_id as int;
    let row = dir[e].archetype_row as int;
    let n = t[src].entities.len() as int;
    let last = t[src].entities.last();
    let dir2 = directory_after_move(t, dir, e, dst);
    assert(dir[e].archetype_id < t.len());
    assert(0 <= row < n);
    assert(t[src].entities[row] == e);
    assert(t[src].entities[n - 1] == last);
    assert(dir.contains_key(last) && dir[last].archetype_id == src && dir[last].archetype_row == n - 1);
    assert(dir2.dom() =~= dir.dom());
    // Where each entity stands afterwards.
    assert forall|x: Entity| #![trigger dir2[x]] dir2.contains_key(x) implies {
        &&& dir2[x].archetype_id < t2.len()
        &&& dir2[x].archetype_row < t2[dir2[x].archetype_id as int].entities.len()
        &&& t2[dir2[x].archetype_id as int].entities[dir2[x].archetype_row as int] == x
    } by {
        let _ = dir[x];
        if x == e {
        } else if x == last {
            assert(row != n - 1);
        } else {
            let a = dir[x].archetype_id as int;
            let r = dir[x].archetype_row as int;
            assert(t[a].entities[r] == x);
            if a == src {
                assert(r != row);
                assert(r != n - 1);
            }
        }
    }
    assert forall|a: int, r: int| 0 <= a < t2.len() && 0 <= r < t2[a].entities.len() implies dir2.contains_key(
        #[trigger] t2[a].entities[r],
    ) && dir2[t2[a].entities[r]].archetype_id == a && dir2[t2[a].entities[r]].archetype_row == r by {
        if a == src {
            if r == row {
                assert(t2[a].entities[r] == last);
            } else {
                assert(t2[a].entities[r] == t[a].entities[r]);
                let x = t[a].entities[r];
                assert(dir[x].archetype_id == a && dir[x].archetype_row == r);
                assert(x != e);
                assert(x != last);
            }
        } else if a == dst {
            if r == t[dst as int].entities.len() {
                assert(t2[a].entities[r] == e);
            } else {
                assert(t2[a].entities[r] == t[a].entities[r]);
                let x = t[a].entities[r];
                assert(dir[x].archetype_id == a && dir[x].archetype_row == r);
            }
        } else {
            assert(t2[a] == t[a]);
            let x = t[a].entities[r];
            assert(dir[x].archetype_id == a && dir[x].archetype_row == r);
        }
    }
    // What each entity holds afterwards.
    assert forall|x: Entity, c: ComponentID| x != e implies value_of(t2, dir2, x, c) == value_of(
        t,
        dir,
        x,
        c,
    ) by {
        if dir.contains_key(x) {
            let _ = dir[x];
            let a = dir[x].archetype_id as int;
            let r = dir[x].archetype_row as int;
            assert(t[a].entities[r] == x);
            assert(t2[a].columns.dom() == t[a].columns.dom());
            if t[a].columns.contains_key(c) {
                assert(t[a].columns.dom().contains(c));
                let _ = t[a].columns[c];
                let _ = t2[a].columns[c];
                if a == src {
                    assert(r != row);
                    if x == last {
                        assert(r == n - 1);
                    }
                }
            } else {
                assert(!t[a].columns.dom().contains(c));
            }
        }
    }
    assert forall|x: Entity| x != e implies set_of(t2, dir2, x) == set_of(t, dir, x) by {
        if dir.contains_key(x) {
            let _ = dir[x];
        }
    }
    assert forall|c: ComponentID| value_of(t2, dir2, e, c) == (if t[dst as int].columns.contains_key(c) {
        Some(t2[dst as int].columns[c].rows.last())
    } else {
        None
    }) by {
        assert(t2[dst as int].columns.dom() == t[dst as int].columns.dom());
        if t[dst as int].columns.contains_key(c) {
            assert(t[dst as int].columns.dom().contains(c));
            let _ = t[dst as int].columns[c];
            let _ = t2[dst as int].columns[c];
        } else {
            assert(!t[dst as int].columns.dom().contains(c));
        }
    }
}

/// Swap-removing the row of `e` from its archetype, and `e` from the
/// directory, keeps the table's invariant and the directory right; every
/// other entity keeps its components.
pub proof fn lemma_delete_keeps(
    t: Seq<ArchetypeView>,
    metas: Seq<ComponentMetaData>,
    dir: Map<Entity, EntityRecord>,
    e: Entity,
    t2: Seq<ArchetypeView>,
    dir2: Map<Entity, EntityRecord>,
)
    requires
        graph_inv(t, metas),
        directory_inv(t, dir),
        dir.contains_key(e),
        t2.len() == t.len(),
        forall|i: int| 0 <= i < t.len() && i != dir[e].archetype_id ==> t2[i] == t[i],
        moved_out(t[dir[e].archetype_id as int], t2[dir[e].archetype_id as int], dir[e].archetype_row as int),
        dir2 == dir.insert(
            t[dir[e].archetype_id as int].entities.last(),
            EntityRecord {
                archetype_id: dir[t[dir[e].archetype_id as int].entities.last()].archetype_id,
                archetype_row: dir[e].archetype_row,
            },
        ).remove(e),
    ensures
        graph_inv(t2, metas),
        directory_inv(t2, dir2),
        dir2.dom() == dir.dom().remove(e),
        forall|x: Entity, c: ComponentID| x != e ==> value_of(t2, dir2, x, c) == value_of(t, dir, x, c),
        forall|x: Entity| x != e ==> set_of(t2, dir2, x) == set_of(t, dir, x),
{
    let src = dir[e].archetype_id as int;
    let row = dir[e].archetype_row as int;
    let n = t[src].entities.len() as int;
    let last = t[src].entities.last();
    assert(dir[e].archetype_id < t.len());
    assert(0 <= row < n);
    assert(t[src].entities[row] == e);
    assert(t[src].entities[n - 1] == last);
    assert(dir.contains_key(last) && dir[last].archetype_id == src && dir[last].archetype_row == n - 1);
    assert(dir2.dom() =~= dir.dom().remove(e));
    assert forall|i: int| 0 <= i < t2.len() implies (#[trigger] t2[i]).id == i && t2[i].inv()
        && columns_match(t2[i], metas) by {
        let _ = t[i];
        if i == src {
            assert forall|c: ComponentID|
                #![trigger t2[i].columns[c]]
                t2[i].columns.contains_key(c) implies {
                &&& t2[i].columns[c].wf()
                &&& t2[i].columns[c].id == c
                &&& t2[i].columns[c].rows.len() == t2[i].entities.len()
                &&& c < metas.len()
                &&& t2[i].columns[c].meta == metas[c as int]
            } by {
                assert(t[i].columns.dom().contains(c));
                let _ = t[i].columns[c];
                lemma_column_swap_remove_wf(t[i].columns[c], row);
            }
        }
    }
    assert forall|i: int, j: int|
        0 <= i < t2.len() && 0 <= j < t2.len() && (#[trigger] t2[i]).set == (#[trigger] t2[j]).set implies i
        == j by {
        assert(t2[i].set == t[i].set);
        assert(t2[j].set == t[j].set);
    }
    assert forall|i: int, c: ComponentID|
        0 <= i < t2.len() && #[trigger] t2[i].edges.contains_key(c) implies t2[i].edges[c] < t2.len()
        && differ_by(t2[i].set, t2[t2[i].edges[c] as int].set, c) by {
        assert(t2[i].edges == t[i].edges);
        assert(t[i].edges.contains_key(c));
        let j = t[i].edges[c] as int;
        assert(t2[i].set == t[i].set);
        assert(t2[j].set == t[j].set);
    }
    assert forall|x: Entity| #![trigger dir2[x]] dir2.contains_key(x) implies {
        &&& dir2[x].archetype_id < t2.len()
        &&& dir2[x].archetype_row < t2[dir2[x].archetype_id as int].entities.len()
        &&& t2[dir2[x].archetype_id as int].entities[dir2[x].archetype_row as int] == x
    } by {
        let _ = dir[x];
        if x == last {
            assert(row != n - 1);
        } else {
            let a = dir[x].archetype_id as int;
            let r = dir[x].archetype_row as int;
            assert(t[a].entities[r] == x);
            if a == src {
                assert(r != row);
                assert(r != n - 1);
            }
        }
    }
    assert forall|a: int, r: int| 0 <= a < t2.len() && 0 <= r < t2[a].entities.len() implies dir2.contains_key(
        #[trigger] t2[a].entities[r],
    ) && dir2[t2[a].entities[r]].archetype_id == a && dir2[t2[a].entities[r]].archetype_row == r by {
        if a == src {
            if r == row {
                assert(t2[a].entities[r] == last);
                assert(last != e);
            } else {
                assert(t2[a].entities[r] == t[a].entities[r]);
                let x = t[a].entities[r];
                assert(dir[x].archetype_id == a && dir[x].archetype_row == r);
                assert(x != e);
                assert(x != last);
            }
        } else {
            assert(t2[a] == t[a]);
            let x = t[a].entities[r];
            assert(dir[x].archetype_id == a && dir[x].archetype_row == r);
        }
    }
    assert forall|x: Entity, c: ComponentID| x != e implies value_of(t2, dir2, x, c) == value_of(
        t,
        dir,
        x,
        c,
    ) by {
        if dir.contains_key(x) {
            let _ = dir[x];
            let a = dir[x].archetype_id as int;
            let r = dir[x].archetype_row as int;
            assert(t[a].entities[r] == x);
            assert(t2[a].columns.dom() == t[a].columns.dom());
            if t[a].columns.contains_key(c) {
                assert(t[a].columns.dom().contains(c));
                let _ = t[a].columns[c];
                let _ = t2[a].columns[c];
                if a == src {
                    assert(r != row);
                    if x == last {
                        assert(r == n - 1);
                    }
                }
            } else {
                assert(!t[a].columns.dom().contains(c));
            }
        }
    }
    assert forall|x: Entity| x != e implies set_of(t2, dir2, x) == set_of(t, dir, x) by {
        if dir.contains_key(x) {
            let _ = dir[x];
        }
    }
}

/// If `t` differs from `s` by `c`, then `s` differs from `t` by `c`.
pub proof fn lemma_differ_by_symmetric(s: Set<ComponentID>, t: Set<ComponentID>, c: ComponentID)
    requires
        differ_by(s, t, c),
    ensures
        differ_by(t, s, c),
{
    if s.contains(c) {
        assert(t.insert(c) =~= s);
    } else {
        assert(t.remove(c) =~= s);
    }
}

/// Appending an empty archetype with a new set keeps the table's invariant.
pub proof fn lemma_push_keeps_graph(
    t: Seq<ArchetypeView>,
    metas: Seq<ComponentMetaData>,
    v: ArchetypeView,
)
    requires
        graph_inv(t, metas),
        v.id == t.len(),
        v.inv(),
        columns_match(v, metas),
        v.edges == Map::<ComponentID, ArchetypeID>::empty(),
        v.entities.len() == 0,
        forall|i: int| 0 <= i < t.len() ==> (#[trigger] t[i]).set != v.set,
    ensures
        graph_inv(t.push(v), metas),
        same_rows(t, t.push(v)),
{
    let t2 = t.push(v);
    assert forall|i: int| 0 <= i < t2.len() implies (#[trigger] t2[i]).id == i && t2[i].inv()
        && columns_match(t2[i], metas) by {
        if i < t.len() {
            assert(t2[i] == t[i]);
        }
    }
    assert forall|i: int, j: int|
        0 <= i < t2.len() && 0 <= j < t2.len() && (#[trigger] t2[i]).set == (#[trigger] t2[j]).set implies i
        == j by {
        if i < t.len() {
            assert(t2[i] == t[i]);
        }
        if j < t.len() {
            assert(t2[j] == t[j]);
        }
    }
    assert forall|i: int, c: ComponentID|
        0 <= i < t2.len() && #[trigger] t2[i].edges.contains_key(c) implies t2[i].edges[c] < t2.len()
        && differ_by(t2[i].set, t2[t2[i].edges[c] as int].set, c) by {
        if i < t.len() {
            assert(t2[i] == t[i]);
            assert(t[i].edges.contains_key(c));
            let j = t[i].edges[c] as int;
            assert(t2[j] == t[j]);
        }
    }
    assert(t2[0] == t[0]);
    assert forall|i: int| 0 <= i < t.len() implies (#[trigger] t2[i]).id == t[i].id && t2[i].set
        == t[i].set && t2[i].columns == t[i].columns && t2[i].entities == t[i].entities by {
        assert(t2[i] == t[i]);
    }
}

/// The root archetype of a new table: at position 0, with the empty set,
/// without columns, edges or rows.
pub open spec fn root_archetype() -> ArchetypeView {
    ArchetypeView {
        id: 0,
        set: Set::empty(),
        edges: Map::empty(),
        columns: Map::empty(),
        entities: Seq::empty(),
    }
}

/// An archetype for the set `set` at position `id`, without rows or edges:
/// it has one empty column without tracker for each component of the set.
pub open spec fn fresh_archetype(
    id: ArchetypeID,
    set: Set<ComponentID>,
    metas: Seq<ComponentMetaData>,
) -> ArchetypeView {
    ArchetypeView {
        id,
        set,
        edges: Map::empty(),
        columns: Map::new(
            |c: ComponentID| set.contains(c),
            |c: ComponentID| ColumnView::empty(c, metas[c as int]),
        ),
        entities: Seq::empty(),
    }
}

/// The table `t` with an edge on `c` from `src` to `dst` and one back.
pub open spec fn with_edge(t: Seq<ArchetypeView>, src: int, dst: int, c: ComponentID) -> Seq<
    ArchetypeView,
> {
    Seq::new(
        t.len(),
        |i: int|
            ArchetypeView {
                edges: if i == dst {
                    t[i].edges.insert(c, src as usize)
                } else if i == src {
                    t[i].edges.insert(c, dst as usize)
                } else {
                    t[i].edges
                },
                ..t[i]
            },
    )
}

/// Recording an edge between two archetypes whose sets differ by the
/// edge's component keeps the table's invariant.
pub proof fn lemma_edge_keeps_graph(
    t: Seq<ArchetypeView>,
    metas: Seq<ComponentMetaData>,
    src: int,
    dst: int,
    c: ComponentID,
    t2: Seq<ArchetypeView>,
)
    requires
        graph_inv(t, metas),
        0 <= src < t.len(),
        0 <= dst < t.len(),
        src != dst,
        differ_by(t[src].set, t[dst].set, c),
        t2.len() == t.len(),
        forall|i: int|
            0 <= i < t.len() ==> (#[trigger] t2[i]).id == t[i].id && t2[i].set == t[i].set
                && t2[i].columns == t[i].columns && t2[i].entities == t[i].entities,
        forall|i: int| 0 <= i < t.len() && i != src && i != dst ==> (#[trigger] t2[i]).edges == t[i].edges,
        t2[src].edges == t[src].edges.insert(c, dst as usize),
        t2[dst].edges == t[dst].edges.insert(c, src as usize),
    ensures
        graph_inv(t2, metas),
        same_rows(t, t2),
{
    lemma_differ_by_symmetric(t[src].set, t[dst].set, c);
    assert forall|i: int| 0 <= i < t2.len() implies (#[trigger] t2[i]).id == i && t2[i].inv()
        && columns_match(t2[i], metas) by {
        let _ = t[i];
        assert forall|d: ComponentID|
            #![trigger t2[i].columns[d]]
            t2[i].columns.contains_key(d) implies {
            &&& t2[i].columns[d].wf()
            &&& t2[i].columns[d].id == d
            &&& t2[i].columns[d].rows.len() == t2[i].entities.len()
            &&& d < metas.len()
            &&& t2[i].columns[d].meta == metas[d as int]
        } by {
            let _ = t[i].columns[d];
        }
    }
    assert forall|i: int, j: int|
        0 <= i < t2.len() && 0 <= j < t2.len() && (#[trigger] t2[i]).set == (#[trigger] t2[j]).set implies i
        == j by {
        assert(t2[i].set == t[i].set);
        assert(t2[j].set == t[j].set);
    }
    assert forall|i: int, d: ComponentID|
        0 <= i < t2.len() && #[trigger] t2[i].edges.contains_key(d) implies t2[i].edges[d] < t2.len()
        && differ_by(t2[i].set, t2[t2[i].edges[d] as int].set, d) by {
        let _ = t[i];
        assert(t2[src].set == t[src].set);
        assert(t2[dst].set == t[dst].set);
        if (i == src || i == dst) && d == c {
        } else {
            assert(t[i].edges.contains_key(d));
            let j = t[i].edges[d] as int;
            assert(t2[j].set == t[j].set);
        }
    }
    assert(t2[0].set == t[0].set);
}

/// The archetype `d` after entity `e` has arrived from row `row` of `s`
/// with the columns `ids`, and `value` has been appended to its column for
/// `comp_id`.
pub open spec fn arrived_with(
    d: ArchetypeView,
    s: ArchetypeView,
    ids: Seq<ComponentID>,
    row: int,
    e: Entity,
    comp_id: ComponentID,
    value: Seq<u8>,
    tick: u32,
) -> ArchetypeView {
    let g = d.give_row(s, ids, row, e, tick);
    ArchetypeView {
        id: g.id,
        set: g.set,
        edges: g.edges,
        columns: g.columns.insert(comp_id, g.columns[comp_id].push_row(value, tick)),
        entities: g.entities,
    }
}

/// The archetype `s` after the entity of row `row` has left with the
/// columns `ids`, and its value in the column for `comp_id` has been
/// dropped.
pub open spec fn left_without(
    s: ArchetypeView,
    ids: Seq<ComponentID>,
    row: int,
    comp_id: ComponentID,
) -> ArchetypeView {
    let k = s.take_row(ids, row);
    ArchetypeView {
        id: k.id,
        set: k.set,
        edges: k.edges,
        columns: k.columns.insert(comp_id, k.columns[comp_id].swap_remove(row)),
        entities: k.entities,
    }
}

/// Giving entity `e` the component `comp_id`, by moving its row to the
/// archetype `dst` of the larger set, keeps both invariants, gives `e` the
/// value, and leaves every other component of every entity as it was.
pub proof fn lemma_add_component(
    t: Seq<ArchetypeView>,
    metas: Seq<ComponentMetaData>,
    dir: Map<Entity, EntityRecord>,
    e: Entity,
    dst: ArchetypeID,
    comp_id: ComponentID,
    value: Seq<u8>,
    ids: Seq<ComponentID>,
    tick: u32,
    t2: Seq<ArchetypeView>,
)
    requires
        graph_inv(t, metas),
        directory_inv(t, dir),
        dir.contains_key(e),
        dst < t.len(),
        !t[dir[e].archetype_id as int].set.contains(comp_id),
        t[dst as int].set == t[dir[e].archetype_id as int].set.insert(comp_id),
        comp_id < metas.len(),
        value.len() == metas[comp_id as int].size,
        t[dst as int].entities.len() < usize::MAX,
        forall|c: ComponentID|
            t[dir[e].archetype_id as int].columns.contains_key(c) <==> among(ids, ids.len() as int, c),
        t2.len() == t.len(),
        forall|i: int| 0 <= i < t.len() && i != dir[e].archetype_id && i != dst ==> t2[i] == t[i],
        t2[dir[e].archetype_id as int] == t[dir[e].archetype_id as int].take_row(
            ids,
            dir[e].archetype_row as int,
        ),
        t2[dst as int] == arrived_with(
            t[dst as int],
            t[dir[e].archetype_id as int],
            ids,
            dir[e].archetype_row as int,
            e,
            comp_id,
            value,
            tick,
        ),
    ensures
        graph_inv(t2, metas),
        directory_inv(t2, directory_after_move(t, dir, e, dst)),
        directory_after_move(t, dir, e, dst).dom() == dir.dom(),
        forall|x: Entity, c: ComponentID|
            value_of(t2, directory_after_move(t, dir, e, dst), x, c) == (if x == e && c == comp_id {
                Some(value)
            } else {
                value_of(t, dir, x, c)
            }),
        forall|x: Entity|
            set_of(t2, directory_after_move(t, dir, e, dst), x) == (if x == e {
                Some(t[dir[e].archetype_id as int].set.insert(comp_id))
            } else {
                set_of(t, dir, x)
            }),
{
    let src = dir[e].archetype_id as int;
    let row = dir[e].archetype_row as int;
    let s = t[src];
    let d = t[dst as int];
    let dir2 = directory_after_move(t, dir, e, dst);
    assert(dir[e].archetype_id < t.len());
    assert(0 <= row < s.entities.len());
    assert(src != dst) by {
        if src == dst {
            assert(d.set.contains(comp_id));
        }
    }
    assert(t2[src].columns.dom() =~= s.columns.dom());
    assert(moved_out(s, t2[src], row));
    assert(t2[dst as int].columns.dom() =~= d.columns.dom()) by {
        assert(d.columns.dom().contains(comp_id));
    }
    assert forall|c: ComponentID|
        #![trigger t2[dst as int].columns[c]]
        d.columns.contains_key(c) implies t2[dst as int].columns[c]
        == d.columns[c].push_row(t2[dst as int].columns[c].rows.last(), tick)
        && t2[dst as int].columns[c].rows.last().len() == d.columns[c].meta.size by {
        assert(d.columns.dom().contains(c));
        let _ = d.columns[c];
        if c == comp_id {
            assert(!s.columns.dom().contains(c));
            assert(d.columns[c].push_row(value, tick).rows.last() == value);
        } else {
            assert(s.set.contains(c));
            assert(s.columns.dom().contains(c));
            let _ = s.columns[c];
            let v = s.columns[c].rows[row];
            assert(d.columns[c].push_row(v, tick).rows.last() == v);
        }
    }
    assert(moved_in(d, t2[dst as int], e, tick));
    lemma_move_keeps_graph(t, metas, src, dst as int, row, e, tick, t2);
    lemma_move_keeps_directory(t, dir, e, dst, tick, t2);
    assert forall|x: Entity, c: ComponentID| value_of(t2, dir2, x, c) == (if x == e && c == comp_id {
        Some(value)
    } else {
        value_of(t, dir, x, c)
    }) by {
        if x == e {
            if c == comp_id {
                assert(d.columns.dom().contains(c));
                assert(d.columns[c].push_row(value, tick).rows.last() == value);
            } else if s.columns.contains_key(c) {
                assert(s.columns.dom().contains(c));
                assert(d.columns.dom().contains(c));
                let v = s.columns[c].rows[row];
                assert(d.columns[c].push_row(v, tick).rows.last() == v);
            } else {
                assert(!s.columns.dom().contains(c));
                assert(!d.columns.dom().contains(c));
            }
        }
    }
}

/// Taking the component `comp_id` from entity `e`, by moving its row to
/// the archetype `dst` of the smaller set, keeps both invariants, leaves
/// `e` without the component, and leaves every other component of every
/// entity as it was.
pub proof fn lemma_remove_component(
    t: Seq<ArchetypeView>,
    metas: Seq<ComponentMetaData>,
    dir: Map<Entity, EntityRecord>,
    e: Entity,
    dst: ArchetypeID,
    comp_id: ComponentID,
    ids: Seq<ComponentID>,
    tick: u32,
    t2: Seq<ArchetypeView>,
)
    requires
        graph_inv(t, metas),
        directory_inv(t, dir),
        dir.contains_key(e),
        dst < t.len(),
        t[dir[e].archetype_id as int].set.contains(comp_id),
        t[dst as int].set == t[dir[e].archetype_id as int].set.remove(comp_id),
        t[dst as int].entities.len() < usize::MAX,
        forall|c: ComponentID| t[dst as int].columns.contains_key(c) <==> among(ids, ids.len() as int, c),
        t2.len() == t.len(),
        forall|i: int| 0 <= i < t.len() && i != dir[e].archetype_id && i != dst ==> t2[i] == t[i],
        t2[dir[e].archetype_id as int] == left_without(
            t[dir[e].archetype_id as int],
            ids,
            dir[e].archetype_row as int,
            comp_id,
        ),
        t2[dst as int] == t[dst as int].give_row(
            t[dir[e].archetype_id as int],
            ids,
            dir[e].archetype_row as int,
            e,
            tick,
        ),
    ensures
        graph_inv(t2, metas),
        directory_inv(t2, directory_after_move(t, dir, e, dst)),
        directory_after_move(t, dir, e, dst).dom() == dir.dom(),
        forall|x: Entity, c: ComponentID|
            value_of(t2, directory_after_move(t, dir, e, dst), x, c) == (if x == e && c == comp_id {
                None
            } else {
                value_of(t, dir, x, c)
            }),
        forall|x: Entity|
            set_of(t2, directory_after_move(t, dir, e, dst), x) == (if x == e {
                Some(t[dir[e].archetype_id as int].set.remove(comp_id))
            } else {
                set_of(t, dir, x)
            }),
{
    let src = dir[e].archetype_id as int;
    let row = dir[e].archetype_row as int;
    let s = t[src];
    let d = t[dst as int];
    let dir2 = directory_after_move(t, dir, e, dst);
    assert(dir[e].archetype_id < t.len());
    assert(0 <= row < s.entities.len());
    assert(src != dst) by {
        if src == dst {
            assert(!d.set.contains(comp_id));
        }
    }
    assert(s.columns.dom().contains(comp_id));
    assert(!d.columns.dom().contains(comp_id));
    assert(t2[src].columns.dom() =~= s.columns.dom());
    assert forall|c: ComponentID|
        #![trigger t2[src].columns[c]]
        s.columns.contains_key(c) implies t2[src].columns[c]
        == s.columns[c].swap_remove(row) by {
        if c != comp_id {
            assert(s.columns.dom().contains(c));
            assert(d.set.contains(c));
            assert(d.columns.dom().contains(c));
        }
    }
    assert(moved_out(s, t2[src], row));
    assert(t2[dst as int].columns.dom() =~= d.columns.dom());
    assert forall|c: ComponentID|
        #![trigger t2[dst as int].columns[c]]
        d.columns.contains_key(c) implies t2[dst as int].columns[c]
        == d.columns[c].push_row(t2[dst as int].columns[c].rows.last(), tick)
        && t2[dst as int].columns[c].rows.last().len() == d.columns[c].meta.size by {
        assert(d.columns.dom().contains(c));
        let _ = d.columns[c];
        assert(s.set.contains(c));
        assert(s.columns.dom().contains(c));
        let _ = s.columns[c];
        let v = s.columns[c].rows[row];
        assert(d.columns[c].push_row(v, tick).rows.last() == v);
    }
    assert(moved_in(d, t2[dst as int], e, tick));
    lemma_move_keeps_graph(t, metas, src, dst as int, row, e, tick, t2);
    lemma_move_keeps_directory(t, dir, e, dst, tick, t2);
    assert forall|x: Entity, c: ComponentID| value_of(t2, dir2, x, c) == (if x == e && c == comp_id {
        None
    } else {
        value_of(t, dir, x, c)
    }) by {
        if x == e {
            if c == comp_id {
            } else if s.columns.contains_key(c) {
                assert(s.columns.dom().contains(c));
                assert(d.set.contains(c));
                assert(d.columns.dom().contains(c));
                let v = s.columns[c].rows[row];
                assert(d.columns[c].push_row(v, tick).rows.last() == v);
            } else {
                assert(!s.columns.dom().contains(c));
                assert(!d.set.contains(c));
                assert(!d.columns.dom().contains(c));
            }
        }
    }
}

/// Registering one more component type keeps the table's invariant.
pub proof fn lemma_metas_grow(
    t: Seq<ArchetypeView>,
    metas: Seq<ComponentMetaData>,
    meta: ComponentMetaData,
)
    requires
        graph_inv(t, metas),
    ensures
        graph_inv(t, metas.push(meta)),
{
    let m2 = metas.push(meta);
    assert forall|i: int| 0 <= i < t.len() implies (#[trigger] t[i]).id == i && t[i].inv()
        && columns_match(t[i], m2) by {
        assert(columns_match(t[i], metas));
        assert forall|c: ComponentID| #![trigger t[i].columns[c]] t[i].columns.contains_key(c) implies c
            < m2.len() && t[i].columns[c].meta == m2[c as int] by {
            assert(m2[c as int] == metas[c as int]);
        }
    }
}

/// Appending a new entity to the root archetype, and its record to the
/// directory, keeps both invariants and every component where it was; the
/// new entity has no component.
pub proof fn lemma_create_keeps(
    t: Seq<ArchetypeView>,
    metas: Seq<ComponentMetaData>,
    dir: Map<Entity, EntityRecord>,
    e: Entity,
    t2: Seq<ArchetypeView>,
    dir2: Map<Entity, EntityRecord>,
)
    requires
        graph_inv(t, metas),
        directory_inv(t, dir),
        !dir.contains_key(e),
        t[0].entities.len() < usize::MAX,
        t2.len() == t.len(),
        forall|i: int| 1 <= i < t.len() ==> t2[i] == t[i],
        t2[0].id == t[0].id,
        t2[0].set == t[0].set,
        t2[0].edges == t[0].edges,
        t2[0].columns == t[0].columns,
        t2[0].entities == t[0].entities.push(e),
        dir2 == dir.insert(
            e,
            EntityRecord { archetype_id: 0, archetype_row: t[0].entities.len() as usize },
        ),
    ensures
        graph_inv(t2, metas),
        directory_inv(t2, dir2),
        forall|x: Entity, c: ComponentID| value_of(t2, dir2, x, c) == value_of(t, dir, x, c),
        forall|x: Entity| x != e ==> set_of(t2, dir2, x) == set_of(t, dir, x),
        set_of(t2, dir2, e) == Some(Set::<ComponentID>::empty()),
{
    assert(t[0].columns.dom() =~= Set::<ComponentID>::empty());
    assert forall|i: int| 0 <= i < t2.len() implies (#[trigger] t2[i]).id == i && t2[i].inv()
        && columns_match(t2[i], metas) by {
        let _ = t[i];
        if i == 0 {
            assert forall|c: ComponentID| !t2[0].columns.contains_key(c) by {
                assert(!t[0].columns.dom().contains(c));
            }
        }
    }
    assert forall|i: int, j: int|
        0 <= i < t2.len() && 0 <= j < t2.len() && (#[trigger] t2[i]).set == (#[trigger] t2[j]).set implies i
        == j by {
        assert(t2[i].set == t[i].set);
        assert(t2[j].set == t[j].set);
    }
    assert forall|i: int, c: ComponentID|
        0 <= i < t2.len() && #[trigger] t2[i].edges.contains_key(c) implies t2[i].edges[c] < t2.len()
        && differ_by(t2[i].set, t2[t2[i].edges[c] as int].set, c) by {
        assert(t2[i].edges == t[i].edges);
        assert(t[i].edges.contains_key(c));
        let j = t[i].edges[c] as int;
        assert(t2[i].set == t[i].set);
        assert(t2[j].set == t[j].set);
    }
    assert forall|x: Entity| #![trigger dir2[x]] dir2.contains_key(x) implies {
        &&& dir2[x].archetype_id < t2.len()
        &&& dir2[x].archetype_row < t2[dir2[x].archetype_id as int].entities.len()
        &&& t2[dir2[x].archetype_id as int].entities[dir2[x].archetype_row as int] == x
    } by {
        if x != e {
            let _ = dir[x];
            let a = dir[x].archetype_id as int;
            let r = dir[x].archetype_row as int;
            assert(t[a].entities[r] == x);
        }
    }
    assert forall|a: int, r: int| 0 <= a < t2.len() && 0 <= r < t2[a].entities.len() implies dir2.contains_key(
        #[trigger] t2[a].entities[r],
    ) && dir2[t2[a].entities[r]].archetype_id == a && dir2[t2[a].entities[r]].archetype_row == r by {
        if a == 0 && r == t[0].entities.len() {
        } else {
            assert(t2[a].entities[r] == t[a].entities[r]);
            let x = t[a].entities[r];
            assert(dir[x].archetype_id == a && dir[x].archetype_row == r);
        }
    }
    assert forall|x: Entity, c: ComponentID| value_of(t2, dir2, x, c) == value_of(t, dir, x, c) by {
        if x == e {
            assert(!t[0].columns.dom().contains(c));
        } else if dir.contains_key(x) {
            let _ = dir[x];
            let a = dir[x].archetype_id as int;
            let _ = t2[a];
        }
    }
    assert forall|x: Entity| x != e implies set_of(t2, dir2, x) == set_of(t, dir, x) by {
        if dir.contains_key(x) {
            let _ = dir[x];
            let a = dir[x].archetype_id as int;
            let _ = t2[a];
        }
    }
}

/// `c2` is `c` with another tracker, or with its tracker changed, of the
/// right length.
pub open spec fn same_rows_of_column(c: ColumnView, c2: ColumnView) -> bool {
    &&& c2.id == c.id
    &&& c2.meta == c.meta
    &&& c2.rows == c.rows
    &&& c2.tracker matches Some(t) ==> t.ticks.len() == c.rows.len()
}

/// `t2` is `t` with nothing changed but trackers.
pub open spec fn same_data(t: Seq<ArchetypeView>, t2: Seq<ArchetypeView>) -> bool {
    &&& t2.len() == t.len()
    &&& forall|i: int|
        0 <= i < t.len() ==> {
            &&& (#[trigger] t2[i]).id == t[i].id
            &&& t2[i].set == t[i].set
            &&& t2[i].edges == t[i].edges
            &&& t2[i].entities == t[i].entities
            &&& t2[i].columns.dom() == t[i].columns.dom()
            &&& forall|c: ComponentID|
                #![trigger t2[i].columns[c]]
                t[i].columns.contains_key(c) ==> same_rows_of_column(t[i].columns[c], t2[i].columns[c])
        }
}

/// A change of trackers keeps both invariants and every component.
pub proof fn lemma_same_data(
    t: Seq<ArchetypeView>,
    metas: Seq<ComponentMetaData>,
    dir: Map<Entity, EntityRecord>,
    t2: Seq<ArchetypeView>,
)
    requires
        graph_inv(t, metas),
        directory_inv(t, dir),
        same_data(t, t2),
    ensures
        graph_inv(t2, metas),
        directory_inv(t2, dir),
        forall|x: Entity, c: ComponentID| value_of(t2, dir, x, c) == value_of(t, dir, x, c),
        forall|x: Entity| set_of(t2, dir, x) == set_of(t, dir, x),
{
    assert forall|i: int| 0 <= i < t2.len() implies (#[trigger] t2[i]).id == i && t2[i].inv()
        && columns_match(t2[i], metas) by {
        let _ = t[i];
        assert forall|c: ComponentID|
            #![trigger t2[i].columns[c]]
            t2[i].columns.contains_key(c) implies {
            &&& t2[i].columns[c].wf()
            &&& t2[i].columns[c].id == c
            &&& t2[i].columns[c].rows.len() == t2[i].entities.len()
            &&& c < metas.len()
            &&& t2[i].columns[c].meta == metas[c as int]
        } by {
            assert(t[i].columns.dom().contains(c));
            let _ = t[i].columns[c];
            assert forall|k: int| 0 <= k < t2[i].columns[c].rows.len() implies (
            #[trigger] t2[i].columns[c].rows[k]).len() == t2[i].columns[c].meta.size by {
                let _ = t[i].columns[c].rows[k];
            }
        }
    }
    assert forall|i: int, j: int|
        0 <= i < t2.len() && 0 <= j < t2.len() && (#[trigger] t2[i]).set == (#[trigger] t2[j]).set implies i
        == j by {
        assert(t2[i].set == t[i].set);
        assert(t2[j].set == t[j].set);
    }
    assert forall|i: int, c: ComponentID|
        0 <= i < t2.len() && #[trigger] t2[i].edges.contains_key(c) implies t2[i].edges[c] < t2.len()
        && differ_by(t2[i].set, t2[t2[i].edges[c] as int].set, c) by {
        assert(t2[i].edges == t[i].edges);
        assert(t[i].edges.contains_key(c));
        let j = t[i].edges[c] as int;
        assert(t2[i].set == t[i].set);
        assert(t2[j].set == t[j].set);
    }
    assert(t2[0].set == t[0].set);
    assert forall|x: Entity| #![trigger dir[x]] dir.contains_key(x) implies {
        &&& dir[x].archetype_id < t2.len()
        &&& dir[x].archetype_row < t2[dir[x].archetype_id as int].entities.len()
        &&& t2[dir[x].archetype_id as int].entities[dir[x].archetype_row as int] == x
    } by {
        let _ = t2[dir[x].archetype_id as int];
    }
    assert forall|a: int, r: int| 0 <= a < t2.len() && 0 <= r < t2[a].entities.len() implies dir.contains_key(
        #[trigger] t2[a].entities[r],
    ) && dir[t2[a].entities[r]].archetype_id == a && dir[t2[a].entities[r]].archetype_row == r by {
        let _ = t2[a];
        assert(t2[a].entities[r] == t[a].entities[r]);
    }
    assert forall|x: Entity, c: ComponentID| value_of(t2, dir, x, c) == value_of(t, dir, x, c) by {
        if dir.contains_key(x) {
            let a = dir[x].archetype_id as int;
            let _ = t2[a];
            if t[a].columns.contains_key(c) {
                assert(t[a].columns.dom().contains(c));
                let _ = t2[a].columns[c];
            } else {
                assert(!t[a].columns.dom().contains(c));
            }
        }
    }
    assert forall|x: Entity| set_of(t2, dir, x) == set_of(t, dir, x) by {
        if dir.contains_key(x) {
            let _ = t2[dir[x].archetype_id as int];
        }
    }
}

/// In a table and directory that meet their invariants, a live entity has
/// a value for exactly the components of its set, of the registered size.
pub proof fn lemma_value_iff_in_set(
    t: Seq<ArchetypeView>,
    metas: Seq<ComponentMetaData>,
    dir: Map<Entity, EntityRecord>,
    e: Entity,
    c: ComponentID,
)
    requires
        graph_inv(t, metas),
        directory_inv(t, dir),
    ensures
        value_of(t, dir, e, c).is_some() <==> (set_of(t, dir, e) matches Some(s) && s.contains(c)),
        value_of(t, dir, e, c) matches Some(v) ==> c < metas.len() && v.len() == metas[c as int].size,
{
    if dir.contains_key(e) {
        let _ = dir[e];
        let a = dir[e].archetype_id as int;
        let _ = t[a];
        if t[a].columns.contains_key(c) {
            assert(t[a].columns.dom().contains(c));
            let _ = t[a].columns[c];
            let _ = t[a].columns[c].rows[dir[e].archetype_row as int];
        } else {
            assert(!t[a].columns.dom().contains(c));
        }
    }
}

/// `t2` is `t` with the component `c` of the live entity `e`, which has
/// it, overwritten with `bytes`.
pub open spec fn written_at(
    t: Seq<ArchetypeView>,
    dir: Map<Entity, EntityRecord>,
    e: Entity,
    c: ComponentID,
    bytes: Seq<u8>,
    t2: Seq<ArchetypeView>,
) -> bool {
    let a = dir[e].archetype_id as int;
    let before = t[a];
    t2 == t.update(
        a,
        ArchetypeView {
            id: before.id,
            set: before.set,
            edges: before.edges,
            columns: before.columns.insert(
                c,
                before.columns[c].write_row(dir[e].archetype_row as int, bytes),
            ),
            entities: before.entities,
        },
    )
}

/// Overwriting one component of one entity keeps both invariants, changes
/// that component and no other.
pub proof fn lemma_write_keeps(
    t: Seq<ArchetypeView>,
    metas: Seq<ComponentMetaData>,
    dir: Map<Entity, EntityRecord>,
    e: Entity,
    c: ComponentID,
    bytes: Seq<u8>,
    t2: Seq<ArchetypeView>,
)
    requires
        graph_inv(t, metas),
        directory_inv(t, dir),
        value_of(t, dir, e, c).is_some(),
        bytes.len() == metas[c as int].size,
        written_at(t, dir, e, c, bytes, t2),
    ensures
        graph_inv(t2, metas),
        directory_inv(t2, dir),
        sets_kept(t, t2),
        forall|x: Entity, d: ComponentID|
            value_of(t2, dir, x, d) == (if x == e && d == c {
                Some(bytes)
            } else {
                value_of(t, dir, x, d)
            }),
        forall|x: Entity| set_of(t2, dir, x) == set_of(t, dir, x),
{
    let a = dir[e].archetype_id as int;
    let row = dir[e].archetype_row as int;
    let _ = dir[e];
    assert(0 <= a < t.len());
    assert(t[a].inv());
    assert(t[a].columns.dom().contains(c));
    let col = t[a].columns[c];
    assert forall|i: int| 0 <= i < t2.len() implies (#[trigger] t2[i]).id == i && t2[i].inv()
        && columns_match(t2[i], metas) by {
        let _ = t[i];
        if i == a {
            assert(t2[i].columns.dom() =~= t[i].columns.dom());
            assert forall|d: ComponentID|
                #![trigger t2[i].columns[d]]
                t2[i].columns.contains_key(d) implies {
                &&& t2[i].columns[d].wf()
                &&& t2[i].columns[d].id == d
                &&& t2[i].columns[d].rows.len() == t2[i].entities.len()
                &&& d < metas.len()
                &&& t2[i].columns[d].meta == metas[d as int]
            } by {
                assert(t[i].columns.dom().contains(d));
                let _ = t[i].columns[d];
                if d == c {
                    assert forall|k: int| 0 <= k < t2[i].columns[d].rows.len() implies (
                    #[trigger] t2[i].columns[d].rows[k]).len() == t2[i].columns[d].meta.size by {
                        let _ = t[i].columns[d].rows[k];
                    }
                }
            }
        }
    }
    assert forall|i: int, j: int|
        0 <= i < t2.len() && 0 <= j < t2.len() && (#[trigger] t2[i]).set == (#[trigger] t2[j]).set implies i
        == j by {
        assert(t2[i].set == t[i].set);
        assert(t2[j].set == t[j].set);
    }
    assert forall|i: int, d: ComponentID|
        0 <= i < t2.len() && #[trigger] t2[i].edges.contains_key(d) implies t2[i].edges[d] < t2.len()
        && differ_by(t2[i].set, t2[t2[i].edges[d] as int].set, d) by {
        assert(t[i].edges.contains_key(d));
        assert(t2[t2[i].edges[d] as int].set == t[t[i].edges[d] as int].set);
    }
    assert forall|x: Entity| #![trigger dir[x]] dir.contains_key(x) implies {
        &&& dir[x].archetype_id < t2.len()
        &&& dir[x].archetype_row < t2[dir[x].archetype_id as int].entities.len()
        &&& t2[dir[x].archetype_id as int].entities[dir[x].archetype_row as int] == x
    } by {
        assert(t2[dir[x].archetype_id as int].entities == t[dir[x].archetype_id as int].entities);
    }
    assert forall|i: int, r: int| 0 <= i < t2.len() && 0 <= r < t2[i].entities.len() implies dir.contains_key(
        #[trigger] t2[i].entities[r],
    ) && dir[t2[i].entities[r]].archetype_id == i && dir[t2[i].entities[r]].archetype_row == r by {
        assert(t2[i].entities == t[i].entities);
        let _ = t[i].entities[r];
    }
    assert forall|x: Entity, d: ComponentID|
        value_of(t2, dir, x, d) == (if x == e && d == c {
            Some(bytes)
        } else {
            value_of(t, dir, x, d)
        }) by {
        if dir.contains_key(x) {
            let _ = dir[x];
            let i = dir[x].archetype_id as int;
            assert(t2[i].columns.dom() =~= t[i].columns.dom());
            if i == a && d == c && x != e {
                assert(t[a].entities[dir[x].archetype_row as int] == x);
                assert(t[a].entities[row] == e);
                assert(dir[x].archetype_row != dir[e].archetype_row);
            }
        }
    }
    assert forall|x: Entity| set_of(t2, dir, x) == set_of(t, dir, x) by {
        if dir.contains_key(x) {
            let _ = dir[x];
            assert(t2[dir[x].archetype_id as int].set == t[dir[x].archetype_id as int].set);
        }
    }
}

} // verus!
