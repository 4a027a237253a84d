//! An archetype: the rows of all entities that have exactly one set of
//! components, one column per component, kept in lockstep with the list of
//! entities.

use vstd::prelude::*;
use crate::bitset::BitSet;
use crate::component::ComponentID;
use crate::entity::{Entity, EntityManager, EntityRecord};
use crate::sparse_map::SparseMap;
use crate::storage::{ColumnView, ComponentStorage};
use crate::tracking::swap_removed;

verus! {

/// The dense, sequential id of an archetype; the root archetype has id 0.
pub type ArchetypeID = usize;

/// The mathematical content of an archetype.
pub struct ArchetypeView {
    pub id: ArchetypeID,
    /// The component ids that every entity of the archetype has.
    pub set: Set<ComponentID>,
    /// For a component id, the archetype whose set differs by that id alone,
    /// once the transition has been looked up.
    pub edges: Map<ComponentID, ArchetypeID>,
    pub columns: Map<ComponentID, ColumnView>,
    /// The entity of each row.
    pub entities: Seq<Entity>,
}

/// Whether `c` is one of the first `n` entries of `ids`.
pub open spec fn among(ids: Seq<ComponentID>, n: int, c: ComponentID) -> bool {
    exists|k: int| 0 <= k < n && k < ids.len() && #[trigger] ids[k] == c
}

impl ArchetypeView {
    /// There is one column per component of the set, under its own id, and
    /// every column has one row per entity.
    pub open spec fn inv(self) -> bool {
        &&& self.columns.dom() == self.set
        &&& forall|c: ComponentID|
            #![trigger self.columns[c]]
            self.columns.contains_key(c) ==> {
                &&& self.columns[c].wf()
                &&& self.columns[c].id == c
                &&& self.columns[c].rows.len() == self.entities.len()
            }
    }

    /// Row `row` has left: it is swap-removed from the entity list and from
    /// the columns named in `ids`.
    pub open spec fn take_row(self, ids: Seq<ComponentID>, row: int) -> Self {
        ArchetypeView {
            id: self.id,
            set: self.set,
            edges: self.edges,
            columns: Map::new(
                |c: ComponentID| self.columns.contains_key(c),
                |c: ComponentID|
                    if among(ids, ids.len() as int, c) {
                        self.columns[c].swap_remove(row)
                    } else {
                        self.columns[c]
                    },
            ),
            entities: swap_removed(self.entities, row),
        }
    }

    /// Entity `e` has arrived from row `row` of `from`: it is appended to
    /// the entity list, and its values in the columns named in `ids` are
    /// appended to the columns here, as written at `tick`.
    pub open spec fn give_row(
        self,
        from: ArchetypeView,
        ids: Seq<ComponentID>,
        row: int,
        e: Entity,
        tick: u32,
    ) -> Self {
        ArchetypeView {
            id: self.id,
            set: self.set,
            edges: self.edges,
            columns: Map::new(
                |c: ComponentID| self.columns.contains_key(c),
                |c: ComponentID|
                    if among(ids, ids.len() as int, c) {
                        self.columns[c].push_row(from.columns[c].rows[row], tick)
                    } else {
                        self.columns[c]
                    },
            ),
            entities: self.entities.push(e),
        }
    }
}

/// The rows of the entities that have exactly the components of one set.
pub struct Archetype {
    id: ArchetypeID,
    /// The ids of the components present in this archetype.
    component_id_bitset: BitSet,
    /// Ids of the archetypes reached by adding or removing one component,
    /// keyed by that component's id.
    edges: SparseMap<ArchetypeID>,
    /// The column of each component, keyed by its id.
    components: SparseMap<ComponentStorage>,
    /// The entity of each row.
    entities: Vec<Entity>,
}

impl View for Archetype {
    type V = ArchetypeView;

    closed spec fn view(&self) -> ArchetypeView {
        ArchetypeView {
            id: self.id,
            set: self.component_id_bitset@,
            edges: self.edges@,
            columns: Map::new(
                |c: ComponentID| self.components@.contains_key(c),
                |c: ComponentID| self.components@[c]@,
            ),
            entities: self.entities@,
        }
    }
}

impl Archetype {
    /// The representation invariant: the maps and every column are
    /// well-formed. It does not ask that the columns match the set.
    pub closed spec fn wf(&self) -> bool {
        &&& self.edges.wf()
        &&& self.components.wf()
        &&& forall|c: ComponentID|
            self.components@.contains_key(c) ==> (#[trigger] self.components@[c]).wf()
    }

    /// The ids of the columns in the order in which they were added.
    pub closed spec fn column_order(&self) -> Seq<ComponentID> {
        self.components.key_seq()
    }

    /// The column order lists each column once.
    pub proof fn lemma_column_order(&self)
        requires
            self.wf(),
        ensures
            self.column_order().no_duplicates(),
            forall|c: ComponentID|
                self@.columns.contains_key(c) <==> among(
                    self.column_order(),
                    self.column_order().len() as int,
                    c,
                ),
            forall|c: ComponentID| self@.columns.contains_key(c) ==> (#[trigger] self@.columns[c]).wf(),
    {
        self.components.lemma_dense();
        assert forall|c: ComponentID| self@.columns.contains_key(c) implies among(
            self.column_order(),
            self.column_order().len() as int,
            c,
        ) by {
            assert(self.components@.contains_key(c));
        }
        assert forall|c: ComponentID| self@.columns.contains_key(c) implies (
        #[trigger] self@.columns[c]).wf() by {
            self.components@[c].lemma_view_wf();
        }
    }

    /// An archetype for the set `comp_ids`, without columns, edges or rows.
    pub fn new(id: ArchetypeID, comp_ids: BitSet) -> (r: Self)
        ensures
            r.wf(),
            r.column_order() == Seq::<ComponentID>::empty(),
            r@ == (ArchetypeView {
                id,
                set: comp_ids@,
                edges: Map::empty(),
                columns: Map::empty(),
                entities: Seq::empty(),
            }),
    {
        let r = Self {
            id,
            component_id_bitset: comp_ids,
            edges: SparseMap::with_capacity(4),
            components: SparseMap::with_capacity(4),
            entities: Vec::with_capacity(8),
        };
        assert(r@.columns =~= Map::<ComponentID, ColumnView>::empty());
        r
    }

    /// The position of the archetype in the table.
    pub fn id(&self) -> (r: ArchetypeID)
        ensures
            r == self@.id,
    {
        self.id
    }

    /// The set of component ids of the archetype.
    pub fn component_set(&self) -> (r: &BitSet)
        ensures
            r@ == self@.set,
    {
        &self.component_id_bitset
    }

    /// The entity of each row.
    pub fn entities(&self) -> (r: &Vec<Entity>)
        ensures
            r@ == self@.entities,
    {
        &self.entities
    }

    /// The number of rows.
    pub fn len(&self) -> (r: usize)
        ensures
            r == self@.entities.len(),
    {
        self.entities.len()
    }

    /// The ids of the columns, in the order in which they were added.
    pub fn comp_ids(&self) -> (r: &Vec<ComponentID>)
        ensures
            r@ == self.column_order(),
    {
        self.components.keys()
    }

    /// Whether the archetype's set has `comp_id`.
    pub fn has_component(&self, comp_id: ComponentID) -> (r: bool)
        ensures
            r == self@.set.contains(comp_id),
    {
        self.component_id_bitset.test(comp_id)
    }

    /// Whether the archetype has a column for `comp_id`.
    pub fn has_storage(&self, comp_id: ComponentID) -> (r: bool)
        requires
            self.wf(),
        ensures
            r == self@.columns.contains_key(comp_id),
    {
        self.components.contains_key(comp_id)
    }

    /// The archetype that the edge on `comp_id` leads to, if there is one.
    pub fn edge(&self, comp_id: ComponentID) -> (r: Option<ArchetypeID>)
        requires
            self.wf(),
        ensures
            r == (if self@.edges.contains_key(comp_id) {
                Some(self@.edges[comp_id])
            } else {
                None
            }),
    {
        match self.edges.get(comp_id) {
            Some(id) => Some(*id),
            None => None,
        }
    }

    /// Records that the edge on `comp_id` leads to `target`.
    pub fn insert_edge(&mut self, comp_id: ComponentID, target: ArchetypeID)
        requires
            old(self).wf(),
            comp_id < usize::MAX,
        ensures
            final(self).wf(),
            final(self).column_order() == old(self).column_order(),
            final(self)@ == (ArchetypeView {
                edges: old(self)@.edges.insert(comp_id, target),
                ..old(self)@
            }),
    {
        self.edges.insert(comp_id, target);
        assert(self@.columns =~= old(self)@.columns);
    }

    /// Adds `storage` as the column of `comp_id`.
    pub fn insert_storage(&mut self, comp_id: ComponentID, storage: ComponentStorage)
        requires
            old(self).wf(),
            storage.wf(),
            comp_id < usize::MAX,
        ensures
            final(self).wf(),
            final(self).column_order() == (if old(self)@.columns.contains_key(comp_id) {
                old(self).column_order()
            } else {
                old(self).column_order().push(comp_id)
            }),
            final(self)@ == (ArchetypeView {
                columns: old(self)@.columns.insert(comp_id, storage@),
                ..old(self)@
            }),
    {
        self.components.insert(comp_id, storage);
        assert(self@.columns =~= old(self)@.columns.insert(comp_id, storage@));
    }

    /// The column of `comp_id`.
    pub fn get_storage(&self, comp_id: ComponentID) -> (r: &ComponentStorage)
        requires
            self.wf(),
            self@.columns.contains_key(comp_id),
        ensures
            r.wf(),
            r@ == self@.columns[comp_id],
    {
        self.components.get_unchecked(comp_id)
    }

    /// Mutable access to the column of `comp_id`. What the caller leaves
    /// there becomes the column; it must be left well-formed.
    pub fn get_mut_storage(&mut self, comp_id: ComponentID) -> (r: &mut ComponentStorage)
        requires
            old(self).wf(),
            old(self)@.columns.contains_key(comp_id),
        ensures
            r.wf(),
            r@ == old(self)@.columns[comp_id],
            final(r).wf() ==> final(self).wf(),
            final(self).column_order() == old(self).column_order(),
            final(self)@ == (ArchetypeView {
                columns: old(self)@.columns.insert(comp_id, final(r)@),
                ..old(self)@
            }),
    {
        let r = self.components.get_mut_unchecked(comp_id);
        proof {
            let after = old(self).components@.insert(comp_id, *final(r));
            assert(Map::new(
                |c: ComponentID| after.contains_key(c),
                |c: ComponentID| after[c]@,
            ) =~= old(self)@.columns.insert(comp_id, final(r)@));
        }
        r
    }

    /// Appends `component` to the column of `comp_id`, as written at `tick`.
    pub fn push_component(&mut self, comp_id: ComponentID, component: &Vec<u8>, tick: u32)
        requires
            old(self).wf(),
            old(self)@.columns.contains_key(comp_id),
            component.len() == old(self)@.columns[comp_id].meta.size,
            old(self)@.columns[comp_id].rows.len() < usize::MAX,
        ensures
            final(self).wf(),
            final(self).column_order() == old(self).column_order(),
            final(self)@ == (ArchetypeView {
                columns: old(self)@.columns.insert(
                    comp_id,
                    old(self)@.columns[comp_id].push_row(component@, tick),
                ),
                ..old(self)@
            }),
    {
        let storage = self.get_mut_storage(comp_id);
        storage.push(component, tick);
    }

    /// Swap-removes row `row` from the column of `comp_id`.
    pub fn delete_component(&mut self, comp_id: ComponentID, row: usize)
        requires
            old(self).wf(),
            old(self)@.columns.contains_key(comp_id),
            row < old(self)@.columns[comp_id].rows.len(),
        ensures
            final(self).wf(),
            final(self).column_order() == old(self).column_order(),
            final(self)@ == (ArchetypeView {
                columns: old(self)@.columns.insert(
                    comp_id,
                    old(self)@.columns[comp_id].swap_remove(row as int),
                ),
                ..old(self)@
            }),
    {
        let storage = self.get_mut_storage(comp_id);
        storage.delete(row);
    }

    /// The bytes of the value of `comp_id` in row `row`.
    pub fn get_component(&self, comp_id: ComponentID, row: usize) -> (r: &[u8])
        requires
            self.wf(),
            self@.columns.contains_key(comp_id),
            row < self@.columns[comp_id].rows.len(),
        ensures
            r@ == self@.columns[comp_id].rows[row as int],
    {
        self.get_storage(comp_id).get(row)
    }

    /// Overwrites the value of `comp_id` in row `row` with the bytes of
    /// `component`.
    pub fn set_component(&mut self, comp_id: ComponentID, row: usize, component: &Vec<u8>)
        requires
            old(self).wf(),
            old(self)@.columns.contains_key(comp_id),
            row < old(self)@.columns[comp_id].rows.len(),
            component.len() == old(self)@.columns[comp_id].meta.size,
        ensures
            final(self).wf(),
            final(self).column_order() == old(self).column_order(),
            final(self)@ == (ArchetypeView {
                columns: old(self)@.columns.insert(
                    comp_id,
                    old(self)@.columns[comp_id].write_row(row as int, component@),
                ),
                ..old(self)@
            }),
    {
        let storage = self.get_mut_storage(comp_id);
        storage.set(row, component);
    }

    /// Moves row `src_row` of the column of `comp_id` to the end of the same
    /// column of `dst_arche`.
    pub fn transfer_component(
        &mut self,
        comp_id: ComponentID,
        src_row: usize,
        dst_arche: &mut Self,
        tick: u32,
    )
        requires
            old(self).wf(),
            old(dst_arche).wf(),
            old(self)@.columns.contains_key(comp_id),
            old(dst_arche)@.columns.contains_key(comp_id),
            old(self)@.columns[comp_id].meta.size == old(dst_arche)@.columns[comp_id].meta.size,
            src_row < old(self)@.columns[comp_id].rows.len(),
            old(dst_arche)@.columns[comp_id].rows.len() < usize::MAX,
        ensures
            final(self).wf(),
            final(dst_arche).wf(),
            final(self).column_order() == old(self).column_order(),
            final(dst_arche).column_order() == old(dst_arche).column_order(),
            final(self)@ == (ArchetypeView {
                columns: old(self)@.columns.insert(
                    comp_id,
                    old(self)@.columns[comp_id].swap_remove(src_row as int),
                ),
                ..old(self)@
            }),
            final(dst_arche)@ == (ArchetypeView {
                columns: old(dst_arche)@.columns.insert(
                    comp_id,
                    old(dst_arche)@.columns[comp_id].push_row(
                        old(self)@.columns[comp_id].rows[src_row as int],
                        tick,
                    ),
                ),
                ..old(dst_arche)@
            }),
    {
        let src_storage = self.get_mut_storage(comp_id);
        let dst_storage = dst_arche.get_mut_storage(comp_id);
        src_storage.transfer(src_row, dst_storage, tick);
    }

    /// Appends `entity` as a new row and points its record here. The
    /// columns are not touched.
    pub fn push_entity(&mut self, entity: Entity, entity_manager: &mut EntityManager)
        requires
            old(self).wf(),
            old(entity_manager).wf(),
            old(entity_manager)@.contains_key(entity),
        ensures
            final(self).wf(),
            final(entity_manager).wf(),
            final(self).column_order() == old(self).column_order(),
            old(self)@.entities.len() < usize::MAX,
            final(self)@ == (ArchetypeView {
                entities: old(self)@.entities.push(entity),
                ..old(self)@
            }),
            final(entity_manager)@ == old(entity_manager)@.insert(
                entity,
                EntityRecord {
                    archetype_id: old(self)@.id,
                    archetype_row: old(self)@.entities.len() as usize,
                },
            ),
            forall|e: Entity| old(entity_manager).spent(e) == final(entity_manager).spent(e),
            final(entity_manager).is_full() == old(entity_manager).is_full(),
    {
        let row = self.entities.len();
        entity_manager.set_record(entity, EntityRecord { archetype_id: self.id, archetype_row: row });
        self.entities.push(entity);
        let _ = self.entities.len();
        assert(self@.columns =~= old(self)@.columns);
    }

    /// Swap-removes the row of `entity` from the entity list and points the
    /// record of the entity that takes its place at that row. The columns
    /// are not touched, and the record of `entity` itself is left as it is.
    pub fn delete_entity(&mut self, entity: Entity, entity_manager: &mut EntityManager)
        requires
            old(self).wf(),
            old(entity_manager).wf(),
            old(entity_manager)@.contains_key(entity),
            old(entity_manager)@[entity].archetype_row < old(self)@.entities.len(),
            old(entity_manager)@.contains_key(old(self)@.entities.last()),
        ensures
            final(self).wf(),
            final(entity_manager).wf(),
            final(self).column_order() == old(self).column_order(),
            final(self)@ == (ArchetypeView {
                entities: swap_removed(
                    old(self)@.entities,
                    old(entity_manager)@[entity].archetype_row as int,
                ),
                ..old(self)@
            }),
            final(entity_manager)@ == old(entity_manager)@.insert(
                old(self)@.entities.last(),
                EntityRecord {
                    archetype_id: old(entity_manager)@[old(self)@.entities.last()].archetype_id,
                    archetype_row: old(entity_manager)@[entity].archetype_row,
                },
            ),
            forall|e: Entity| old(entity_manager).spent(e) == final(entity_manager).spent(e),
            final(entity_manager).is_full() == old(entity_manager).is_full(),
    {
        let entity_row = entity_manager.get_record(entity).archetype_row;
        let last = self.entities[self.entities.len() - 1];
        let archetype_id = entity_manager.get_record(last).archetype_id;
        entity_manager.set_record(last, EntityRecord { archetype_id, archetype_row: entity_row });
        self.entities.swap_remove(entity_row);
        assert(self@.columns =~= old(self)@.columns);
    }

    /// Moves `entity` from this archetype to `dst_arche`: its values in the
    /// columns `comp_ids` go to the end of the same columns there, its row
    /// here is swap-removed, and the directory follows both moves.
    pub fn transfer_entity(
        &mut self,
        entity: Entity,
        comp_ids: &Vec<ComponentID>,
        dst_arche: &mut Archetype,
        entity_manager: &mut EntityManager,
        tick: u32,
    )
        requires
            old(self).wf(),
            old(dst_arche).wf(),
            old(entity_manager).wf(),
            old(self)@.inv(),
            old(dst_arche)@.inv(),
            old(entity_manager)@.contains_key(entity),
            old(entity_manager)@[entity].archetype_row < old(self)@.entities.len(),
            old(entity_manager)@.contains_key(old(self)@.entities.last()),
            comp_ids@.no_duplicates(),
            forall|k: int|
                0 <= k < comp_ids.len() ==> {
                    &&& old(self)@.columns.contains_key(#[trigger] comp_ids[k])
                    &&& old(dst_arche)@.columns.contains_key(comp_ids[k])
                    &&& old(self)@.columns[comp_ids[k]].meta.size == old(
                        dst_arche,
                    )@.columns[comp_ids[k]].meta.size
                },
        ensures
            final(self).wf(),
            final(dst_arche).wf(),
            final(entity_manager).wf(),
            final(self).column_order() == old(self).column_order(),
            final(dst_arche).column_order() == old(dst_arche).column_order(),
            old(dst_arche)@.entities.len() < usize::MAX,
            final(self)@ == old(self)@.take_row(
                comp_ids@,
                old(entity_manager)@[entity].archetype_row as int,
            ),
            final(dst_arche)@ == old(dst_arche)@.give_row(
                old(self)@,
                comp_ids@,
                old(entity_manager)@[entity].archetype_row as int,
                entity,
                tick,
            ),
            final(entity_manager)@ == old(entity_manager)@.insert(
                old(self)@.entities.last(),
                EntityRecord {
                    archetype_id: old(entity_manager)@[old(self)@.entities.last()].archetype_id,
                    archetype_row: old(entity_manager)@[entity].archetype_row,
                },
            ).insert(
                entity,
                EntityRecord {
                    archetype_id: old(dst_arche)@.id,
                    archetype_row: old(dst_arche)@.entities.len() as usize,
                },
            ),
            forall|e: Entity| old(entity_manager).spent(e) == final(entity_manager).spent(e),
            final(entity_manager).is_full() == old(entity_manager).is_full(),
    {
        let row = entity_manager.get_record(entity).archetype_row;
        self.delete_entity(entity, entity_manager);
        dst_arche.push_entity(entity, entity_manager);
        let ghost src0 = old(self)@;
        let ghost dst0 = old(dst_arche)@;
        proof {
            let none = comp_ids@.take(0);
            assert(self@.columns =~= src0.take_row(none, row as int).columns);
            assert(dst_arche@.columns =~= dst0.give_row(src0, none, row as int, entity, tick).columns);
        }
        let mut i: usize = 0;
        while i < comp_ids.len()
            invariant
                i <= comp_ids.len(),
                self.wf(),
                dst_arche.wf(),
                src0.inv(),
                dst0.inv(),
                src0 == old(self)@,
                dst0 == old(dst_arche)@,
                row < src0.entities.len(),
                dst0.entities.len() < usize::MAX,
                comp_ids@.no_duplicates(),
                forall|k: int|
                    0 <= k < comp_ids.len() ==> {
                        &&& src0.columns.contains_key(#[trigger] comp_ids[k])
                        &&& dst0.columns.contains_key(comp_ids[k])
                        &&& src0.columns[comp_ids[k]].meta.size == dst0.columns[comp_ids[k]].meta.size
                    },
                self.column_order() == old(self).column_order(),
                dst_arche.column_order() == old(dst_arche).column_order(),
                self@ == src0.take_row(comp_ids@.take(i as int), row as int),
                dst_arche@ == dst0.give_row(src0, comp_ids@.take(i as int), row as int, entity, tick),
            decreases comp_ids.len() - i,
        {
            let c = comp_ids[i];
            let ghost ids0 = comp_ids@.take(i as int);
            let ghost ids1 = comp_ids@.take(i + 1);
            proof {
                assert(!among(ids0, ids0.len() as int, c)) by {
                    if among(ids0, ids0.len() as int, c) {
                        let k = choose|k: int| 0 <= k < ids0.len() && #[trigger] ids0[k] == c;
                        assert(comp_ids[k] == comp_ids[i as int]);
                    }
                }
                assert(src0.columns[c].rows.len() == src0.entities.len());
                assert(dst0.columns[c].rows.len() == dst0.entities.len());
            }
            self.transfer_component(c, row, dst_arche, tick);
            proof {
                assert forall|d: ComponentID| among(ids1, ids1.len() as int, d) == (d == c || among(
                    ids0,
                    ids0.len() as int,
                    d,
                )) by {
                    if among(ids1, ids1.len() as int, d) {
                        let k = choose|k: int| 0 <= k < ids1.len() && #[trigger] ids1[k] == d;
                        if k < i {
                            assert(ids0[k] == d);
                        }
                    }
                    if among(ids0, ids0.len() as int, d) {
                        let k = choose|k: int| 0 <= k < ids0.len() && #[trigger] ids0[k] == d;
                        assert(ids1[k] == d);
                    }
                    if d == c {
                        assert(ids1[i as int] == d);
                    }
                }
                assert(self@.columns =~= src0.take_row(ids1, row as int).columns);
                assert(dst_arche@.columns =~= dst0.give_row(
                    src0,
                    ids1,
                    row as int,
                    entity,
                    tick,
                ).columns);
            }
            i = i + 1;
        }
        assert(comp_ids@.take(comp_ids.len() as int) =~= comp_ids@);
    }
}

} // verus!
