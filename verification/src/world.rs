//! The world: the entity directory, the component registry and the
//! archetype graph behind one interface, with the tick counter.

use vstd::prelude::*;
use crate::archetype::ArchetypeView;
use crate::bundle::bundle_filter;
use crate::component::{id_of_tag, ComponentID, ComponentManager, ComponentMetaData};
use crate::entity::{Entity, EntityManager, EntityRecord};
use crate::filter::lemma_filter_keeps_data;
use crate::graph::ArchetypeManager;
use crate::graph_spec::{
    directory_inv, graph_inv, lemma_create_keeps, lemma_metas_grow, lemma_same_data,
    lemma_value_iff_in_set, lemma_write_keeps, root_archetype, same_rows_of_column, set_of,
    sets_kept, value_of,
};
use crate::iter::{rows_from, ComponentBundleIter};
use crate::moves::{
    directory_after_create, directory_after_delete, directory_after_step, queue_after_step,
    table_after_create, table_after_delete, table_after_step,
};
use crate::query::{Query, QueryBuilder};

verus! {

/// All state of the store.
pub struct World {
    pub(crate) entity_manager: EntityManager,
    pub(crate) archetype_manager: ArchetypeManager,
    pub(crate) component_manager: ComponentManager,
    pub(crate) tick: u32,
}

impl World {
    /// The invariant of the world: each part is well-formed, the archetype
    /// table meets its invariant against the registry, and the directory
    /// agrees with the table.
    pub closed spec fn wf(&self) -> bool {
        &&& self.entity_manager.wf()
        &&& self.component_manager.wf()
        &&& self.archetype_manager.inv(self.component_manager@, self.entity_manager@)
    }

    /// The views of the archetypes, by id.
    pub closed spec fn archetypes(&self) -> Seq<ArchetypeView> {
        self.archetype_manager.archetypes()
    }

    /// The record of each live entity.
    pub closed spec fn directory(&self) -> Map<Entity, EntityRecord> {
        self.entity_manager@
    }

    /// The metadata of the registered component types, by id.
    pub closed spec fn registry(&self) -> Seq<ComponentMetaData> {
        self.component_manager@
    }

    /// The ids of the archetypes created since the last update.
    pub closed spec fn new_archetypes(&self) -> Seq<usize> {
        self.archetype_manager.new_archetypes()
    }

    /// Whether `e` is alive.
    pub open spec fn alive(&self, e: Entity) -> bool {
        self.directory().contains_key(e)
    }

    /// Whether `e` was alive once and has been deleted since.
    pub closed spec fn spent(&self, e: Entity) -> bool {
        self.entity_manager.spent(e)
    }

    /// Whether no further entity can be created.
    pub closed spec fn is_full(&self) -> bool {
        self.entity_manager.is_full()
    }

    /// The bytes of component `c` of entity `e`, if `e` is alive and has `c`.
    pub open spec fn component(&self, e: Entity, c: ComponentID) -> Option<Seq<u8>> {
        value_of(self.archetypes(), self.directory(), e, c)
    }

    /// The set of components of entity `e`, if `e` is alive.
    pub open spec fn components(&self, e: Entity) -> Option<Set<ComponentID>> {
        set_of(self.archetypes(), self.directory(), e)
    }

    /// The current tick.
    pub closed spec fn current_tick(&self) -> u32 {
        self.tick
    }

    /// `post` is `pre` after the component type `type_tag` was registered
    /// and got the id `id`: a known tag keeps its id and nothing changes, a
    /// new one gets the next id. Entities and archetypes are as they were.
    pub open spec fn registered(
        pre: World,
        post: World,
        type_tag: u64,
        size: usize,
        align: usize,
        id: ComponentID,
    ) -> bool {
        &&& post.wf()
        &&& id_of_tag(post.registry(), type_tag) == Some(id)
        &&& match id_of_tag(pre.registry(), type_tag) {
            Some(known) => id == known && post.registry() == pre.registry(),
            None => id == pre.registry().len() && post.registry() == pre.registry().push(
                ComponentMetaData { type_tag, size, align },
            ),
        }
        &&& post.archetypes() == pre.archetypes()
        &&& post.directory() == pre.directory()
        &&& post.new_archetypes() == pre.new_archetypes()
        &&& post.current_tick() == pre.current_tick()
        &&& forall|e: Entity| post.spent(e) == pre.spent(e)
        &&& post.is_full() == pre.is_full()
    }

    /// `post` is `pre` after an attempt to create an entity, which gave `r`:
    /// a handle that was neither alive nor spent, now alive without
    /// components in the last row of the root, or nothing where the
    /// directory was full.
    pub open spec fn created(pre: World, post: World, r: Option<Entity>) -> bool {
        &&& post.wf()
        &&& post.registry() == pre.registry()
        &&& post.archetypes().len() == pre.archetypes().len()
        &&& sets_kept(pre.archetypes(), post.archetypes())
        &&& post.new_archetypes() == pre.new_archetypes()
        &&& post.current_tick() == pre.current_tick()
        &&& forall|e: Entity| pre.spent(e) ==> post.spent(e)
        &&& match r {
            Some(e) => {
                &&& !pre.is_full()
                &&& !pre.alive(e)
                &&& !pre.spent(e)
                &&& post.directory().dom() == pre.directory().dom().insert(e)
                &&& post.archetypes() == table_after_create(pre.archetypes(), e)
                &&& post.directory() == directory_after_create(pre.archetypes(), pre.directory(), e)
                &&& post.components(e) == Some(Set::<ComponentID>::empty())
                &&& forall|x: Entity, c: ComponentID| post.component(x, c) == pre.component(x, c)
                &&& forall|x: Entity| x != e ==> post.components(x) == pre.components(x)
            },
            None => {
                &&& pre.is_full()
                &&& post.directory() == pre.directory()
                &&& post.archetypes() == pre.archetypes()
            },
        }
    }

    /// `post` is `pre` after `entity` was deleted: it is not alive, and was
    /// it alive before, its handle is spent and its row has left its
    /// archetype; every other entity has what it had. Where `entity` was
    /// not alive nothing has changed.
    pub open spec fn deleted(pre: World, post: World, entity: Entity) -> bool {
        &&& post.wf()
        &&& post.registry() == pre.registry()
        &&& post.archetypes().len() == pre.archetypes().len()
        &&& sets_kept(pre.archetypes(), post.archetypes())
        &&& post.new_archetypes() == pre.new_archetypes()
        &&& post.current_tick() == pre.current_tick()
        &&& post.directory().dom() == pre.directory().dom().remove(entity)
        &&& forall|e: Entity| pre.spent(e) ==> post.spent(e)
        &&& pre.alive(entity) ==> {
            &&& post.spent(entity)
            &&& post.archetypes() == table_after_delete(pre.archetypes(), pre.directory(), entity)
            &&& post.directory() == directory_after_delete(
                pre.archetypes(),
                pre.directory(),
                entity,
            )
        }
        &&& !pre.alive(entity) ==> post.archetypes() == pre.archetypes() && post.directory()
            == pre.directory()
        &&& forall|x: Entity, c: ComponentID|
            x != entity ==> post.component(x, c) == pre.component(x, c)
        &&& forall|x: Entity| x != entity ==> post.components(x) == pre.components(x)
    }

    /// What adding and removing a component leave as it was.
    pub open spec fn same_entities(pre: World, post: World) -> bool {
        &&& post.wf()
        &&& post.registry() == pre.registry()
        &&& post.directory().dom() == pre.directory().dom()
        &&& post.current_tick() == pre.current_tick()
        &&& forall|e: Entity| post.spent(e) == pre.spent(e)
        &&& post.is_full() == pre.is_full()
        &&& post.archetypes().len() == pre.archetypes().len() + post.new_archetypes().len()
            - pre.new_archetypes().len()
        &&& post.new_archetypes().len() <= pre.new_archetypes().len() + 1
        &&& sets_kept(pre.archetypes(), post.archetypes())
    }

    /// `post` is `pre` after `entity` has moved to the neighbour of its
    /// archetype along `comp_id`, with `value` for the component if it gains
    /// it: the table, the directory and the queue of new archetypes are what
    /// the move leaves.
    pub open spec fn stepped(
        pre: World,
        post: World,
        entity: Entity,
        comp_id: ComponentID,
        value: Seq<u8>,
    ) -> bool {
        &&& post.archetypes() == table_after_step(
            pre.archetypes(),
            pre.registry(),
            pre.directory(),
            entity,
            comp_id,
            value,
            pre.current_tick(),
        )
        &&& post.directory() == directory_after_step(
            pre.archetypes(),
            pre.registry(),
            pre.directory(),
            entity,
            comp_id,
        )
        &&& post.new_archetypes() == queue_after_step(
            pre.archetypes(),
            pre.new_archetypes(),
            pre.directory(),
            entity,
            comp_id,
        )
    }

    /// `post` is `pre` unchanged in entities, components and archetypes.
    pub open spec fn unchanged(pre: World, post: World) -> bool {
        &&& post.archetypes() == pre.archetypes()
        &&& post.directory() == pre.directory()
        &&& post.new_archetypes() == pre.new_archetypes()
    }

    /// `post` is `pre` after `entity` was given the component `comp_id`
    /// with the bytes `value`: a live entity that lacked it now has it, with
    /// all that it had, and every other entity has what it had. Where the
    /// entity was not alive or had the component nothing has changed.
    pub open spec fn added(
        pre: World,
        post: World,
        entity: Entity,
        comp_id: ComponentID,
        value: Seq<u8>,
    ) -> bool {
        &&& World::same_entities(pre, post)
        &&& if pre.alive(entity) && pre.component(entity, comp_id).is_none() {
            &&& World::stepped(pre, post, entity, comp_id, value)
            &&& forall|x: Entity, c: ComponentID|
                post.component(x, c) == (if x == entity && c == comp_id {
                    Some(value)
                } else {
                    pre.component(x, c)
                })
            &&& forall|x: Entity|
                post.components(x) == (if x == entity {
                    Some(pre.components(entity).unwrap().insert(comp_id))
                } else {
                    pre.components(x)
                })
        } else {
            World::unchanged(pre, post)
        }
    }

    /// `post` is `pre` after the component `comp_id` was taken from
    /// `entity`: an entity that had it now lacks it and has all else that
    /// it had, and every other entity has what it had. Where the entity
    /// was not alive or lacked the component nothing has changed.
    pub open spec fn removed(pre: World, post: World, entity: Entity, comp_id: ComponentID) -> bool {
        &&& World::same_entities(pre, post)
        &&& if pre.component(entity, comp_id).is_some() {
            &&& World::stepped(pre, post, entity, comp_id, Seq::empty())
            &&& forall|x: Entity, c: ComponentID|
                post.component(x, c) == (if x == entity && c == comp_id {
                    None
                } else {
                    pre.component(x, c)
                })
            &&& forall|x: Entity|
                post.components(x) == (if x == entity {
                    Some(pre.components(entity).unwrap().remove(comp_id))
                } else {
                    pre.components(x)
                })
        } else {
            World::unchanged(pre, post)
        }
    }

    /// What the invariant of the world says of the views.
    pub proof fn lemma_wf(&self)
        requires
            self.wf(),
        ensures
            graph_inv(self.archetypes(), self.registry()),
            directory_inv(self.archetypes(), self.directory()),
            forall|e: Entity| self.spent(e) ==> !self.alive(e),
            forall|e: Entity, c: ComponentID|
                self.component(e, c).is_some() <==> (self.components(e) matches Some(s) && s.contains(
                    c,
                )),
            forall|e: Entity, c: ComponentID|
                #![trigger self.component(e, c)]
                self.component(e, c) matches Some(v) ==> c < self.registry().len() && v.len()
                    == self.registry()[c as int].size,
    {
        assert forall|e: Entity| self.spent(e) implies !self.alive(e) by {
            self.entity_manager.lemma_spent_not_alive(e);
        }
        assert forall|e: Entity, c: ComponentID|
            #![trigger self.component(e, c)]
            (self.component(e, c).is_some() <==> (self.components(e) matches Some(s) && s.contains(
                c,
            ))) && (self.component(e, c) matches Some(v) ==> c < self.registry().len() && v.len()
                == self.registry()[c as int].size) by {
            lemma_value_iff_in_set(self.archetypes(), self.registry(), self.directory(), e, c);
        }
    }

    /// A world without entities or component types, at tick 0.
    pub fn new() -> (r: Self)
        ensures
            r.wf(),
            r.directory() == Map::<Entity, EntityRecord>::empty(),
            r.registry() == Seq::<ComponentMetaData>::empty(),
            r.archetypes() == seq![root_archetype()],
            r.new_archetypes() == Seq::<usize>::empty(),
            r.current_tick() == 0,
            forall|e: Entity| !r.spent(e),
            !r.is_full(),
    {
        let r = Self {
            entity_manager: EntityManager::new(),
            archetype_manager: ArchetypeManager::new(),
            component_manager: ComponentManager::new(),
            tick: 0,
        };
        assert(r.entity_manager@.dom() =~= Set::<Entity>::empty());
        r
    }

    /// The current tick.
    pub fn tick(&self) -> (t: u32)
        ensures
            t == self.current_tick(),
    {
        self.tick
    }

    /// Registers a component type and returns its id. A type tag that is
    /// registered already keeps its id: the call changes nothing.
    pub fn register_component(&mut self, type_tag: u64, size: usize, align: usize) -> (id:
        ComponentID)
        requires
            old(self).wf(),
        ensures
            World::registered(*old(self), *final(self), type_tag, size, align, id),
    {
        let id = self.component_manager.register(type_tag, size, align);
        proof {
            lemma_metas_grow(
                self.archetypes(),
                old(self).registry(),
                ComponentMetaData { type_tag, size, align },
            );
        }
        id
    }

    /// The id of the component type with tag `type_tag`, or `None` where it
    /// was never registered.
    pub fn component_id(&self, type_tag: u64) -> (r: Option<ComponentID>)
        requires
            self.wf(),
        ensures
            r == id_of_tag(self.registry(), type_tag),
            r matches Some(id) ==> id < self.registry().len(),
    {
        self.component_manager.get_id(type_tag)
    }

    /// The number of registered component types.
    pub fn component_count(&self) -> (n: usize)
        ensures
            n == self.registry().len(),
    {
        self.component_manager.len()
    }

    /// Creates an entity without components, under a handle that was never
    /// issued before. Fails only when the directory is full.
    pub fn create_entity(&mut self) -> (r: Option<Entity>)
        requires
            old(self).wf(),
        ensures
            World::created(*old(self), *final(self), r),
    {
        let ghost t = self.archetypes();
        let ghost dir = self.directory();
        match self.entity_manager.create() {
            Some(entity) => {
                let root = self.archetype_manager.get_mut(0);
                root.push_entity(entity, &mut self.entity_manager);
                proof {
                    assert(self.entity_manager@ =~= dir.insert(
                        entity,
                        EntityRecord { archetype_id: 0, archetype_row: t[0].entities.len() as usize },
                    ));
                    lemma_create_keeps(
                        t,
                        self.registry(),
                        dir,
                        entity,
                        self.archetypes(),
                        self.entity_manager@,
                    );
                    assert(self.directory().dom() =~= dir.dom().insert(entity));
                    assert(self.archetypes() =~= table_after_create(t, entity));
                }
                Some(entity)
            },
            None => None,
        }
    }

    /// Whether `entity` is alive.
    pub fn is_entity_alive(&self, entity: Entity) -> (r: bool)
        requires
            self.wf(),
        ensures
            r == self.alive(entity),
    {
        self.entity_manager.alive(entity)
    }

    /// Deletes `entity` with all its components. Deleting an entity that is
    /// not alive changes nothing.
    pub fn delete_entity(&mut self, entity: Entity)
        requires
            old(self).wf(),
        ensures
            World::deleted(*old(self), *final(self), entity),
    {
        if !self.entity_manager.alive(entity) {
            assert(self.directory().dom().remove(entity) =~= self.directory().dom());
            return ;
        }
        self.archetype_manager.delete_entity(entity, &self.component_manager, &mut self.entity_manager);
        let ghost mid = self.entity_manager@;
        self.entity_manager.delete(entity);
        proof {
            assert(self.entity_manager@ == mid.remove(entity));
            assert(self.directory().dom() =~= old(self).directory().dom().remove(entity));
        }
    }

    /// Whether `entity` is alive and has the component `comp_id`.
    pub fn has_component(&self, entity: Entity, comp_id: ComponentID) -> (r: bool)
        requires
            self.wf(),
        ensures
            r == (self.components(entity) matches Some(s) && s.contains(comp_id)),
            r == self.component(entity, comp_id).is_some(),
    {
        proof {
            self.lemma_wf();
        }
        if !self.entity_manager.alive(entity) {
            return false;
        }
        let record = self.entity_manager.get_record(entity);
        let archetype = self.archetype_manager.get(record.archetype_id);
        archetype.has_component(comp_id)
    }

    /// Gives `entity` the component `comp_id` with the value `component`.
    /// Nothing changes where the entity is not alive or has the component
    /// already.
    pub fn add_component(&mut self, entity: Entity, comp_id: ComponentID, component: &Vec<u8>)
        requires
            old(self).wf(),
            comp_id < old(self).registry().len(),
            component.len() == old(self).registry()[comp_id as int].size,
        ensures
            World::added(*old(self), *final(self), entity, comp_id, component@),
    {
        if !self.entity_manager.alive(entity) {
            return ;
        }
        if self.has_component(entity, comp_id) {
            return ;
        }
        self.archetype_manager.add_component(
            component,
            entity,
            comp_id,
            &self.component_manager,
            &mut self.entity_manager,
            self.tick,
        );
    }

    /// Takes the component `comp_id` from `entity`. Nothing changes where
    /// the entity is not alive or lacks the component.
    pub fn remove_component(&mut self, entity: Entity, comp_id: ComponentID)
        requires
            old(self).wf(),
        ensures
            World::removed(*old(self), *final(self), entity, comp_id),
    {
        if !self.has_component(entity, comp_id) {
            return ;
        }
        self.archetype_manager.remove_component(
            entity,
            comp_id,
            &self.component_manager,
            &mut self.entity_manager,
            self.tick,
        );
    }

    /// The bytes of the component `comp_id` of `entity`, or `None` where
    /// the entity is not alive or lacks the component.
    pub fn get_component(&self, entity: Entity, comp_id: ComponentID) -> (r: Option<&[u8]>)
        requires
            self.wf(),
        ensures
            match r {
                Some(v) => self.component(entity, comp_id) == Some(v@),
                None => self.component(entity, comp_id).is_none(),
            },
    {
        proof {
            self.lemma_wf();
        }
        if !self.entity_manager.alive(entity) {
            return None;
        }
        let record = self.entity_manager.get_record(entity);
        let arche = self.archetype_manager.get(record.archetype_id);
        if !arche.has_component(comp_id) {
            return None;
        }
        assert(arche@.columns.dom().contains(comp_id));
        let _ = Ghost(arche@.columns[comp_id]);
        Some(arche.get_component(comp_id, record.archetype_row))
    }
}

impl World {
    /// What changes of trackers leave as it was: entities, components,
    /// registry, tick and the queue of new archetypes.
    pub open spec fn same_contents(pre: World, post: World) -> bool {
        &&& post.wf()
        &&& post.registry() == pre.registry()
        &&& post.directory() == pre.directory()
        &&& post.new_archetypes() == pre.new_archetypes()
        &&& post.current_tick() == pre.current_tick()
        &&& forall|e: Entity| post.spent(e) == pre.spent(e)
        &&& post.is_full() == pre.is_full()
        &&& post.archetypes().len() == pre.archetypes().len()
        &&& sets_kept(pre.archetypes(), post.archetypes())
        &&& forall|x: Entity, c: ComponentID| post.component(x, c) == pre.component(x, c)
        &&& forall|x: Entity| post.components(x) == pre.components(x)
    }

    /// `post` is `pre` after a write to the component `comp_id` of
    /// `entity` was flagged: where the entity has the component, its column
    /// is tracked and the row counts as written at the current tick.
    /// Nothing else changes.
    pub open spec fn flagged(pre: World, post: World, entity: Entity, comp_id: ComponentID) -> bool {
        &&& World::same_contents(pre, post)
        &&& if pre.component(entity, comp_id).is_some() {
            let a = pre.directory()[entity].archetype_id as int;
            let row = pre.directory()[entity].archetype_row as int;
            let before = pre.archetypes()[a];
            post.archetypes() == pre.archetypes().update(
                a,
                ArchetypeView {
                    id: before.id,
                    set: before.set,
                    edges: before.edges,
                    columns: before.columns.insert(
                        comp_id,
                        before.columns[comp_id].flag_modified(row, pre.current_tick()),
                    ),
                    entities: before.entities,
                },
            )
        } else {
            post.archetypes() == pre.archetypes()
        }
    }

    /// `post` is `pre` after `query` was built or synced: the archetypes
    /// that match have tracking enabled on the columns to be tracked, and
    /// after a sync these count as read at the current tick.
    pub open spec fn queried(pre: World, post: World, query: Query, synced: bool) -> bool {
        &&& World::same_contents(pre, post)
        &&& query.wf()
        &&& query.in_sync(post.archetypes())
        &&& forall|i: int|
            0 <= i < pre.archetypes().len() ==> #[trigger] post.archetypes()[i] == (if synced {
                query.filters().synced(pre.archetypes()[i], pre.current_tick())
            } else {
                query.filters().matched(pre.archetypes()[i])
            })
    }

    /// The archetype graph.
    pub fn archetype_manager(&self) -> (r: &ArchetypeManager)
        requires
            self.wf(),
        ensures
            r.wf(),
            r.archetypes() == self.archetypes(),
            r.new_archetypes() == self.new_archetypes(),
    {
        &self.archetype_manager
    }

    /// The entity directory.
    pub fn entity_manager(&self) -> (r: &EntityManager)
        requires
            self.wf(),
        ensures
            r.wf(),
            r@ == self.directory(),
    {
        &self.entity_manager
    }

    /// The component registry.
    pub fn component_manager(&self) -> (r: &ComponentManager)
        requires
            self.wf(),
        ensures
            r.wf(),
            r@ == self.registry(),
    {
        &self.component_manager
    }

    /// Records a write to the component `comp_id` of `entity` at the
    /// current tick, enabling tracking on its column if need be. Nothing
    /// changes where the entity is not alive or lacks the component.
    pub fn flag_modified(&mut self, entity: Entity, comp_id: ComponentID)
        requires
            old(self).wf(),
        ensures
            World::flagged(*old(self), *final(self), entity, comp_id),
    {
        if !self.has_component(entity, comp_id) {
            return ;
        }
        let ghost t = self.archetypes();
        let record = *self.entity_manager.get_record(entity);
        let tick = self.tick;
        proof {
            self.lemma_wf();
            let a = t[record.archetype_id as int];
            assert(a.columns.dom().contains(comp_id));
            let _ = a.columns[comp_id];
        }
        let archetype = self.archetype_manager.get_mut(record.archetype_id);
        let storage = archetype.get_mut_storage(comp_id);
        storage.flag_modified(record.archetype_row, tick);
        proof {
            let t2 = self.archetypes();
            let a = t[record.archetype_id as int];
            assert forall|i: int| 0 <= i < t.len() implies {
                &&& (#[trigger] t2[i]).id == t[i].id
                &&& t2[i].set == t[i].set
                &&& t2[i].edges == t[i].edges
                &&& t2[i].entities == t[i].entities
                &&& t2[i].columns.dom() == t[i].columns.dom()
                &&& forall|c: ComponentID|
                    #![trigger t2[i].columns[c]]
                    t[i].columns.contains_key(c) ==> same_rows_of_column(
                        t[i].columns[c],
                        t2[i].columns[c],
                    )
            } by {
                if i == record.archetype_id {
                    assert(t2[i].columns.dom() =~= t[i].columns.dom());
                }
            }
            lemma_same_data(t, self.registry(), self.directory(), t2);
        }
    }

    /// `post` is `pre` after the component `comp_id` of `entity` was
    /// overwritten with `bytes`: where the entity has the component, it now
    /// has these bytes. Nothing else changes, trackers included.
    pub open spec fn written(
        pre: World,
        post: World,
        entity: Entity,
        comp_id: ComponentID,
        bytes: Seq<u8>,
    ) -> bool {
        &&& post.wf()
        &&& post.registry() == pre.registry()
        &&& post.directory() == pre.directory()
        &&& post.new_archetypes() == pre.new_archetypes()
        &&& post.current_tick() == pre.current_tick()
        &&& forall|e: Entity| post.spent(e) == pre.spent(e)
        &&& post.is_full() == pre.is_full()
        &&& post.archetypes().len() == pre.archetypes().len()
        &&& sets_kept(pre.archetypes(), post.archetypes())
        &&& forall|x: Entity, c: ComponentID|
            post.component(x, c) == (if x == entity && c == comp_id && pre.component(
                entity,
                comp_id,
            ).is_some() {
                Some(bytes)
            } else {
                pre.component(x, c)
            })
        &&& forall|x: Entity| post.components(x) == pre.components(x)
        &&& if pre.component(entity, comp_id).is_some() {
            let a = pre.directory()[entity].archetype_id as int;
            let row = pre.directory()[entity].archetype_row as int;
            let before = pre.archetypes()[a];
            post.archetypes() == pre.archetypes().update(
                a,
                ArchetypeView {
                    id: before.id,
                    set: before.set,
                    edges: before.edges,
                    columns: before.columns.insert(
                        comp_id,
                        before.columns[comp_id].write_row(row, bytes),
                    ),
                    entities: before.entities,
                },
            )
        } else {
            post.archetypes() == pre.archetypes()
        }
    }

    /// Overwrites the component `comp_id` of `entity` with the bytes of
    /// `component`, and says whether the entity had the component. Nothing
    /// changes where the entity is not alive or lacks the component. The
    /// write is not recorded in the tracker: that is what `flag_modified`
    /// is for.
    pub fn set_component(&mut self, entity: Entity, comp_id: ComponentID, component: &Vec<u8>) -> (r:
        bool)
        requires
            old(self).wf(),
            comp_id < old(self).registry().len() ==> component.len() == old(
                self,
            ).registry()[comp_id as int].size,
        ensures
            r == old(self).component(entity, comp_id).is_some(),
            World::written(*old(self), *final(self), entity, comp_id, component@),
    {
        if !self.has_component(entity, comp_id) {
            return false;
        }
        let ghost t = self.archetypes();
        let record = *self.entity_manager.get_record(entity);
        proof {
            self.lemma_wf();
            let a = t[record.archetype_id as int];
            assert(a.columns.dom().contains(comp_id));
            let _ = a.columns[comp_id];
        }
        let archetype = self.archetype_manager.get_mut(record.archetype_id);
        archetype.set_component(comp_id, record.archetype_row, component);
        proof {
            lemma_write_keeps(
                t,
                self.registry(),
                self.directory(),
                entity,
                comp_id,
                component@,
                self.archetypes(),
            );
        }
        true
    }

    /// Builds the query of `builder` on the archetypes of this world.
    pub fn query(&mut self, builder: QueryBuilder) -> (r: Query)
        requires
            old(self).wf(),
        ensures
            World::queried(*old(self), *final(self), r, false),
            r.bundle() == builder.bundle(),
            r.resources() == builder.resources(),
            r.filters() == bundle_filter(builder.bundle(), builder.filters()),
    {
        let ghost t = self.archetypes();
        proof {
            self.lemma_wf();
        }
        let r = builder.build(&mut self.archetype_manager);
        proof {
            let t2 = self.archetypes();
            lemma_filter_keeps_data(r.filters(), t, t2, 0);
            lemma_same_data(t, self.registry(), self.directory(), t2);
        }
        r
    }

    /// Brings `query` up to date with this world: archetypes created since
    /// its last sync are tested against its filter, and the tracked
    /// columns of every matching archetype count as read at the current
    /// tick.
    pub fn sync_query(&mut self, query: &mut Query)
        requires
            old(self).wf(),
            old(query).wf(),
            old(query).built_on(old(self).archetypes()),
        ensures
            World::queried(*old(self), *final(self), *final(query), true),
            final(query).bundle() == old(query).bundle(),
            final(query).resources() == old(query).resources(),
            final(query).filters() == old(query).filters(),
    {
        let ghost t = self.archetypes();
        proof {
            self.lemma_wf();
        }
        query.sync(&mut self.archetype_manager, self.tick);
        proof {
            let t2 = self.archetypes();
            lemma_filter_keeps_data(query.filters(), t, t2, self.tick);
            lemma_same_data(t, self.registry(), self.directory(), t2);
        }
    }

    /// An iterator over the rows of the archetypes that `query` matches.
    pub fn iter_query<'w, 'q>(&'w self, query: &'q Query) -> (r: ComponentBundleIter<'w, 'q>)
        requires
            self.wf(),
            query.wf(),
            query.built_on(self.archetypes()),
        ensures
            r.wf(),
            r.archetypes() == self.archetypes(),
            r.bundle() == query.bundle(),
            r.remaining() == rows_from(query.matching(), self.archetypes(), 0),
    {
        proof {
            self.lemma_wf();
        }
        query.iter(&self.archetype_manager)
    }

    /// Ends an update: the queue of new archetypes is emptied and the tick
    /// goes up by one, staying where it is once it is `u32::MAX`.
    pub fn end_update(&mut self)
        requires
            old(self).wf(),
        ensures
            final(self).wf(),
            final(self).registry() == old(self).registry(),
            final(self).directory() == old(self).directory(),
            final(self).archetypes() == old(self).archetypes(),
            final(self).new_archetypes().len() == 0,
            final(self).current_tick() == (if old(self).current_tick() < u32::MAX {
                (old(self).current_tick() + 1) as u32
            } else {
                u32::MAX
            }),
            forall|e: Entity| final(self).spent(e) == old(self).spent(e),
            final(self).is_full() == old(self).is_full(),
    {
        self.archetype_manager.clear_new_archetypes();
        if self.tick < u32::MAX {
            self.tick = self.tick + 1;
        }
    }
}

} // verus!
