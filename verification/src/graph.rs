//! The archetype graph: the table of all archetypes, the lookup from a
//! component set to its archetype, and the structural moves of entities
//! between archetypes.

use vstd::prelude::*;
use crate::archetype::{among, Archetype, ArchetypeID, ArchetypeView};
use crate::bitset::BitSet;
use crate::component::{ComponentID, ComponentManager, ComponentMetaData};
use crate::entity::{Entity, EntityManager};
use crate::graph_spec::{
    columns_match, directory_after_move, directory_inv, fresh_archetype, graph_inv, root_archetype,
    lemma_add_component, lemma_delete_keeps, lemma_edge_keeps_graph, lemma_push_keeps_graph,
    lemma_remove_component, lemma_same_rows, moved_out, same_rows, set_of, sets_kept, value_of,
    with_edge,
};
use crate::moves::{
    directory_after_delete, directory_after_step, lemma_moved_with, lemma_moved_without,
    lemma_neighbour_by_set, linked, neighbour, queue_after_step, queue_linked, row_left,
    table_after_delete, table_after_step,
};
use crate::hashing::{hash_words, new_hash_state};
use crate::int_map::{int_map_get, int_map_insert, IntMap};
use crate::storage::{ColumnView, ComponentStorage};
use crate::util::get_two_mut_unchecked;

verus! {

/// The entries of `q` are the `q.len()` ids that end just below `end`, in
/// ascending order.
pub open spec fn is_run(q: Seq<ArchetypeID>, end: int) -> bool {
    q.len() <= end && forall|k: int| 0 <= k < q.len() ==> #[trigger] q[k] == end - q.len() + k
}

/// Owns every archetype and finds the archetype of a component set.
pub struct ArchetypeManager {
    /// The keys of the hashes in `ids`.
    hash_state: ahash::RandomState,
    /// For the hash of a component set, an archetype that had that hash when
    /// it was created. A hint: what is found under a hash is checked.
    ids: IntMap,
    /// All archetypes, each at the index that is its id.
    archetype_table: Vec<Archetype>,
    /// The archetypes created since the queue was last cleared.
    new_archetypes_queue: Vec<ArchetypeID>,
}

impl ArchetypeManager {
    /// The views of the archetypes, by id.
    pub closed spec fn archetypes(&self) -> Seq<ArchetypeView> {
        Seq::new(self.archetype_table.len() as nat, |i: int| self.archetype_table[i]@)
    }

    /// The ids of the archetypes created since the queue was last cleared.
    pub closed spec fn new_archetypes(&self) -> Seq<ArchetypeID> {
        self.new_archetypes_queue@
    }

    /// The order of the columns of archetype `i`.
    pub closed spec fn column_order(&self, i: int) -> Seq<ComponentID> {
        self.archetype_table[i].column_order()
    }

    /// The representation invariant: every archetype is well-formed, and the
    /// queue holds the ids of the newest archetypes in the order of their
    /// creation.
    pub closed spec fn wf(&self) -> bool {
        &&& forall|i: int| 0 <= i < self.archetype_table.len() ==> (#[trigger] self.archetype_table[i]).wf()
        &&& is_run(self.new_archetypes_queue@, self.archetype_table.len() as int)
    }

    /// The whole invariant: the representation, the table and the directory.
    pub open spec fn inv(
        &self,
        metas: Seq<ComponentMetaData>,
        dir: Map<Entity, crate::entity::EntityRecord>,
    ) -> bool {
        &&& self.wf()
        &&& graph_inv(self.archetypes(), metas)
        &&& directory_inv(self.archetypes(), dir)
    }

    /// The queue lists the newest archetypes, each once.
    pub proof fn lemma_new_archetypes(&self)
        requires
            self.wf(),
        ensures
            is_run(self.new_archetypes(), self.archetypes().len() as int),
    {
    }

    /// A graph with the root archetype alone.
    pub fn new() -> (r: Self)
        ensures
            r.wf(),
            r.archetypes() == seq![root_archetype()],
            r.new_archetypes() == Seq::<ArchetypeID>::empty(),
            forall|metas: Seq<ComponentMetaData>| graph_inv(r.archetypes(), metas),
            forall|dir: Map<Entity, crate::entity::EntityRecord>|
                dir.dom() == Set::<Entity>::empty() ==> directory_inv(r.archetypes(), dir),
    {
        let mut archetype_table: Vec<Archetype> = Vec::new();
        archetype_table.push(Archetype::new(0, BitSet::new()));
        let r = Self {
            hash_state: new_hash_state(),
            ids: IntMap::default(),
            archetype_table,
            new_archetypes_queue: Vec::new(),
        };
        proof {
            let t = r.archetypes();
            assert(t[0] == r.archetype_table[0]@);
            assert(t[0].columns.dom() =~= t[0].set);
            assert(t =~= seq![root_archetype()]);
            assert forall|metas: Seq<ComponentMetaData>| graph_inv(t, metas) by {
                assert forall|i: int| 0 <= i < t.len() implies (#[trigger] t[i]).id == i
                    && t[i].inv() && columns_match(t[i], metas) by {}
            }
            assert forall|dir: Map<Entity, crate::entity::EntityRecord>|
                dir.dom() == Set::<Entity>::empty() implies directory_inv(t, dir) by {
                assert forall|e: Entity| #![trigger dir[e]] !dir.contains_key(e) by {
                    assert(!dir.dom().contains(e));
                }
            }
        }
        r
    }

    /// The number of archetypes.
    pub fn len(&self) -> (n: usize)
        ensures
            n == self.archetypes().len(),
    {
        self.archetype_table.len()
    }

    /// The root archetype.
    pub fn get_root(&self) -> (r: &Archetype)
        requires
            self.wf(),
            self.archetypes().len() >= 1,
        ensures
            r.wf(),
            r@ == self.archetypes()[0],
    {
        &self.archetype_table[0]
    }

    /// Mutable access to the root archetype. What the caller leaves there
    /// becomes the archetype; it must be left well-formed.
    pub fn get_root_mut(&mut self) -> (r: &mut Archetype)
        requires
            old(self).wf(),
            old(self).archetypes().len() >= 1,
        ensures
            r.wf(),
            r@ == old(self).archetypes()[0],
            final(r).wf() ==> final(self).wf(),
            final(self).archetypes() == old(self).archetypes().update(0, final(r)@),
            final(self).new_archetypes() == old(self).new_archetypes(),
    {
        self.get_mut(0)
    }

    /// The archetype `arche_id`.
    pub fn get(&self, arche_id: ArchetypeID) -> (r: &Archetype)
        requires
            self.wf(),
            arche_id < self.archetypes().len(),
        ensures
            r.wf(),
            r@ == self.archetypes()[arche_id as int],
            r.column_order() == self.column_order(arche_id as int),
    {
        &self.archetype_table[arche_id]
    }

    /// Mutable access to the archetype `arche_id`. What the caller leaves
    /// there becomes the archetype; it must be left well-formed.
    pub fn get_mut(&mut self, arche_id: ArchetypeID) -> (r: &mut Archetype)
        requires
            old(self).wf(),
            arche_id < old(self).archetypes().len(),
        ensures
            r.wf(),
            r@ == old(self).archetypes()[arche_id as int],
            final(r).wf() ==> final(self).wf(),
            final(self).archetypes() == old(self).archetypes().update(arche_id as int, final(r)@),
            final(self).new_archetypes() == old(self).new_archetypes(),
    {
        let r = &mut self.archetype_table[arche_id];
        proof {
            let after = old(self).archetype_table@.update(arche_id as int, *final(r));
            assert(Seq::new(after.len(), |i: int| after[i]@) =~= old(self).archetypes().update(
                arche_id as int,
                final(r)@,
            ));
        }
        r
    }

    /// The queue of new archetypes.
    pub fn new_archetypes_queue(&self) -> (r: &Vec<ArchetypeID>)
        ensures
            r@ == self.new_archetypes(),
    {
        &self.new_archetypes_queue
    }

    /// Empties the queue of new archetypes.
    pub fn clear_new_archetypes(&mut self)
        requires
            old(self).wf(),
        ensures
            final(self).wf(),
            final(self).archetypes() == old(self).archetypes(),
            final(self).new_archetypes().len() == 0,
    {
        self.new_archetypes_queue.clear();
    }

    /// The archetype whose set is `set`, if there is one.
    pub fn find_by_set(&self, set: &BitSet) -> (r: Option<ArchetypeID>)
        requires
            self.wf(),
        ensures
            match r {
                Some(id) => id < self.archetypes().len() && self.archetypes()[id as int].set == set@,
                None => forall|i: int|
                    0 <= i < self.archetypes().len() ==> (#[trigger] self.archetypes()[i]).set != set@,
            },
    {
        let hash = hash_words(&self.hash_state, set.significant_words());
        match int_map_get(&self.ids, hash) {
            Some(id) => {
                let id = *id;
                if id < self.archetype_table.len() && self.archetype_table[id].component_set().equals(
                    set,
                ) {
                    assert(self.archetypes()[id as int] == self.archetype_table[id as int]@);
                    return Some(id);
                }
            },
            None => {},
        }
        let mut i: usize = 0;
        while i < self.archetype_table.len()
            invariant
                i <= self.archetype_table.len(),
                forall|j: int| 0 <= j < i ==> (#[trigger] self.archetypes()[j]).set != set@,
            decreases self.archetype_table.len() - i,
        {
            assert(self.archetypes()[i as int] == self.archetype_table[i as int]@);
            if self.archetype_table[i].component_set().equals(set) {
                return Some(i);
            }
            i = i + 1;
        }
        None
    }

    /// Adds a complete, empty archetype to the table, under the next id,
    /// and to the queue of new archetypes.
    pub fn create_archetype(&mut self, archetype: Archetype) -> (arche_id: ArchetypeID)
        requires
            old(self).wf(),
            archetype.wf(),
            archetype@.id == old(self).archetypes().len(),
        ensures
            final(self).wf(),
            arche_id == old(self).archetypes().len(),
            final(self).archetypes() == old(self).archetypes().push(archetype@),
            final(self).new_archetypes() == old(self).new_archetypes().push(arche_id),
            final(self).column_order(arche_id as int) == archetype.column_order(),
            forall|i: int|
                0 <= i < old(self).archetypes().len() ==> final(self).column_order(i) == old(
                    self,
                ).column_order(i),
    {
        let arche_id = self.archetype_table.len();
        let hash = hash_words(&self.hash_state, archetype.component_set().significant_words());
        self.archetype_table.push(archetype);
        int_map_insert(&mut self.ids, hash, arche_id);
        self.new_archetypes_queue.push(arche_id);
        proof {
            let _ = self.archetype_table.len();
            assert(self.archetypes() =~= old(self).archetypes().push(archetype@));
        }
        arche_id
    }

    /// Records on both archetypes that the edge on `edge_comp_id` joins them.
    pub fn insert_graph_edge(
        &mut self,
        src_arche_id: ArchetypeID,
        dst_arche_id: ArchetypeID,
        edge_comp_id: ComponentID,
    )
        requires
            old(self).wf(),
            src_arche_id < old(self).archetypes().len(),
            dst_arche_id < old(self).archetypes().len(),
            edge_comp_id < usize::MAX,
        ensures
            final(self).wf(),
            final(self).new_archetypes() == old(self).new_archetypes(),
            final(self).archetypes().len() == old(self).archetypes().len(),
            forall|i: int|
                0 <= i < old(self).archetypes().len() ==> final(self).column_order(i) == old(
                    self,
                ).column_order(i),
            forall|i: int|
                0 <= i < old(self).archetypes().len() ==> #[trigger] final(self).archetypes()[i] == (
                ArchetypeView {
                    edges: if i == dst_arche_id {
                        (if i == src_arche_id {
                            old(self).archetypes()[i].edges.insert(edge_comp_id, dst_arche_id)
                        } else {
                            old(self).archetypes()[i].edges
                        }).insert(edge_comp_id, src_arche_id)
                    } else if i == src_arche_id {
                        old(self).archetypes()[i].edges.insert(edge_comp_id, dst_arche_id)
                    } else {
                        old(self).archetypes()[i].edges
                    },
                    ..old(self).archetypes()[i]
                }),
    {
        self.archetype_table[src_arche_id].insert_edge(edge_comp_id, dst_arche_id);
        self.archetype_table[dst_arche_id].insert_edge(edge_comp_id, src_arche_id);
        proof {
            assert forall|i: int| 0 <= i < old(self).archetypes().len() implies #[trigger] self.archetypes()[i]
                == (ArchetypeView {
                edges: if i == dst_arche_id {
                    (if i == src_arche_id {
                        old(self).archetypes()[i].edges.insert(edge_comp_id, dst_arche_id)
                    } else {
                        old(self).archetypes()[i].edges
                    }).insert(edge_comp_id, src_arche_id)
                } else if i == src_arche_id {
                    old(self).archetypes()[i].edges.insert(edge_comp_id, dst_arche_id)
                } else {
                    old(self).archetypes()[i].edges
                },
                ..old(self).archetypes()[i]
            }) by {
                assert(old(self).archetypes()[i] == old(self).archetype_table[i]@);
                assert(self.archetypes()[i] == self.archetype_table[i]@);
            }
            assert forall|i: int| 0 <= i < self.archetype_table.len() implies (
            #[trigger] self.archetype_table[i]).wf() by {
                let _ = old(self).archetype_table[i];
            }
        }
    }
}

/// The columns of a new archetype that inherits from `src` every column but
/// `skip`, beside the columns `own` that it has already.
pub open spec fn inherited_columns(
    own: Map<ComponentID, ColumnView>,
    src: Map<ComponentID, ColumnView>,
    skip: Option<ComponentID>,
) -> Map<ComponentID, ColumnView> {
    Map::new(
        |c: ComponentID| own.contains_key(c) || (src.contains_key(c) && skip != Some(c)),
        |c: ComponentID|
            if own.contains_key(c) {
                own[c]
            } else {
                ColumnView::empty(src[c].id, src[c].meta)
            },
    )
}

/// Gives `dst` an empty column for each column of `src` but `skip`.
fn inherit_columns(dst: &mut Archetype, src: &Archetype, skip: Option<ComponentID>)
    requires
        old(dst).wf(),
        src.wf(),
        forall|c: ComponentID| src@.columns.contains_key(c) ==> c < usize::MAX,
        forall|c: ComponentID| old(dst)@.columns.contains_key(c) ==> !src@.columns.contains_key(c),
    ensures
        final(dst).wf(),
        final(dst)@ == (ArchetypeView {
            columns: inherited_columns(old(dst)@.columns, src@.columns, skip),
            ..old(dst)@
        }),
{
    let ids = src.comp_ids();
    let ghost own = old(dst)@.columns;
    proof {
        src.lemma_column_order();
    }
    proof {
        assert(dst@.columns =~= Map::new(
            |c: ComponentID| own.contains_key(c) || (among(ids@, 0, c) && skip != Some(c)),
            |c: ComponentID|
                if own.contains_key(c) {
                    own[c]
                } else {
                    ColumnView::empty(src@.columns[c].id, src@.columns[c].meta)
                },
        ));
    }
    let mut i: usize = 0;
    while i < ids.len()
        invariant
            i <= ids.len(),
            dst.wf(),
            src.wf(),
            ids@ == src.column_order(),
            own == old(dst)@.columns,
            forall|c: ComponentID| src@.columns.contains_key(c) ==> c < usize::MAX,
            forall|c: ComponentID| own.contains_key(c) ==> !src@.columns.contains_key(c),
            forall|c: ComponentID|
                src@.columns.contains_key(c) <==> among(ids@, ids@.len() as int, c),
            dst@ == (ArchetypeView {
                columns: Map::new(
                    |c: ComponentID| own.contains_key(c) || (among(ids@, i as int, c) && skip != Some(c)),
                    |c: ComponentID|
                        if own.contains_key(c) {
                            own[c]
                        } else {
                            ColumnView::empty(src@.columns[c].id, src@.columns[c].meta)
                        },
                ),
                ..old(dst)@
            }),
        decreases ids.len() - i,
    {
        let k = ids[i];
        assert(among(ids@, ids@.len() as int, k));
        assert(src@.columns.contains_key(k));
        let ghost before = dst@.columns;
        let keep = match skip {
            Some(s) => s != k,
            None => true,
        };
        if keep {
            let storage = ComponentStorage::from_other(src.get_storage(k));
            dst.insert_storage(k, storage);
        }
        proof {
            assert forall|c: ComponentID| among(ids@, i + 1, c) == (c == k || among(ids@, i as int, c)) by {
                if among(ids@, i + 1, c) {
                    let j = choose|j: int| 0 <= j < i + 1 && j < ids@.len() && #[trigger] ids@[j] == c;
                    if j < i {
                        assert(among(ids@, i as int, c));
                    }
                }
                if among(ids@, i as int, c) {
                    let j = choose|j: int| 0 <= j < i && j < ids@.len() && #[trigger] ids@[j] == c;
                    assert(ids@[j] == c);
                }
                if c == k {
                    assert(ids@[i as int] == c);
                }
            }
            assert(dst@.columns =~= Map::new(
                |c: ComponentID| own.contains_key(c) || (among(ids@, i + 1, c) && skip != Some(c)),
                |c: ComponentID|
                    if own.contains_key(c) {
                        own[c]
                    } else {
                        ColumnView::empty(src@.columns[c].id, src@.columns[c].meta)
                    },
            ));
        }
        i = i + 1;
    }
    assert(dst@.columns =~= inherited_columns(own, src@.columns, skip));
}

impl ArchetypeManager {
    /// The archetype whose set is that of `src_arche_id` with `new_comp_id`
    /// added: by the edge on `new_comp_id` if there is one, else by the set,
    /// else it is created, each column of the source as an empty sibling
    /// and one more for `new_comp_id`. The edge is recorded for next time.
    pub fn get_extended_archetype(
        &mut self,
        src_arche_id: ArchetypeID,
        new_comp_id: ComponentID,
        comp_manager: &ComponentManager,
    ) -> (dst_arche_id: ArchetypeID)
        requires
            old(self).wf(),
            graph_inv(old(self).archetypes(), comp_manager@),
            src_arche_id < old(self).archetypes().len(),
            new_comp_id < comp_manager@.len(),
            !old(self).archetypes()[src_arche_id as int].set.contains(new_comp_id),
        ensures
            final(self).wf(),
            graph_inv(final(self).archetypes(), comp_manager@),
            same_rows(old(self).archetypes(), final(self).archetypes()),
            dst_arche_id < final(self).archetypes().len(),
            final(self).archetypes()[dst_arche_id as int].set == old(
                self,
            ).archetypes()[src_arche_id as int].set.insert(new_comp_id),
            final(self).archetypes().len() == old(self).archetypes().len()
                + final(self).new_archetypes().len() - old(self).new_archetypes().len(),
            final(self).new_archetypes().len() <= old(self).new_archetypes().len() + 1,
            dst_arche_id == neighbour(
                old(self).archetypes(),
                src_arche_id as int,
                new_comp_id,
                old(self).archetypes()[src_arche_id as int].set.insert(new_comp_id),
            ),
            final(self).archetypes() == linked(
                old(self).archetypes(),
                comp_manager@,
                src_arche_id as int,
                new_comp_id,
                old(self).archetypes()[src_arche_id as int].set.insert(new_comp_id),
            ),
            final(self).new_archetypes() == queue_linked(
                old(self).archetypes(),
                old(self).new_archetypes(),
                src_arche_id as int,
                new_comp_id,
                old(self).archetypes()[src_arche_id as int].set.insert(new_comp_id),
            ),
    {
        let ghost t = self.archetypes();
        let ghost metas = comp_manager@;
        let registered = comp_manager.len();
        proof {
            assert(t[src_arche_id as int] == self.archetype_table[src_arche_id as int]@);
        }
        match self.archetype_table[src_arche_id].edge(new_comp_id) {
            Some(dst_arche_id) => {
                assert(t[src_arche_id as int].edges.contains_key(new_comp_id));
                return dst_arche_id;
            },
            None => {},
        }
        let mut target = self.archetype_table[src_arche_id].component_set().duplicate();
        target.set(new_comp_id);
        match self.find_by_set(&target) {
            Some(dst_arche_id) => {
                self.insert_graph_edge(src_arche_id, dst_arche_id, new_comp_id);
                proof {
                    assert(t[dst_arche_id as int].set.contains(new_comp_id));
                    lemma_edge_keeps_graph(
                        t,
                        metas,
                        src_arche_id as int,
                        dst_arche_id as int,
                        new_comp_id,
                        self.archetypes(),
                    );
                    assert(self.archetypes() =~= with_edge(
                        t,
                        src_arche_id as int,
                        dst_arche_id as int,
                        new_comp_id,
                    ));
                    lemma_neighbour_by_set(
                        t,
                        metas,
                        src_arche_id as int,
                        new_comp_id,
                        target@,
                        dst_arche_id,
                    );
                }
                return dst_arche_id;
            },
            None => {},
        }
        let dst_arche_id = self.archetype_table.len();
        let mut arche = Archetype::new(dst_arche_id, target);
        arche.insert_storage(
            new_comp_id,
            ComponentStorage::from_metadata(new_comp_id, comp_manager.get_metadata(new_comp_id)),
        );
        proof {
            let s = t[src_arche_id as int];
            assert forall|c: ComponentID| s.columns.contains_key(c) implies c < usize::MAX by {
                let _ = s.columns[c];
            }
            assert forall|c: ComponentID| arche@.columns.contains_key(c) implies !s.columns.contains_key(
                c,
            ) by {
                assert(c == new_comp_id);
                assert(!s.columns.dom().contains(c));
            }
        }
        inherit_columns(&mut arche, &self.archetype_table[src_arche_id], None);
        proof {
            let s = t[src_arche_id as int];
            let v = arche@;
            assert(v.columns.dom() =~= v.set) by {
                assert forall|c: ComponentID| v.columns.dom().contains(c) == v.set.contains(c) by {
                    assert(s.columns.dom().contains(c) == s.set.contains(c));
                }
            }
            assert forall|c: ComponentID| #![trigger v.columns[c]] v.columns.contains_key(c) implies {
                &&& v.columns[c].wf()
                &&& v.columns[c].id == c
                &&& v.columns[c].rows.len() == v.entities.len()
                &&& c < metas.len()
                &&& v.columns[c].meta == metas[c as int]
            } by {
                if c != new_comp_id {
                    let _ = s.columns[c];
                }
            }
            lemma_push_keeps_graph(t, metas, v);
            assert(v.columns =~= fresh_archetype(dst_arche_id, v.set, metas).columns);
        }
        let ghost v = arche@;
        self.create_archetype(arche);
        let ghost t1 = self.archetypes();
        self.insert_graph_edge(src_arche_id, dst_arche_id, new_comp_id);
        proof {
            assert(t1[src_arche_id as int] == t[src_arche_id as int]);
            lemma_edge_keeps_graph(
                t1,
                metas,
                src_arche_id as int,
                dst_arche_id as int,
                new_comp_id,
                self.archetypes(),
            );
            let t2 = self.archetypes();
            assert(t2 =~= with_edge(t1, src_arche_id as int, dst_arche_id as int, new_comp_id));
            assert(same_rows(t, t2)) by {
                assert forall|i: int| 0 <= i < t.len() implies (#[trigger] t2[i]).id == t[i].id
                    && t2[i].set == t[i].set && t2[i].columns == t[i].columns && t2[i].entities
                    == t[i].entities by {
                    assert(t1[i] == t[i]);
                }
            }
        }
        dst_arche_id
    }

    /// The archetype whose set is that of `src_arche_id` without
    /// `old_comp_id`: by the edge on `old_comp_id` if there is one, else by
    /// the set, else it is created, each column of the source but that of
    /// `old_comp_id` as an empty sibling. The edge is recorded for next time.
    pub fn get_reduced_archetype(
        &mut self,
        src_arche_id: ArchetypeID,
        old_comp_id: ComponentID,
        comp_manager: &ComponentManager,
    ) -> (dst_arche_id: ArchetypeID)
        requires
            old(self).wf(),
            graph_inv(old(self).archetypes(), comp_manager@),
            src_arche_id < old(self).archetypes().len(),
            old(self).archetypes()[src_arche_id as int].set.contains(old_comp_id),
        ensures
            final(self).wf(),
            graph_inv(final(self).archetypes(), comp_manager@),
            same_rows(old(self).archetypes(), final(self).archetypes()),
            dst_arche_id < final(self).archetypes().len(),
            final(self).archetypes()[dst_arche_id as int].set == old(
                self,
            ).archetypes()[src_arche_id as int].set.remove(old_comp_id),
            final(self).archetypes().len() == old(self).archetypes().len()
                + final(self).new_archetypes().len() - old(self).new_archetypes().len(),
            final(self).new_archetypes().len() <= old(self).new_archetypes().len() + 1,
            dst_arche_id == neighbour(
                old(self).archetypes(),
                src_arche_id as int,
                old_comp_id,
                old(self).archetypes()[src_arche_id as int].set.remove(old_comp_id),
            ),
            final(self).archetypes() == linked(
                old(self).archetypes(),
                comp_manager@,
                src_arche_id as int,
                old_comp_id,
                old(self).archetypes()[src_arche_id as int].set.remove(old_comp_id),
            ),
            final(self).new_archetypes() == queue_linked(
                old(self).archetypes(),
                old(self).new_archetypes(),
                src_arche_id as int,
                old_comp_id,
                old(self).archetypes()[src_arche_id as int].set.remove(old_comp_id),
            ),
    {
        let ghost t = self.archetypes();
        let ghost metas = comp_manager@;
        let registered = comp_manager.len();
        proof {
            assert(t[src_arche_id as int] == self.archetype_table[src_arche_id as int]@);
            assert(t[src_arche_id as int].columns.dom().contains(old_comp_id));
            let _ = t[src_arche_id as int].columns[old_comp_id];
        }
        match self.archetype_table[src_arche_id].edge(old_comp_id) {
            Some(dst_arche_id) => {
                assert(t[src_arche_id as int].edges.contains_key(old_comp_id));
                return dst_arche_id;
            },
            None => {},
        }
        let mut target = self.archetype_table[src_arche_id].component_set().duplicate();
        target.clear(old_comp_id);
        match self.find_by_set(&target) {
            Some(dst_arche_id) => {
                self.insert_graph_edge(src_arche_id, dst_arche_id, old_comp_id);
                proof {
                    assert(!t[dst_arche_id as int].set.contains(old_comp_id));
                    lemma_edge_keeps_graph(
                        t,
                        metas,
                        src_arche_id as int,
                        dst_arche_id as int,
                        old_comp_id,
                        self.archetypes(),
                    );
                    assert(self.archetypes() =~= with_edge(
                        t,
                        src_arche_id as int,
                        dst_arche_id as int,
                        old_comp_id,
                    ));
                    lemma_neighbour_by_set(
                        t,
                        metas,
                        src_arche_id as int,
                        old_comp_id,
                        target@,
                        dst_arche_id,
                    );
                }
                return dst_arche_id;
            },
            None => {},
        }
        let dst_arche_id = self.archetype_table.len();
        let mut arche = Archetype::new(dst_arche_id, target);
        proof {
            let s = t[src_arche_id as int];
            assert forall|c: ComponentID| s.columns.contains_key(c) implies c < usize::MAX by {
                let _ = s.columns[c];
            }
        }
        inherit_columns(&mut arche, &self.archetype_table[src_arche_id], Some(old_comp_id));
        proof {
            let s = t[src_arche_id as int];
            let v = arche@;
            assert(v.columns.dom() =~= v.set) by {
                assert forall|c: ComponentID| v.columns.dom().contains(c) == v.set.contains(c) by {
                    assert(s.columns.dom().contains(c) == s.set.contains(c));
                }
            }
            assert forall|c: ComponentID| #![trigger v.columns[c]] v.columns.contains_key(c) implies {
                &&& v.columns[c].wf()
                &&& v.columns[c].id == c
                &&& v.columns[c].rows.len() == v.entities.len()
                &&& c < metas.len()
                &&& v.columns[c].meta == metas[c as int]
            } by {
                let _ = s.columns[c];
            }
            lemma_push_keeps_graph(t, metas, v);
            assert(v.columns =~= fresh_archetype(dst_arche_id, v.set, metas).columns);
        }
        self.create_archetype(arche);
        let ghost t1 = self.archetypes();
        self.insert_graph_edge(src_arche_id, dst_arche_id, old_comp_id);
        proof {
            assert(t1[src_arche_id as int] == t[src_arche_id as int]);
            lemma_edge_keeps_graph(
                t1,
                metas,
                src_arche_id as int,
                dst_arche_id as int,
                old_comp_id,
                self.archetypes(),
            );
            let t2 = self.archetypes();
            assert(t2 =~= with_edge(t1, src_arche_id as int, dst_arche_id as int, old_comp_id));
            assert(same_rows(t, t2)) by {
                assert forall|i: int| 0 <= i < t.len() implies (#[trigger] t2[i]).id == t[i].id
                    && t2[i].set == t[i].set && t2[i].columns == t[i].columns && t2[i].entities
                    == t[i].entities by {
                    assert(t1[i] == t[i]);
                }
            }
        }
        dst_arche_id
    }
}

/// A copy of `ids`.
fn copy_ids(ids: &Vec<ComponentID>) -> (r: Vec<ComponentID>)
    ensures
        r@ == ids@,
{
    let mut r: Vec<ComponentID> = Vec::with_capacity(ids.len());
    let mut i: usize = 0;
    while i < ids.len()
        invariant
            i <= ids.len(),
            r@ == ids@.subrange(0, i as int),
        decreases ids.len() - i,
    {
        r.push(ids[i]);
        assert(r@ =~= ids@.subrange(0, i + 1));
        i = i + 1;
    }
    assert(ids@.subrange(0, ids.len() as int) =~= ids@);
    r
}

impl ArchetypeManager {
    /// Gives the live entity `entity`, which lacks it, the component
    /// `comp_id` with the value `component`: the entity moves to the
    /// archetype of the larger set with all that it has.
    pub fn add_component(
        &mut self,
        component: &Vec<u8>,
        entity: Entity,
        comp_id: ComponentID,
        comp_manager: &ComponentManager,
        entity_manager: &mut EntityManager,
        tick: u32,
    )
        requires
            old(self).inv(comp_manager@, old(entity_manager)@),
            old(entity_manager).wf(),
            old(entity_manager)@.contains_key(entity),
            comp_id < comp_manager@.len(),
            component.len() == comp_manager@[comp_id as int].size,
            set_of(old(self).archetypes(), old(entity_manager)@, entity) matches Some(s)
                && !s.contains(comp_id),
        ensures
            sets_kept(old(self).archetypes(), final(self).archetypes()),
            final(self).inv(comp_manager@, final(entity_manager)@),
            final(entity_manager).wf(),
            final(entity_manager)@.dom() == old(entity_manager)@.dom(),
            forall|e: Entity| old(entity_manager).spent(e) == final(entity_manager).spent(e),
            final(entity_manager).is_full() == old(entity_manager).is_full(),
            final(self).archetypes().len() == old(self).archetypes().len()
                + final(self).new_archetypes().len() - old(self).new_archetypes().len(),
            final(self).new_archetypes().len() <= old(self).new_archetypes().len() + 1,
            forall|x: Entity, c: ComponentID|
                value_of(final(self).archetypes(), final(entity_manager)@, x, c) == (if x == entity
                    && c == comp_id {
                    Some(component@)
                } else {
                    value_of(old(self).archetypes(), old(entity_manager)@, x, c)
                }),
            forall|x: Entity|
                set_of(final(self).archetypes(), final(entity_manager)@, x) == (if x == entity {
                    Some(
                        set_of(old(self).archetypes(), old(entity_manager)@, entity).unwrap().insert(
                            comp_id,
                        ),
                    )
                } else {
                    set_of(old(self).archetypes(), old(entity_manager)@, x)
                }),
            final(self).archetypes() == table_after_step(
                old(self).archetypes(),
                comp_manager@,
                old(entity_manager)@,
                entity,
                comp_id,
                component@,
                tick,
            ),
            final(entity_manager)@ == directory_after_step(
                old(self).archetypes(),
                comp_manager@,
                old(entity_manager)@,
                entity,
                comp_id,
            ),
            final(self).new_archetypes() == queue_after_step(
                old(self).archetypes(),
                old(self).new_archetypes(),
                old(entity_manager)@,
                entity,
                comp_id,
            ),
    {
        let ghost t0 = self.archetypes();
        let ghost dir = entity_manager@;
        let ghost metas = comp_manager@;
        let record = *entity_manager.get_record(entity);
        let src_arche_id = record.archetype_id;
        let ghost row = record.archetype_row as int;
        let dst_arche_id = self.get_extended_archetype(src_arche_id, comp_id, comp_manager);
        let ghost t1 = self.archetypes();
        proof {
            lemma_same_rows(t0, t1, dir);
            assert(t1[src_arche_id as int].set == t0[src_arche_id as int].set);
            assert(t1[src_arche_id as int] == self.archetype_table[src_arche_id as int]@);
            assert(t1[dst_arche_id as int] == self.archetype_table[dst_arche_id as int]@);
            assert(src_arche_id != dst_arche_id) by {
                if src_arche_id == dst_arche_id {
                    assert(t1[dst_arche_id as int].set.contains(comp_id));
                }
            }
            assert(t1[src_arche_id as int].entities[row] == entity);
            let _ = t1[src_arche_id as int].entities.last();
            assert(t1[src_arche_id as int].entities[t1[src_arche_id as int].entities.len() - 1]
                == t1[src_arche_id as int].entities.last());
            self.archetype_table[src_arche_id as int].lemma_column_order();
        }
        let comp_ids = copy_ids(self.archetype_table[src_arche_id].comp_ids());
        proof {
            let s = t1[src_arche_id as int];
            let d = t1[dst_arche_id as int];
            assert forall|k: int| 0 <= k < comp_ids.len() implies {
                &&& s.columns.contains_key(#[trigger] comp_ids[k])
                &&& d.columns.contains_key(comp_ids[k])
                &&& s.columns[comp_ids[k]].meta.size == d.columns[comp_ids[k]].meta.size
            } by {
                let c = comp_ids[k];
                assert(among(comp_ids@, comp_ids@.len() as int, c));
                assert(s.columns.dom().contains(c));
                assert(d.set.contains(c));
                assert(d.columns.dom().contains(c));
                let _ = s.columns[c];
                let _ = d.columns[c];
            }
            assert(d.columns.dom().contains(comp_id));
            let _ = d.columns[comp_id];
        }
        let ghost table1 = self.archetype_table@;
        let (src_arche, dst_arche) = get_two_mut_unchecked(
            &mut self.archetype_table,
            src_arche_id,
            dst_arche_id,
        );
        src_arche.transfer_entity(entity, &comp_ids, dst_arche, entity_manager, tick);
        dst_arche.push_component(comp_id, component, tick);
        proof {
            let t2 = self.archetypes();
            assert(self.archetype_table@.len() == table1.len());
            assert forall|i: int| 0 <= i < t1.len() && i != src_arche_id && i != dst_arche_id implies t2[i]
                == t1[i] by {
                assert(self.archetype_table[i] == table1[i]);
            }
            assert(t2[src_arche_id as int] == self.archetype_table[src_arche_id as int]@);
            assert(t2[dst_arche_id as int] == self.archetype_table[dst_arche_id as int]@);
            assert forall|i: int| 0 <= i < self.archetype_table.len() implies (
            #[trigger] self.archetype_table[i]).wf() by {
                if i != src_arche_id && i != dst_arche_id {
                    assert(self.archetype_table[i] == table1[i]);
                }
            }
            lemma_add_component(
                t1,
                metas,
                dir,
                entity,
                dst_arche_id,
                comp_id,
                component@,
                comp_ids@,
                tick,
                t2,
            );
            lemma_moved_with(
                t1,
                dir,
                entity,
                dst_arche_id,
                comp_id,
                component@,
                comp_ids@,
                tick,
                t2,
            );
            assert(sets_kept(t0, t2)) by {
                assert forall|i: int| 0 <= i < t0.len() implies (#[trigger] t2[i]).set == t0[i].set by {
                    assert(t1[i].set == t0[i].set);
                    if i != src_arche_id && i != dst_arche_id {
                        assert(t2[i] == t1[i]);
                    }
                }
            }
            assert(entity_manager@ == directory_after_move(t1, dir, entity, dst_arche_id));
        }
    }

    /// Takes from the live entity `entity` the component `comp_id`, which
    /// it has: the entity moves to the archetype of the smaller set with
    /// all else that it has.
    pub fn remove_component(
        &mut self,
        entity: Entity,
        comp_id: ComponentID,
        comp_manager: &ComponentManager,
        entity_manager: &mut EntityManager,
        tick: u32,
    )
        requires
            old(self).inv(comp_manager@, old(entity_manager)@),
            old(entity_manager).wf(),
            old(entity_manager)@.contains_key(entity),
            set_of(old(self).archetypes(), old(entity_manager)@, entity) matches Some(s)
                && s.contains(comp_id),
        ensures
            sets_kept(old(self).archetypes(), final(self).archetypes()),
            final(self).inv(comp_manager@, final(entity_manager)@),
            final(entity_manager).wf(),
            final(entity_manager)@.dom() == old(entity_manager)@.dom(),
            forall|e: Entity| old(entity_manager).spent(e) == final(entity_manager).spent(e),
            final(entity_manager).is_full() == old(entity_manager).is_full(),
            final(self).archetypes().len() == old(self).archetypes().len()
                + final(self).new_archetypes().len() - old(self).new_archetypes().len(),
            final(self).new_archetypes().len() <= old(self).new_archetypes().len() + 1,
            forall|x: Entity, c: ComponentID|
                value_of(final(self).archetypes(), final(entity_manager)@, x, c) == (if x == entity
                    && c == comp_id {
                    None
                } else {
                    value_of(old(self).archetypes(), old(entity_manager)@, x, c)
                }),
            forall|x: Entity|
                set_of(final(self).archetypes(), final(entity_manager)@, x) == (if x == entity {
                    Some(
                        set_of(old(self).archetypes(), old(entity_manager)@, entity).unwrap().remove(
                            comp_id,
                        ),
                    )
                } else {
                    set_of(old(self).archetypes(), old(entity_manager)@, x)
                }),
            final(self).archetypes() == table_after_step(
                old(self).archetypes(),
                comp_manager@,
                old(entity_manager)@,
                entity,
                comp_id,
                Seq::empty(),
                tick,
            ),
            final(entity_manager)@ == directory_after_step(
                old(self).archetypes(),
                comp_manager@,
                old(entity_manager)@,
                entity,
                comp_id,
            ),
            final(self).new_archetypes() == queue_after_step(
                old(self).archetypes(),
                old(self).new_archetypes(),
                old(entity_manager)@,
                entity,
                comp_id,
            ),
    {
        let ghost t0 = self.archetypes();
        let ghost dir = entity_manager@;
        let ghost metas = comp_manager@;
        let record = *entity_manager.get_record(entity);
        let src_arche_id = record.archetype_id;
        let row = record.archetype_row;
        let dst_arche_id = self.get_reduced_archetype(src_arche_id, comp_id, comp_manager);
        let ghost t1 = self.archetypes();
        proof {
            lemma_same_rows(t0, t1, dir);
            assert(t1[src_arche_id as int].set == t0[src_arche_id as int].set);
            assert(t1[src_arche_id as int] == self.archetype_table[src_arche_id as int]@);
            assert(t1[dst_arche_id as int] == self.archetype_table[dst_arche_id as int]@);
            assert(src_arche_id != dst_arche_id) by {
                if src_arche_id == dst_arche_id {
                    assert(!t1[dst_arche_id as int].set.contains(comp_id));
                }
            }
            assert(t1[src_arche_id as int].entities[row as int] == entity);
            assert(t1[src_arche_id as int].entities[t1[src_arche_id as int].entities.len() - 1]
                == t1[src_arche_id as int].entities.last());
            self.archetype_table[dst_arche_id as int].lemma_column_order();
        }
        let comp_ids = copy_ids(self.archetype_table[dst_arche_id].comp_ids());
        proof {
            let s = t1[src_arche_id as int];
            let d = t1[dst_arche_id as int];
            assert forall|k: int| 0 <= k < comp_ids.len() implies {
                &&& s.columns.contains_key(#[trigger] comp_ids[k])
                &&& d.columns.contains_key(comp_ids[k])
                &&& s.columns[comp_ids[k]].meta.size == d.columns[comp_ids[k]].meta.size
            } by {
                let c = comp_ids[k];
                assert(among(comp_ids@, comp_ids@.len() as int, c));
                assert(d.columns.dom().contains(c));
                assert(s.set.contains(c));
                assert(s.columns.dom().contains(c));
                let _ = s.columns[c];
                let _ = d.columns[c];
            }
            assert(s.columns.dom().contains(comp_id));
            let _ = s.columns[comp_id];
            assert(!d.columns.dom().contains(comp_id));
            assert(!among(comp_ids@, comp_ids@.len() as int, comp_id));
        }
        let ghost table1 = self.archetype_table@;
        let (src_arche, dst_arche) = get_two_mut_unchecked(
            &mut self.archetype_table,
            src_arche_id,
            dst_arche_id,
        );
        src_arche.transfer_entity(entity, &comp_ids, dst_arche, entity_manager, tick);
        src_arche.delete_component(comp_id, row);
        proof {
            let t2 = self.archetypes();
            assert(self.archetype_table@.len() == table1.len());
            assert forall|i: int| 0 <= i < t1.len() && i != src_arche_id && i != dst_arche_id implies t2[i]
                == t1[i] by {
                assert(self.archetype_table[i] == table1[i]);
            }
            assert(t2[src_arche_id as int] == self.archetype_table[src_arche_id as int]@);
            assert(t2[dst_arche_id as int] == self.archetype_table[dst_arche_id as int]@);
            assert forall|i: int| 0 <= i < self.archetype_table.len() implies (
            #[trigger] self.archetype_table[i]).wf() by {
                if i != src_arche_id && i != dst_arche_id {
                    assert(self.archetype_table[i] == table1[i]);
                }
            }
            lemma_remove_component(
                t1,
                metas,
                dir,
                entity,
                dst_arche_id,
                comp_id,
                comp_ids@,
                tick,
                t2,
            );
            lemma_moved_without(t1, dir, entity, dst_arche_id, comp_id, comp_ids@, tick, t2);
            assert(sets_kept(t0, t2)) by {
                assert forall|i: int| 0 <= i < t0.len() implies (#[trigger] t2[i]).set == t0[i].set by {
                    assert(t1[i].set == t0[i].set);
                    if i != src_arche_id && i != dst_arche_id {
                        assert(t2[i] == t1[i]);
                    }
                }
            }
            assert(entity_manager@ == directory_after_move(t1, dir, entity, dst_arche_id));
        }
    }

    /// Swap-removes the row of the live entity `entity` from its archetype:
    /// from every column and from the entity list. The record of `entity`
    /// is left for the caller to release.
    pub fn delete_entity(
        &mut self,
        entity: Entity,
        comp_manager: &ComponentManager,
        entity_manager: &mut EntityManager,
    )
        requires
            old(self).inv(comp_manager@, old(entity_manager)@),
            old(entity_manager).wf(),
            old(entity_manager)@.contains_key(entity),
        ensures
            sets_kept(old(self).archetypes(), final(self).archetypes()),
            final(self).inv(comp_manager@, final(entity_manager)@.remove(entity)),
            final(entity_manager).wf(),
            final(entity_manager)@.dom() == old(entity_manager)@.dom(),
            forall|e: Entity| old(entity_manager).spent(e) == final(entity_manager).spent(e),
            final(self).archetypes().len() == old(self).archetypes().len(),
            final(self).new_archetypes() == old(self).new_archetypes(),
            forall|x: Entity, c: ComponentID|
                x != entity ==> value_of(
                    final(self).archetypes(),
                    final(entity_manager)@.remove(entity),
                    x,
                    c,
                ) == value_of(old(self).archetypes(), old(entity_manager)@, x, c),
            forall|x: Entity|
                x != entity ==> set_of(final(self).archetypes(), final(entity_manager)@.remove(entity), x)
                    == set_of(old(self).archetypes(), old(entity_manager)@, x),
            final(self).archetypes() == table_after_delete(
                old(self).archetypes(),
                old(entity_manager)@,
                entity,
            ),
            final(entity_manager)@.remove(entity) == directory_after_delete(
                old(self).archetypes(),
                old(entity_manager)@,
                entity,
            ),
    {
        let ghost t0 = self.archetypes();
        let ghost dir = entity_manager@;
        let record = *entity_manager.get_record(entity);
        let arche_id = record.archetype_id;
        let row = record.archetype_row;
        proof {
            assert(t0[arche_id as int] == self.archetype_table[arche_id as int]@);
            assert(t0[arche_id as int].entities[row as int] == entity);
            assert(t0[arche_id as int].entities[t0[arche_id as int].entities.len() - 1]
                == t0[arche_id as int].entities.last());
            self.archetype_table[arche_id as int].lemma_column_order();
        }
        let ghost table0 = self.archetype_table@;
        let arche = &mut self.archetype_table[arche_id];
        let ghost a0 = arche@;
        let ghost order = arche.column_order();
        let n = arche.comp_ids().len();
        proof {
            assert(arche@.columns =~= Map::new(
                |c: ComponentID| a0.columns.contains_key(c),
                |c: ComponentID|
                    if among(order, 0, c) {
                        a0.columns[c].swap_remove(row as int)
                    } else {
                        a0.columns[c]
                    },
            ));
        }
        let mut i: usize = 0;
        while i < n
            invariant
                i <= n,
                n == order.len(),
                arche.wf(),
                arche.column_order() == order,
                order.no_duplicates(),
                a0.inv(),
                row < a0.entities.len(),
                forall|c: ComponentID| a0.columns.contains_key(c) <==> among(order, order.len() as int, c),
                arche@ == (ArchetypeView {
                    columns: Map::new(
                        |c: ComponentID| a0.columns.contains_key(c),
                        |c: ComponentID|
                            if among(order, i as int, c) {
                                a0.columns[c].swap_remove(row as int)
                            } else {
                                a0.columns[c]
                            },
                    ),
                    ..a0
                }),
            decreases n - i,
        {
            let c = arche.comp_ids()[i];
            proof {
                assert(among(order, order.len() as int, c));
                assert(!among(order, i as int, c)) by {
                    if among(order, i as int, c) {
                        let k = choose|k: int| 0 <= k < i && k < order.len() && #[trigger] order[k] == c;
                        assert(order[k] == order[i as int]);
                    }
                }
                let _ = a0.columns[c];
            }
            arche.delete_component(c, row);
            proof {
                assert forall|d: ComponentID|
                    among(order, i + 1, d) == (d == c || among(order, i as int, d)) by {
                    if among(order, i + 1, d) {
                        let k = choose|k: int| 0 <= k < i + 1 && k < order.len() && #[trigger] order[k] == d;
                        if k < i {
                            assert(among(order, i as int, d));
                        }
                    }
                    if among(order, i as int, d) {
                        let k = choose|k: int| 0 <= k < i && k < order.len() && #[trigger] order[k] == d;
                        assert(order[k] == d);
                    }
                    if d == c {
                        assert(order[i as int] == d);
                    }
                }
                assert(arche@.columns =~= Map::new(
                    |d: ComponentID| a0.columns.contains_key(d),
                    |d: ComponentID|
                        if among(order, i + 1, d) {
                            a0.columns[d].swap_remove(row as int)
                        } else {
                            a0.columns[d]
                        },
                ));
            }
            i = i + 1;
        }
        arche.delete_entity(entity, entity_manager);
        proof {
            let t2 = self.archetypes();
            assert forall|j: int| 0 <= j < t0.len() && j != arche_id implies t2[j] == t0[j] by {
                assert(self.archetype_table[j] == table0[j]);
            }
            assert(t2[arche_id as int] == self.archetype_table[arche_id as int]@);
            assert forall|j: int| 0 <= j < self.archetype_table.len() implies (
            #[trigger] self.archetype_table[j]).wf() by {
                if j != arche_id {
                    assert(self.archetype_table[j] == table0[j]);
                }
            }
            assert(t2[arche_id as int].columns.dom() =~= t0[arche_id as int].columns.dom());
            assert(moved_out(t0[arche_id as int], t2[arche_id as int], row as int));
            assert(sets_kept(t0, t2)) by {
                assert forall|j: int| 0 <= j < t0.len() implies (#[trigger] t2[j]).set == t0[j].set by {
                    if j != arche_id {
                        assert(t2[j] == t0[j]);
                    }
                }
            }
            lemma_delete_keeps(t0, comp_manager@, dir, entity, t2, entity_manager@.remove(entity));
            assert(t2[arche_id as int].columns =~= row_left(t0[arche_id as int], row as int).columns);
            assert(t2 =~= table_after_delete(t0, dir, entity));
        }
    }
}

} // verus!
