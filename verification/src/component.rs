//! Component identities: the registry that gives each component type a
//! dense id, and the layout recorded for it.

use vstd::prelude::*;
use crate::int_map::{int_map_get, int_map_insert, IntMap};

verus! {

/// The dense, sequential id of a registered component type.
pub type ComponentID = usize;

/// Marks the types whose values can be kept as components: every type
/// that borrows nothing.
pub trait Component: 'static {

}

impl<T: 'static> Component for T {

}

/// What the store knows of a component type: an opaque tag that identifies
/// the type, and the size and alignment of its values in bytes.
#[derive(Clone, Copy, Debug, PartialEq, Eq, Structural)]
pub struct ComponentMetaData {
    pub type_tag: u64,
    pub size: usize,
    pub align: usize,
}

impl ComponentMetaData {
    /// The metadata of the type with tag `type_tag`, whose values take `size`
    /// bytes at the alignment `align`.
    pub fn new(type_tag: u64, size: usize, align: usize) -> (r: Self)
        ensures
            r == (ComponentMetaData { type_tag, size, align }),
    {
        Self { type_tag, size, align }
    }
}

/// The id under which `type_tag` stands in `metas`, if it does.
pub open spec fn id_of_tag(metas: Seq<ComponentMetaData>, type_tag: u64) -> Option<ComponentID> {
    if exists|i: int| 0 <= i < metas.len() && (#[trigger] metas[i]).type_tag == type_tag {
        Some(
            (choose|i: int| 0 <= i < metas.len() && (#[trigger] metas[i]).type_tag == type_tag) as usize,
        )
    } else {
        None
    }
}

/// No two entries of `metas` have the same type tag.
pub open spec fn tags_distinct(metas: Seq<ComponentMetaData>) -> bool {
    forall|i: int, j: int|
        0 <= i < metas.len() && 0 <= j < metas.len() && (#[trigger] metas[i]).type_tag == (
        #[trigger] metas[j]).type_tag ==> i == j
}

/// The registry of component types: ids are given out in sequence, never
/// change and are never given out again.
pub struct ComponentManager {
    /// The id of each registered type tag.
    ids: IntMap,
    /// The metadata of each component type, indexed by its id.
    metadata: Vec<ComponentMetaData>,
}

impl View for ComponentManager {
    type V = Seq<ComponentMetaData>;

    /// The metadata of the registered types, in the order of their ids.
    closed spec fn view(&self) -> Seq<ComponentMetaData> {
        self.metadata@
    }
}

impl ComponentManager {
    /// The representation invariant: the map holds exactly the tags of the
    /// metadata, each with its position.
    pub closed spec fn wf(&self) -> bool {
        &&& forall|i: int|
            0 <= i < self.metadata.len() ==> self.ids@.contains_key(
                (#[trigger] self.metadata[i]).type_tag,
            ) && self.ids@[self.metadata[i].type_tag] == i
        &&& forall|t: u64| #[trigger]
            self.ids@.contains_key(t) ==> self.ids@[t] < self.metadata.len()
                && self.metadata[self.ids@[t] as int].type_tag == t
    }

    /// In a well-formed registry every tag stands once.
    pub proof fn law_tags_are_distinct(&self)
        requires
            self.wf(),
        ensures
            tags_distinct(self@),
    {
    }

    /// A registry without component types.
    pub fn new() -> (r: Self)
        ensures
            r.wf(),
            r@ == Seq::<ComponentMetaData>::empty(),
    {
        Self { ids: IntMap::default(), metadata: Vec::with_capacity(8) }
    }

    /// The number of registered component types.
    pub fn len(&self) -> (n: usize)
        ensures
            n == self@.len(),
    {
        self.metadata.len()
    }

    /// Registers a component type and returns its id. A type tag that is
    /// registered already keeps its id and its metadata: the call changes
    /// nothing.
    pub fn register(&mut self, type_tag: u64, size: usize, align: usize) -> (id: ComponentID)
        requires
            old(self).wf(),
        ensures
            final(self).wf(),
            id_of_tag(final(self)@, type_tag) == Some(id),
            match id_of_tag(old(self)@, type_tag) {
                Some(known) => id == known && final(self)@ == old(self)@,
                None => id == old(self)@.len() && final(self)@ == old(self)@.push(
                    ComponentMetaData { type_tag, size, align },
                ),
            },
    {
        match int_map_get(&self.ids, type_tag) {
            Some(id) => {
                let id = *id;
                proof {
                    self.lemma_id_of(type_tag);
                }
                id
            },
            None => {
                proof {
                    self.lemma_id_of(type_tag);
                }
                let comp_id = self.metadata.len();
                int_map_insert(&mut self.ids, type_tag, comp_id);
                self.metadata.push(ComponentMetaData::new(type_tag, size, align));
                proof {
                    assert(self.metadata[comp_id as int].type_tag == type_tag);
                    self.lemma_id_of(type_tag);
                }
                comp_id
            },
        }
    }

    /// What the map says of a tag is what the metadata say of it.
    proof fn lemma_id_of(&self, type_tag: u64)
        requires
            self.wf(),
        ensures
            id_of_tag(self@, type_tag) == (if self.ids@.contains_key(type_tag) {
                Some(self.ids@[type_tag])
            } else {
                None
            }),
    {
        if self.ids@.contains_key(type_tag) {
            let i = self.ids@[type_tag] as int;
            assert(self.metadata[i].type_tag == type_tag);
            let j = choose|j: int|
                0 <= j < self@.len() && (#[trigger] self@[j]).type_tag == type_tag;
            assert(self.ids@[self.metadata[j].type_tag] == j);
        } else {
            if exists|i: int| 0 <= i < self@.len() && (#[trigger] self@[i]).type_tag == type_tag {
                let i = choose|i: int|
                    0 <= i < self@.len() && (#[trigger] self@[i]).type_tag == type_tag;
                assert(self.ids@.contains_key(self.metadata[i].type_tag));
            }
        }
    }

    /// The id of the component type with tag `type_tag`, or `None` where it
    /// was never registered.
    pub fn get_id(&self, type_tag: u64) -> (r: Option<ComponentID>)
        requires
            self.wf(),
        ensures
            r == id_of_tag(self@, type_tag),
            r matches Some(id) ==> id < self@.len() && self@[id as int].type_tag == type_tag,
    {
        proof {
            self.lemma_id_of(type_tag);
        }
        match int_map_get(&self.ids, type_tag) {
            Some(id) => Some(*id),
            None => None,
        }
    }

    /// The metadata of the component type `comp_id`.
    pub fn get_metadata(&self, comp_id: ComponentID) -> (r: &ComponentMetaData)
        requires
            comp_id < self@.len(),
        ensures
            *r == self@[comp_id as int],
    {
        &self.metadata[comp_id]
    }
}

} // verus!
