//! Resources: singleton values kept by the world, found by the tag of
//! their type or by the id given when they were added.

use vstd::prelude::*;
use core::marker::PhantomData;
use crate::int_map::{int_map_get, int_map_insert, IntMap};

verus! {

/// Marks the types whose values can be kept as resources: every type that
/// borrows nothing.
pub trait Resource: 'static {

}

impl<T: 'static> Resource for T {

}

/// The id of a resource of type `R`: its position in the store.
pub struct ResourceId<R: Resource> {
    pub index: usize,
    pub marker: PhantomData<R>,
}

impl<R: Resource> Clone for ResourceId<R> {
    fn clone(&self) -> (r: Self)
        ensures
            r.index == self.index,
    {
        ResourceId { index: self.index, marker: PhantomData }
    }
}

impl<R: Resource> Copy for ResourceId<R> {

}

impl<R: Resource> ResourceId<R> {
    /// The id of the resource at position `id`.
    pub fn new(id: usize) -> (r: Self)
        ensures
            r.index == id,
    {
        Self { index: id, marker: PhantomData }
    }
}

/// The store of resources, each kept as the bytes of its value.
pub struct ResourceManager {
    resources: Vec<Vec<u8>>,
    /// For the tag of a type, the position of the resource of that type
    /// that was added last.
    ids: IntMap,
}

impl ResourceManager {
    /// The bytes of each resource, by position.
    pub closed spec fn values(&self) -> Seq<Seq<u8>> {
        Seq::new(self.resources.len() as nat, |i: int| self.resources[i]@)
    }

    /// For the tag of a type, the position of the resource of that type.
    pub closed spec fn positions(&self) -> Map<u64, usize> {
        self.ids@
    }

    /// The representation invariant: each position names a resource.
    pub closed spec fn wf(&self) -> bool {
        forall|t: u64| #[trigger] self.ids@.contains_key(t) ==> self.ids@[t] < self.resources.len()
    }

    /// A store without resources.
    pub fn new() -> (r: Self)
        ensures
            r.wf(),
            r.values() == Seq::<Seq<u8>>::empty(),
            r.positions() == Map::<u64, usize>::empty(),
    {
        let r = Self { resources: Vec::with_capacity(32), ids: IntMap::default() };
        assert(r.values() =~= Seq::<Seq<u8>>::empty());
        r
    }

    /// Adds a resource of the type with tag `type_tag` and returns its id.
    /// The tag now names this resource.
    pub fn add<R: Resource>(&mut self, type_tag: u64, resource: Vec<u8>) -> (id: ResourceId<R>)
        requires
            old(self).wf(),
        ensures
            final(self).wf(),
            id.index == old(self).values().len(),
            final(self).values() == old(self).values().push(resource@),
            final(self).positions() == old(self).positions().insert(type_tag, id.index),
    {
        let index = self.resources.len();
        int_map_insert(&mut self.ids, type_tag, index);
        self.resources.push(resource);
        let _ = self.resources.len();
        assert(self.values() =~= old(self).values().push(resource@));
        ResourceId::new(index)
    }

    /// The id of the resource of the type with tag `type_tag`, or `None`
    /// where none was added.
    pub fn get_id<R: Resource>(&self, type_tag: u64) -> (r: Option<ResourceId<R>>)
        requires
            self.wf(),
        ensures
            match r {
                Some(id) => self.positions().contains_key(type_tag) && id.index
                    == self.positions()[type_tag] && id.index < self.values().len(),
                None => !self.positions().contains_key(type_tag),
            },
    {
        match int_map_get(&self.ids, type_tag) {
            Some(index) => Some(ResourceId::new(*index)),
            None => None,
        }
    }

    /// All resources, by position.
    pub fn get_storage(&self) -> (r: &Vec<Vec<u8>>)
        ensures
            r.len() == self.values().len(),
            forall|i: int| 0 <= i < r.len() ==> (#[trigger] r[i])@ == self.values()[i],
    {
        &self.resources
    }

    /// The bytes of the resource `id`, or `None` where there is none.
    pub fn get<R: Resource>(&self, id: ResourceId<R>) -> (r: Option<&Vec<u8>>)
        ensures
            match r {
                Some(v) => id.index < self.values().len() && v@ == self.values()[id.index as int],
                None => id.index >= self.values().len(),
            },
    {
        if id.index < self.resources.len() {
            Some(&self.resources[id.index])
        } else {
            None
        }
    }

    /// The bytes of the resource `id`, which exists.
    pub fn get_unchecked<R: Resource>(&self, id: ResourceId<R>) -> (r: &Vec<u8>)
        requires
            id.index < self.values().len(),
        ensures
            r@ == self.values()[id.index as int],
    {
        &self.resources[id.index]
    }

    /// Mutable access to the bytes of the resource `id`, or `None` where
    /// there is none. What the caller leaves there becomes the resource.
    pub fn get_mut<R: Resource>(&mut self, id: ResourceId<R>) -> (r: Option<&mut Vec<u8>>)
        requires
            old(self).wf(),
        ensures
            final(self).wf(),
            final(self).positions() == old(self).positions(),
            match r {
                Some(v) => id.index < old(self).values().len() && v@ == old(self).values()[id.index as int]
                    && final(self).values() == old(self).values().update(id.index as int, final(v)@),
                None => id.index >= old(self).values().len() && final(self).values() == old(
                    self,
                ).values(),
            },
    {
        if id.index < self.resources.len() {
            Some(self.get_mut_unchecked(id))
        } else {
            None
        }
    }

    /// Mutable access to the bytes of the resource `id`, which exists.
    /// What the caller leaves there becomes the resource.
    pub fn get_mut_unchecked<R: Resource>(&mut self, id: ResourceId<R>) -> (r: &mut Vec<u8>)
        requires
            old(self).wf(),
            id.index < old(self).values().len(),
        ensures
            final(self).wf(),
            final(self).positions() == old(self).positions(),
            r@ == old(self).values()[id.index as int],
            final(self).values() == old(self).values().update(id.index as int, final(r)@),
    {
        let r = &mut self.resources[id.index];
        proof {
            let after = old(self).resources@.update(id.index as int, *final(r));
            assert(Seq::new(after.len(), |i: int| after[i]@) =~= old(self).values().update(
                id.index as int,
                final(r)@,
            ));
        }
        r
    }

    /// Replaces the bytes of the resource `id`, which exists.
    pub fn set<R: Resource>(&mut self, id: ResourceId<R>, resource: Vec<u8>)
        requires
            old(self).wf(),
            id.index < old(self).values().len(),
        ensures
            final(self).wf(),
            final(self).values() == old(self).values().update(id.index as int, resource@),
            final(self).positions() == old(self).positions(),
    {
        self.resources[id.index] = resource;
        assert(self.values() =~= old(self).values().update(id.index as int, resource@));
    }
}

} // verus!
