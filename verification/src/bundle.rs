//! Bundles: the access specifiers of a query, what each adds to the
//! query's filter and what each fetches from a row.

use vstd::prelude::*;
use crate::archetype::{Archetype, ArchetypeView};
use crate::component::ComponentID;
use crate::entity::Entity;
use crate::filter::{FilterBuilder, FilterView, TrackedItem};

verus! {

/// One access specifier of a bundle.
#[derive(Clone, Copy, Debug, PartialEq, Eq, Structural)]
pub enum Access {
    /// A shared view of the component, which the archetype must have.
    Read(ComponentID),
    /// An exclusive view of the component, which the archetype must have.
    Write(ComponentID),
    /// A shared view of the component where the archetype has it.
    OptionalRead(ComponentID),
    /// An exclusive view of the component where the archetype has it.
    OptionalWrite(ComponentID),
    /// A shared view of the component, which the archetype must have, with
    /// whether it was modified.
    TrackedRead(ComponentID),
    /// An exclusive view of the component, which the archetype must have,
    /// with whether it was modified.
    TrackedWrite(ComponentID),
    /// The archetype must have the component; no data is read.
    With(ComponentID),
    /// The archetype must not have the component; no data is read.
    Without(ComponentID),
    /// The entity of the row.
    EntityHandle,
}

/// The mathematical content of a fetched item.
pub enum ItemView {
    Component(Seq<u8>),
    Optional(Option<Seq<u8>>),
    Watched { value: Seq<u8>, modified: bool },
    Tag,
    Entity(Entity),
}

/// What one access specifier fetches from a row.
pub enum Item<'a> {
    /// The bytes of the component.
    Component(&'a [u8]),
    /// The bytes of the component, or `None` where the row has none.
    Optional(Option<&'a [u8]>),
    /// The bytes of the component, as modified or unmodified.
    Watched(TrackedItem<&'a [u8]>),
    /// Nothing: the specifier only filters.
    Tag,
    /// The entity of the row.
    Entity(Entity),
}

impl<'a> View for Item<'a> {
    type V = ItemView;

    open spec fn view(&self) -> ItemView {
        match *self {
            Item::Component(b) => ItemView::Component(b@),
            Item::Optional(o) => ItemView::Optional(
                match o {
                    Some(b) => Some(b@),
                    None => None,
                },
            ),
            Item::Watched(t) => match t {
                TrackedItem::Modified(b) => ItemView::Watched { value: b@, modified: true },
                TrackedItem::Unmodified(b) => ItemView::Watched { value: b@, modified: false },
            },
            Item::Tag => ItemView::Tag,
            Item::Entity(e) => ItemView::Entity(e),
        }
    }
}

impl Access {
    /// The number of components that the specifier stands for: one, but none
    /// for the entity handle.
    pub open spec fn counted(self) -> nat {
        if self is EntityHandle {
            0
        } else {
            1
        }
    }

    /// The filter `f` with what this specifier asks of an archetype.
    pub open spec fn filtered(self, f: FilterView) -> FilterView {
        match self {
            Access::Read(c) | Access::Write(c) | Access::With(c) => FilterView {
                and: f.and.push(c),
                ..f
            },
            Access::TrackedRead(c) | Access::TrackedWrite(c) => FilterView {
                and: f.and.push(c),
                track: f.track.push(c),
                ..f
            },
            Access::Without(c) => FilterView { not: f.not.push(c), ..f },
            Access::OptionalRead(_) | Access::OptionalWrite(_) | Access::EntityHandle => f,
        }
    }

    /// Whether the specifier can be fetched from the archetype `a`: the
    /// component that it requires has a column there.
    pub open spec fn fetchable(self, a: ArchetypeView) -> bool {
        match self {
            Access::Read(c) | Access::Write(c) | Access::TrackedRead(c) | Access::TrackedWrite(
                c,
            ) => a.columns.contains_key(c),
            _ => true,
        }
    }

    /// What the specifier fetches from row `row` of the archetype `a`. A
    /// tracked read of a column without tracker reads as modified.
    pub open spec fn fetched(self, a: ArchetypeView, row: int) -> ItemView {
        match self {
            Access::Read(c) | Access::Write(c) => ItemView::Component(a.columns[c].rows[row]),
            Access::OptionalRead(c) | Access::OptionalWrite(c) => ItemView::Optional(
                if a.columns.contains_key(c) {
                    Some(a.columns[c].rows[row])
                } else {
                    None
                },
            ),
            Access::TrackedRead(c) | Access::TrackedWrite(c) => ItemView::Watched {
                value: a.columns[c].rows[row],
                modified: match a.columns[c].tracker {
                    Some(t) => t.is_modified(row),
                    None => true,
                },
            },
            Access::With(_) | Access::Without(_) => ItemView::Tag,
            Access::EntityHandle => ItemView::Entity(a.entities[row]),
        }
    }

    /// The number of components that the specifier stands for.
    pub fn count(&self) -> (n: usize)
        ensures
            n == self.counted(),
    {
        match self {
            Access::EntityHandle => 0,
            _ => 1,
        }
    }

    /// Adds to `filter` what the specifier asks of an archetype.
    pub fn build_filter(&self, filter: FilterBuilder) -> (r: FilterBuilder)
        ensures
            r@ == self.filtered(filter@),
    {
        match self {
            Access::Read(c) => filter.and(*c),
            Access::Write(c) => filter.and(*c),
            Access::With(c) => filter.and(*c),
            Access::TrackedRead(c) => {
                let filter = filter.and(*c);
                filter.track(*c)
            },
            Access::TrackedWrite(c) => {
                let filter = filter.and(*c);
                filter.track(*c)
            },
            Access::Without(c) => filter.not(*c),
            Access::OptionalRead(_) => filter,
            Access::OptionalWrite(_) => filter,
            Access::EntityHandle => filter,
        }
    }

    /// Fetches what the specifier asks for from row `index` of `archetype`.
    pub fn fetch_item<'a>(&self, archetype: &'a Archetype, index: usize) -> (r: Item<'a>)
        requires
            archetype.wf(),
            archetype@.inv(),
            index < archetype@.entities.len(),
            self.fetchable(archetype@),
        ensures
            r@ == self.fetched(archetype@, index as int),
    {
        match self {
            Access::Read(c) => {
                let _ = Ghost(archetype@.columns[*c]);
                Item::Component(archetype.get_component(*c, index))
            },
            Access::Write(c) => {
                let _ = Ghost(archetype@.columns[*c]);
                Item::Component(archetype.get_component(*c, index))
            },
            Access::OptionalRead(c) => {
                if archetype.has_storage(*c) {
                    let _ = Ghost(archetype@.columns[*c]);
                    Item::Optional(Some(archetype.get_component(*c, index)))
                } else {
                    Item::Optional(None)
                }
            },
            Access::OptionalWrite(c) => {
                if archetype.has_storage(*c) {
                    let _ = Ghost(archetype@.columns[*c]);
                    Item::Optional(Some(archetype.get_component(*c, index)))
                } else {
                    Item::Optional(None)
                }
            },
            Access::TrackedRead(c) => fetch_tracked(archetype, *c, index),
            Access::TrackedWrite(c) => fetch_tracked(archetype, *c, index),
            Access::With(_) => Item::Tag,
            Access::Without(_) => Item::Tag,
            Access::EntityHandle => Item::Entity(archetype.entities()[index]),
        }
    }
}

/// The value of `comp_id` in row `index`, as modified where the row was
/// written at or after the last sync.
fn fetch_tracked<'a>(archetype: &'a Archetype, comp_id: ComponentID, index: usize) -> (r: Item<'a>)
    requires
        archetype.wf(),
        archetype@.inv(),
        index < archetype@.entities.len(),
        archetype@.columns.contains_key(comp_id),
    ensures
        r@ == Access::TrackedRead(comp_id).fetched(archetype@, index as int),
        r@ == Access::TrackedWrite(comp_id).fetched(archetype@, index as int),
{
    let _ = Ghost(archetype@.columns[comp_id]);
    let storage = archetype.get_storage(comp_id);
    let item = storage.get(index);
    if storage.is_modified(index) {
        Item::Watched(TrackedItem::Modified(item))
    } else {
        Item::Watched(TrackedItem::Unmodified(item))
    }
}

/// The number of components that `bundle` stands for: the number of its
/// specifiers other than the entity handle.
pub open spec fn bundle_count(bundle: Seq<Access>) -> nat {
    bundle.filter(|a: Access| !(a is EntityHandle)).len()
}

/// One more specifier adds what it stands for to the count of a bundle.
pub proof fn lemma_bundle_count_push(bundle: Seq<Access>, a: Access)
    ensures
        bundle_count(bundle.push(a)) == bundle_count(bundle) + a.counted(),
        bundle_count(Seq::<Access>::empty()) == 0,
{
    reveal(Seq::filter);
    assert(bundle.push(a).drop_last() =~= bundle);
}

/// The filter `f` with what every specifier of `bundle` asks.
pub open spec fn bundle_filter(bundle: Seq<Access>, f: FilterView) -> FilterView
    decreases bundle.len(),
{
    if bundle.len() == 0 {
        f
    } else {
        bundle.last().filtered(bundle_filter(bundle.drop_last(), f))
    }
}

/// Whether every specifier of `bundle` can be fetched from `a`.
pub open spec fn bundle_fetchable(bundle: Seq<Access>, a: ArchetypeView) -> bool {
    forall|i: int| 0 <= i < bundle.len() ==> (#[trigger] bundle[i]).fetchable(a)
}

/// What the specifiers of `bundle` fetch from row `row` of `a`.
pub open spec fn bundle_fetched(bundle: Seq<Access>, a: ArchetypeView, row: int) -> Seq<ItemView> {
    Seq::new(bundle.len(), |i: int| bundle[i].fetched(a, row))
}

/// The views of the items.
pub open spec fn item_views(items: Seq<Item<'_>>) -> Seq<ItemView> {
    Seq::new(items.len(), |i: int| items[i]@)
}

/// A filter built from a bundle requires every component that the bundle
/// requires: what its archetypes match can be fetched from them.
pub proof fn lemma_bundle_filter(bundle: Seq<Access>, f: FilterView, a: ArchetypeView)
    requires
        a.inv(),
        bundle_filter(bundle, f).matches(a.set),
    ensures
        bundle_fetchable(bundle, a),
        f.matches(a.set),
    decreases bundle.len(),
{
    if bundle.len() > 0 {
        let rest = bundle_filter(bundle.drop_last(), f);
        let all = bundle.last().filtered(rest);
        assert(rest.matches(a.set)) by {
            assert forall|i: int| 0 <= i < rest.and.len() implies a.set.contains(#[trigger] rest.and[i]) by {
                assert(all.and[i] == rest.and[i]);
            }
            assert forall|i: int| 0 <= i < rest.not.len() implies !a.set.contains(#[trigger] rest.not[i]) by {
                assert(all.not[i] == rest.not[i]);
            }
        }
        lemma_bundle_filter(bundle.drop_last(), f, a);
        assert forall|i: int| 0 <= i < bundle.len() implies (#[trigger] bundle[i]).fetchable(a) by {
            if i < bundle.len() - 1 {
                assert(bundle.drop_last()[i] == bundle[i]);
            } else {
                match bundle.last() {
                    Access::Read(c) | Access::Write(c) | Access::TrackedRead(c) | Access::TrackedWrite(
                        c,
                    ) => {
                        assert(all.and[rest.and.len() as int] == c);
                        assert(a.set.contains(c));
                        assert(a.columns.dom().contains(c));
                    },
                    _ => {},
                }
            }
        }
    }
}

/// The number of components that the bundle stands for.
pub fn count(bundle: &Vec<Access>) -> (n: usize)
    ensures
        n == bundle_count(bundle@),
{
    let mut n: usize = 0;
    let mut i: usize = 0;
    proof {
        lemma_bundle_count_push(Seq::empty(), Access::EntityHandle);
        assert(bundle@.take(0) =~= Seq::<Access>::empty());
    }
    while i < bundle.len()
        invariant
            i <= bundle.len(),
            n <= i,
            n == bundle_count(bundle@.take(i as int)),
        decreases bundle.len() - i,
    {
        proof {
            lemma_bundle_count_push(bundle@.take(i as int), bundle[i as int]);
            assert(bundle@.take(i as int).push(bundle[i as int]) =~= bundle@.take(i + 1));
        }
        n = n + bundle[i].count();
        i = i + 1;
    }
    assert(bundle@.take(bundle.len() as int) =~= bundle@);
    n
}

/// Adds to `filter` what every specifier of `bundle` asks of an archetype.
pub fn build_filter(bundle: &Vec<Access>, filter: FilterBuilder) -> (r: FilterBuilder)
    ensures
        r@ == bundle_filter(bundle@, filter@),
{
    let mut filter = filter;
    let ghost f0 = filter@;
    let mut i: usize = 0;
    while i < bundle.len()
        invariant
            i <= bundle.len(),
            filter@ == bundle_filter(bundle@.take(i as int), f0),
        decreases bundle.len() - i,
    {
        filter = bundle[i].build_filter(filter);
        proof {
            assert(bundle@.take(i + 1).drop_last() =~= bundle@.take(i as int));
            assert(bundle@.take(i + 1).last() == bundle@[i as int]);
        }
        i = i + 1;
    }
    assert(bundle@.take(bundle.len() as int) =~= bundle@);
    filter
}

/// Fetches what each specifier of `bundle` asks for from row `index` of
/// `archetype`.
pub fn fetch_items<'a>(bundle: &Vec<Access>, archetype: &'a Archetype, index: usize) -> (r: Vec<
    Item<'a>,
>)
    requires
        archetype.wf(),
        archetype@.inv(),
        index < archetype@.entities.len(),
        bundle_fetchable(bundle@, archetype@),
    ensures
        item_views(r@) == bundle_fetched(bundle@, archetype@, index as int),
{
    let mut items: Vec<Item<'a>> = Vec::with_capacity(bundle.len());
    let mut i: usize = 0;
    while i < bundle.len()
        invariant
            i <= bundle.len(),
            archetype.wf(),
            archetype@.inv(),
            index < archetype@.entities.len(),
            bundle_fetchable(bundle@, archetype@),
            items.len() == i,
            forall|k: int| 0 <= k < i ==> (#[trigger] items[k])@ == bundle[k].fetched(archetype@, index as int),
        decreases bundle.len() - i,
    {
        let item = bundle[i].fetch_item(archetype, index);
        items.push(item);
        i = i + 1;
    }
    assert(item_views(items@) =~= bundle_fetched(bundle@, archetype@, index as int));
    items
}

} // verus!
